//! Numbers as they are laid out on the wire.

use vstd::prelude::*;

verus! {

/// The number that three bytes in network order stand for.
pub open spec fn be24_value(b: Seq<u8>) -> int {
    (b[0] * 256 + b[1]) * 256 + b[2]
}

/// The low 24 bits of `n` in network order.
pub open spec fn be24_bytes(n: int) -> Seq<u8> {
    seq![(n / 65536 % 256) as u8, (n / 256 % 256) as u8, (n % 256) as u8]
}

/// The number that four bytes in network order stand for.
pub open spec fn be32_value(b: Seq<u8>) -> int {
    ((b[0] * 256 + b[1]) * 256 + b[2]) * 256 + b[3]
}

/// The sum of two 32 bit numbers, wrapped around at 32 bits.
pub open spec fn wrapping_sum(a: u32, b: u32) -> u32 {
    ((a + b) % 0x1_0000_0000) as u32
}

/// Reads a 24 bit number in network order.
pub fn read_be24(b0: u8, b1: u8, b2: u8) -> (n: usize)
    ensures
        n == be24_value(seq![b0, b1, b2]),
        n < 0x100_0000,
        n / 0x1_0000 == b0,
        n / 0x100 % 256 == b1,
        n % 256 == b2,
{
    (b0 as usize * 256 + b1 as usize) * 256 + b2 as usize
}

/// Reads a 32 bit number in network order.
pub fn read_be32(b: &[u8; 4]) -> (n: u32)
    ensures
        n == be32_value(b@),
        n / 0x100_0000 == b@[0],
        n / 0x1_0000 % 256 == b@[1],
        n / 0x100 % 256 == b@[2],
        n % 256 == b@[3],
{
    ((b[0] as u32 * 256 + b[1] as u32) * 256 + b[2] as u32) * 256 + b[3] as u32
}

/// Appends `src` to `dst`.
pub fn append(dst: &mut Vec<u8>, src: &[u8])
    ensures
        final(dst)@ == old(dst)@ + src@,
{
    dst.extend_from_slice(src);
    assert(dst@ =~= old(dst)@ + src@);
}

/// The decimal digit that stands for `n`.
pub open spec fn digit(n: nat) -> char {
    (48 + n) as char
}

/// A number in decimal, without leading zeros.
pub open spec fn decimal(n: nat) -> Seq<char>
    decreases n,
{
    if n < 10 {
        seq![digit(n)]
    } else {
        decimal(n / 10).push(digit(n % 10))
    }
}

/// Renders a decimal digit.
fn render_digit(n: usize) -> (text: &'static str)
    requires
        n < 10,
    ensures
        text@ == seq![digit(n as nat)],
{
    proof {
        reveal_strlit("0");
        reveal_strlit("1");
        reveal_strlit("2");
        reveal_strlit("3");
        reveal_strlit("4");
        reveal_strlit("5");
        reveal_strlit("6");
        reveal_strlit("7");
        reveal_strlit("8");
        reveal_strlit("9");
    }
    if n == 0 {
        "0"
    } else if n == 1 {
        "1"
    } else if n == 2 {
        "2"
    } else if n == 3 {
        "3"
    } else if n == 4 {
        "4"
    } else if n == 5 {
        "5"
    } else if n == 6 {
        "6"
    } else if n == 7 {
        "7"
    } else if n == 8 {
        "8"
    } else {
        "9"
    }
}

/// Renders a number in decimal.
pub fn render_decimal(n: usize) -> (text: String)
    ensures
        text@ == decimal(n as nat),
    decreases n,
{
    if n < 10 {
        String::from_str(render_digit(n))
    } else {
        let mut text: String = render_decimal(n / 10);
        text.append(render_digit(n % 10));
        assert(text@ =~= decimal(n as nat));
        text
    }
}

/// Whether two byte strings are the same.
pub fn same(a: &[u8], b: &[u8]) -> (r: bool)
    ensures
        r == (a@ == b@),
{
    if a.len() != b.len() {
        return false;
    }
    let n: usize = a.len();
    for i in 0..n
        invariant
            n == a@.len(),
            n == b@.len(),
            forall|j: int| 0 <= j < i ==> a@[j] == b@[j],
    {
        if a[i] != b[i] {
            return false;
        }
    }
    assert(a@ =~= b@);
    true
}

/// Every number of 24 bits is read back from its bytes, the high one first, and
/// that is how the low 24 bits of any number are laid out.
pub proof fn law_be24(n: int)
    requires
        0 <= n,
    ensures
        n < 0x100_0000 ==> be24_value(
            seq![(n / 0x1_0000) as u8, (n / 0x100 % 256) as u8, (n % 256) as u8],
        ) == n,
        be24_bytes(n).len() == 3,
        be24_bytes(n)[0] * 0x1_0000 + be24_bytes(n)[1] * 0x100 + be24_bytes(n)[2] == n
            % 0x100_0000,
{
}

/// Every number of 32 bits is read back from its bytes, the high one first.
pub proof fn law_be32(n: u32)
    ensures
        be32_value(
            seq![
                (n / 0x100_0000) as u8,
                (n / 0x1_0000 % 256) as u8,
                (n / 0x100 % 256) as u8,
                (n % 256) as u8,
            ],
        ) == n,
{
}

/// Four bytes stand for different numbers unless they are the same.
pub proof fn law_be32_distinct(a: Seq<u8>, b: Seq<u8>)
    requires
        a.len() == 4,
        b.len() == 4,
        be32_value(a) == be32_value(b),
    ensures
        a == b,
{
    assert(a =~= b);
}

/// Counts add up as numbers do until they no longer fit 32 bits, and go on from zero
/// then. It makes no difference how they are grouped.
pub proof fn law_wrapping_sum(a: u32, b: u32, c: u32)
    ensures
        a + b <= u32::MAX ==> wrapping_sum(a, b) == a + b,
        a + b > u32::MAX ==> wrapping_sum(a, b) == a + b - 0x1_0000_0000,
        wrapping_sum(wrapping_sum(a, b), c) == wrapping_sum(a, wrapping_sum(b, c)),
        wrapping_sum(a, b) == wrapping_sum(b, a),
        wrapping_sum(a, 0) == a,
{
}

/// The number that a text stands for, if it is made of decimal digits alone.
pub open spec fn read_decimal(text: Seq<char>) -> Option<int>
    decreases text.len(),
{
    if text.len() == 0 {
        Some(0)
    } else {
        match read_decimal(text.drop_last()) {
            Some(high) => if '0' <= text.last() && text.last() <= '9' {
                Some(high * 10 + (text.last() as int - '0' as int))
            } else {
                None
            },
            None => None,
        }
    }
}

/// A number is read back from its decimal digits, of which there is at least one and
/// none too many.
pub proof fn law_decimal(n: nat)
    ensures
        read_decimal(decimal(n)) == Some(n as int),
        decimal(n).len() > 0,
        n > 0 ==> decimal(n)[0] != '0',
        n == 0 ==> decimal(n).len() == 1,
        forall|i: int|
            0 <= i < decimal(n).len() ==> '0' <= #[trigger] decimal(n)[i] && decimal(n)[i] <= '9',
    decreases n,
{
    if n < 10 {
        assert(decimal(n).drop_last() =~= Seq::<char>::empty());
        assert(read_decimal(decimal(n).drop_last()) == Some(0int));
    } else {
        law_decimal(n / 10);
        assert(decimal(n).drop_last() =~= decimal(n / 10));
    }
}

} // verus!

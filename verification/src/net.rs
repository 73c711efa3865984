//! Addresses and numbers as the kernel lays them out.

use vstd::prelude::*;

use crate::plan::AttachError;

verus! {

/// The end of a TCP connection.
#[derive(Clone, Copy, Debug, PartialEq, Eq)]
pub enum Address {
    V4 { ip: [u8; 4], port: u16 },
    V6,
}

/// The order of the bytes of a number in memory.
#[derive(Clone, Copy, Debug, PartialEq, Eq, Structural)]
pub enum ByteOrder {
    Little,
    Big,
}

/// `v` as it is laid out in memory.
pub open spec fn u32_bytes(order: ByteOrder, v: u32) -> Seq<u8> {
    let b0 = (v / 0x100_0000) as u8;
    let b1 = (v / 0x1_0000 % 256) as u8;
    let b2 = (v / 0x100 % 256) as u8;
    let b3 = (v % 256) as u8;
    match order {
        ByteOrder::Little => seq![b3, b2, b1, b0],
        ByteOrder::Big => seq![b0, b1, b2, b3],
    }
}

/// The number that is laid out in memory as `b`.
pub open spec fn u32_value(order: ByteOrder, b: Seq<u8>) -> int {
    match order {
        ByteOrder::Little => ((b[3] * 256 + b[2]) * 256 + b[1]) * 256 + b[0],
        ByteOrder::Big => ((b[0] * 256 + b[1]) * 256 + b[2]) * 256 + b[3],
    }
}

/// [`u32::to_ne_bytes`] lays a number out in the byte order of the machine,
/// which is either of the two.
#[verifier::external_body]
fn to_ne_bytes(v: u32) -> (b: [u8; 4])
    ensures
        b@ == u32_bytes(ByteOrder::Little, v) || b@ == u32_bytes(ByteOrder::Big, v),
{
    v.to_ne_bytes()
}

/// Returns the byte order of the machine. Which one that is rests on the machine.
pub(crate) fn native_order() -> (order: ByteOrder) {
    order_of(to_ne_bytes(1))
}

/// Returns the byte order of a machine that lays the number 1 out as `one`.
pub fn order_of(one: [u8; 4]) -> (order: ByteOrder)
    ensures
        order == if one@[0] == 1 {
            ByteOrder::Little
        } else {
            ByteOrder::Big
        },
        forall|machine: ByteOrder| #[trigger] u32_bytes(machine, 1) == one@ ==> order == machine,
{
    if one[0] == 1 {
        ByteOrder::Little
    } else {
        ByteOrder::Big
    }
}

/// Lays a number out in memory.
pub fn write_u32(order: ByteOrder, v: u32) -> (b: [u8; 4])
    ensures
        b@ == u32_bytes(order, v),
{
    let b0: u8 = (v / 0x100_0000) as u8;
    let b1: u8 = (v / 0x1_0000 % 256) as u8;
    let b2: u8 = (v / 0x100 % 256) as u8;
    let b3: u8 = (v % 256) as u8;
    match order {
        ByteOrder::Little => [b3, b2, b1, b0],
        ByteOrder::Big => [b0, b1, b2, b3],
    }
}

/// Reads a number out of memory.
pub fn read_u32(order: ByteOrder, b: [u8; 4]) -> (v: u32)
    ensures
        v == u32_value(order, b@),
{
    let (hi, mid, low, least) = match order {
        ByteOrder::Little => (b[3], b[2], b[1], b[0]),
        ByteOrder::Big => (b[0], b[1], b[2], b[3]),
    };
    ((hi as u32 * 256 + mid as u32) * 256 + low as u32) * 256 + least as u32
}

/// A number is read back as it was laid out.
pub proof fn law_byte_order(order: ByteOrder, v: u32)
    ensures
        u32_value(order, u32_bytes(order, v)) == v,
{
}

/// The connection between `local` and `remote` as `struct ip4_conn` lays it out.
pub open spec fn conn_bytes(
    order: ByteOrder,
    local_ip: [u8; 4],
    local_port: u16,
    remote_ip: [u8; 4],
    remote_port: u16,
) -> Seq<u8> {
    local_ip@ + u32_bytes(order, local_port as u32) + remote_ip@ + u32_bytes(
        order,
        remote_port as u32,
    )
}

/// The key that the connection between `local` and `remote` is known by, if it
/// has one.
pub open spec fn conn_key_bytes(order: ByteOrder, local: Address, remote: Address) -> Option<
    Seq<u8>,
> {
    match (local, remote) {
        (
            Address::V4 { ip: local_ip, port: local_port },
            Address::V4 { ip: remote_ip, port: remote_port },
        ) => Some(conn_bytes(order, local_ip, local_port, remote_ip, remote_port)),
        _ => None,
    }
}

/// Returns the key the fast path's maps know the connection between `local` and
/// `remote` by on a machine of the given byte order, or `None` if one of them is
/// not an IPv4 address.
pub fn conn_key_in(order: ByteOrder, local: Address, remote: Address) -> (key: Option<[u8; 16]>)
    ensures
        match key {
            Some(k) => conn_key_bytes(order, local, remote) == Some(k@),
            None => conn_key_bytes(order, local, remote) is None,
        },
{
    match (local, remote) {
        (
            Address::V4 { ip: local_ip, port: local_port },
            Address::V4 { ip: remote_ip, port: remote_port },
        ) => {
            let lp: [u8; 4] = write_u32(order, local_port as u32);
            let rp: [u8; 4] = write_u32(order, remote_port as u32);
            let key: [u8; 16] = [
                local_ip[0], local_ip[1], local_ip[2], local_ip[3],
                lp[0], lp[1], lp[2], lp[3],
                remote_ip[0], remote_ip[1], remote_ip[2], remote_ip[3],
                rp[0], rp[1], rp[2], rp[3],
            ];
            assert(key@ =~= conn_bytes(order, local_ip, local_port, remote_ip, remote_port));
            Some(key)
        },
        _ => None,
    }
}

/// Returns the key the fast path's maps know the connection between `local` and
/// `remote` by, or `None` if one of them is not an IPv4 address.
pub fn conn_key(local: Address, remote: Address) -> (key: Option<[u8; 16]>)
    ensures
        key is Some <==> local is V4 && remote is V4,
        key matches Some(k) ==> exists|order: ByteOrder|
            #[trigger] conn_key_bytes(order, local, remote) == Some(k@),
{
    let order: ByteOrder = native_order();
    let key: Option<[u8; 16]> = conn_key_in(order, local, remote);
    assert(conn_key_bytes(order, local, remote) is Some <==> local is V4 && remote is V4);
    key
}

/// What the eBPF program is told about the address the server listens on.
pub open spec fn listen_values(order: ByteOrder, address: Address) -> Result<
    (int, int),
    AttachError,
> {
    match address {
        Address::V4 { ip, port } => Ok((u32_value(order, ip@), port as int)),
        Address::V6 => Err(AttachError::NotIpv4),
    }
}

/// Returns what the eBPF program is told about the address the server listens
/// on, on a machine of the given byte order: the four bytes of the address as a
/// number, and the port.
pub fn listen_address_in(order: ByteOrder, address: Address) -> (r: Result<(u32, u32), AttachError>)
    ensures
        match listen_values(order, address) {
            Ok((ip4, port)) => r matches Ok(v) && v.0 == ip4 && v.1 == port,
            Err(e) => r matches Err(f) && f == e,
        },
{
    match address {
        Address::V4 { ip, port } => Ok((read_u32(order, ip), port as u32)),
        Address::V6 => Err(AttachError::NotIpv4),
    }
}

/// Returns what the eBPF program is told about the address the server listens
/// on.
pub fn listen_address(address: Address) -> (r: Result<(u32, u32), AttachError>)
    ensures
        address is V6 ==> r == Err::<(u32, u32), AttachError>(AttachError::NotIpv4),
        address is V4 ==> r is Ok && exists|order: ByteOrder|
            #[trigger] listen_values(order, address) == Ok::<(int, int), AttachError>(
                (r->Ok_0.0 as int, r->Ok_0.1 as int),
            ),
{
    let order: ByteOrder = native_order();
    let r = listen_address_in(order, address);
    assert(listen_values(order, address) is Ok <==> address is V4);
    r
}

proof fn lemma_bytes(b0: u8, b1: u8, b2: u8, b3: u8, n: u32)
    requires
        n == ((b0 * 256 + b1) * 256 + b2) * 256 + b3,
    ensures
        n / 0x100_0000 == b0,
        n / 0x1_0000 % 256 == b1,
        n / 0x100 % 256 == b2,
        n % 256 == b3,
{
}

/// A number is laid out in four bytes, the high one first where the order is big, and
/// the other way around where it is little.
pub proof fn law_layout(v: u32)
    ensures
        ({
            let big = u32_bytes(ByteOrder::Big, v);
            let little = u32_bytes(ByteOrder::Little, v);
            &&& big.len() == 4
            &&& big[0] * 0x100_0000 + big[1] * 0x1_0000 + big[2] * 0x100 + big[3] == v
            &&& little == big.reverse()
        }),
{
    let big = u32_bytes(ByteOrder::Big, v);
    assert(u32_bytes(ByteOrder::Little, v) =~= big.reverse());
}

/// Four bytes are the layout of the number that they are read as.
pub proof fn law_read_back(order: ByteOrder, b: Seq<u8>)
    requires
        b.len() == 4,
    ensures
        0 <= u32_value(order, b) <= u32::MAX,
        u32_bytes(order, u32_value(order, b) as u32) == b,
        order is Big ==> u32_value(order, b) == b[0] * 0x100_0000 + b[1] * 0x1_0000 + b[2] * 0x100
            + b[3],
        order is Little ==> u32_value(order, b) == b[3] * 0x100_0000 + b[2] * 0x1_0000 + b[1]
            * 0x100 + b[0],
{
    let n = u32_value(order, b) as u32;
    match order {
        ByteOrder::Big => {
            lemma_bytes(b[0], b[1], b[2], b[3], n);
        },
        ByteOrder::Little => {
            lemma_bytes(b[3], b[2], b[1], b[0], n);
        },
    }
    assert(u32_bytes(order, n) =~= b);
}

/// The key of a connection holds the address and the port of either end, the local one
/// first, and both ends have to be IPv4 for there to be one.
pub proof fn law_conn_key(order: ByteOrder, local: Address, remote: Address)
    ensures
        conn_key_bytes(order, local, remote) is Some <==> local is V4 && remote is V4,
        conn_key_bytes(order, local, remote) matches Some(key) ==> {
            &&& key.len() == 16
            &&& key.subrange(0, 4) == local->ip@
            &&& u32_value(order, key.subrange(4, 8)) == local->port
            &&& key.subrange(8, 12) == remote->ip@
            &&& u32_value(order, key.subrange(12, 16)) == remote->port
        },
{
    if let Some(key) = conn_key_bytes(order, local, remote) {
        law_byte_order(order, local->port as u32);
        law_byte_order(order, remote->port as u32);
        assert(key.subrange(0, 4) =~= local->ip@);
        assert(key.subrange(4, 8) =~= u32_bytes(order, local->port as u32));
        assert(key.subrange(8, 12) =~= remote->ip@);
        assert(key.subrange(12, 16) =~= u32_bytes(order, remote->port as u32));
    }
}

/// Two connections are only known by the same key if they are between the same ends.
pub proof fn law_keys_distinct(
    order: ByteOrder,
    local: Address,
    remote: Address,
    local2: Address,
    remote2: Address,
)
    requires
        conn_key_bytes(order, local, remote) is Some,
        conn_key_bytes(order, local, remote) == conn_key_bytes(order, local2, remote2),
    ensures
        local->ip@ == local2->ip@,
        local->port == local2->port,
        remote->ip@ == remote2->ip@,
        remote->port == remote2->port,
{
    law_conn_key(order, local, remote);
    law_conn_key(order, local2, remote2);
}

/// The address that the eBPF program is told is laid out in its memory as it is on the
/// wire, and the port is the one the server listens on.
pub proof fn law_listen(order: ByteOrder, address: Address)
    ensures
        address is V4 ==> listen_values(order, address) is Ok,
        listen_values(order, address) matches Ok((ip4, port)) ==> {
            &&& address is V4
            &&& u32_bytes(order, ip4 as u32) == address->ip@
            &&& 0 <= ip4 <= u32::MAX
            &&& port == address->port
        },
        address is V6 ==> listen_values(order, address) == Err::<(int, int), AttachError>(
            AttachError::NotIpv4,
        ),
{
    if address is V4 {
        law_read_back(order, address->ip@);
    }
}

} // verus!

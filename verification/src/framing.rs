//! What a client's byte stream means, one byte at a time.
//!
//! A stream that opens with the HTTP/2 preface is a sequence of frames, among
//! them the two kinds the fast path adds: updates of the client's HPACK dynamic
//! table, and reports of the bytes it has answered with. [`advance`] says what a
//! single byte does to a reader that takes those two kinds out and passes
//! everything else on. [`step`] is the same for a reader that, in addition,
//! withholds whatever is behind an update until the update has been taken.

use vstd::prelude::*;

use crate::wire;

verus! {

/// The frame type the fast path prepends its dynamic table changes under.
pub const DT_SYNC_FRAME_TYPE: u8 = 0xFB;

/// The frame type the fast path reports the bytes it answered with under.
pub const FC_SYNC_FRAME_TYPE: u8 = 0xFA;

/// The size of a flow control frame's body: one 32 bit count of bytes.
pub const FC_SYNC_BODY_LEN: usize = 4;

/// The size of the connection preface.
pub const PREFACE_LEN: usize = 24;

/// The HTTP/2 connection preface a client opens with:
/// `PRI * HTTP/2.0\r\n\r\nSM\r\n\r\n`. Scanning only starts once it has been seen, so
/// an HTTP/1.1 connection is passed through untouched.
pub const PREFACE: [u8; 24] = [
    80, 82, 73, 32, 42, 32, 72, 84, 84, 80, 47, 50, 46, 48, 13, 10, 13, 10, 83, 77, 13, 10, 13, 10,
];

/// The fixed size of an HTTP/2 frame header.
pub const FRAME_HEADER_LEN: usize = 9;

/// The largest sync frame that is accepted. The fast path builds these itself
/// and keeps them far below this, so anything larger means the stream is not
/// carrying what it is taken to carry.
pub const MAX_SYNC_FRAME: usize = 65536;

/// Where a reader is in the stream it is walking.
#[verifier::ext_equal]
pub enum Phase {
    /// This many bytes of the preface have been seen, and nothing else.
    Preface { matched: nat },
    /// In a frame header, of which these bytes have been seen.
    Header { got: Seq<u8> },
    /// In the payload of a frame that is passed on, this far from its end, which
    /// has not been reached.
    Payload { remaining: nat },
    /// In the payload of an update, this far from its end, which has not been
    /// reached.
    Sync { block: Seq<u8>, remaining: nat },
    /// In the payload of a flow control report, of which these bytes have been
    /// seen.
    Flow { got: Seq<u8> },
    /// Not HTTP/2, or, if all of the preface has been seen, no longer able to
    /// follow the framing.
    Blind { http2: bool },
}

/// What a reader has made of a stream so far.
#[verifier::ext_equal]
pub struct Parse {
    pub phase: Phase,
    /// The bytes passed on.
    pub out: Seq<u8>,
    /// The updates taken out, oldest first.
    pub blocks: Seq<Seq<u8>>,
    /// The sum of the counts reported, wrapped around at 32 bits.
    pub sent: u32,
}

/// The start of a frame header.
pub open spec fn header_phase() -> Phase {
    Phase::Header { got: Seq::empty() }
}

/// A reader that has seen nothing yet.
pub open spec fn fresh() -> Parse {
    Parse { phase: Phase::Preface { matched: 0 }, out: Seq::empty(), blocks: Seq::empty(), sent: 0 }
}

/// The phase a complete frame header leads to.
pub open spec fn phase_after_header(hdr: Seq<u8>) -> Phase {
    let len = wire::be24_value(hdr) as nat;
    if hdr[3] == FC_SYNC_FRAME_TYPE {
        if len != FC_SYNC_BODY_LEN {
            Phase::Blind { http2: true }
        } else {
            Phase::Flow { got: Seq::empty() }
        }
    } else if hdr[3] != DT_SYNC_FRAME_TYPE {
        payload_phase(len)
    } else if len > MAX_SYNC_FRAME {
        Phase::Blind { http2: true }
    } else if len > 0 {
        Phase::Sync { block: Seq::empty(), remaining: len }
    } else {
        header_phase()
    }
}

/// The phase of a reader that is `remaining` bytes away from the end of a frame
/// that is passed on.
pub open spec fn payload_phase(remaining: nat) -> Phase {
    if remaining == 0 {
        header_phase()
    } else {
        Phase::Payload { remaining }
    }
}

/// Whether what has been seen of a frame header is passed on along with its
/// payload. The headers of the fast path's own frames never are, whether or not
/// the frame makes sense.
pub open spec fn is_foreign(hdr: Seq<u8>) -> bool {
    hdr.len() <= 3 || hdr[3] != FC_SYNC_FRAME_TYPE && hdr[3] != DT_SYNC_FRAME_TYPE
}

/// Whether a frame header is that of an update without a payload, which ends
/// along with it.
pub open spec fn is_empty_update(hdr: Seq<u8>) -> bool {
    hdr[3] == DT_SYNC_FRAME_TYPE && wire::be24_value(hdr) == 0
}

/// A reader in a frame header that has just seen its last byte.
pub open spec fn end_header(p: Parse, hdr: Seq<u8>) -> Parse {
    Parse {
        phase: phase_after_header(hdr),
        out: if is_foreign(hdr) {
            p.out + hdr
        } else {
            p.out
        },
        blocks: if is_empty_update(hdr) {
            p.blocks.push(Seq::empty())
        } else {
            p.blocks
        },
        ..p
    }
}

/// A reader that has just seen the last byte of the update `block`.
pub open spec fn end_sync(p: Parse, block: Seq<u8>) -> Parse {
    Parse { phase: header_phase(), blocks: p.blocks.push(block), ..p }
}

/// What the byte `b` does to a reader.
pub open spec fn advance(p: Parse, b: u8) -> Parse {
    match p.phase {
        Phase::Preface { matched } => Parse {
            phase: if b != PREFACE@[matched as int] {
                Phase::Blind { http2: false }
            } else if matched + 1 == PREFACE_LEN {
                header_phase()
            } else {
                Phase::Preface { matched: matched + 1 }
            },
            out: p.out.push(b),
            ..p
        },
        Phase::Header { got } => if got.len() + 1 < FRAME_HEADER_LEN {
            Parse { phase: Phase::Header { got: got.push(b) }, ..p }
        } else {
            end_header(p, got.push(b))
        },
        Phase::Payload { remaining } => Parse {
            phase: if remaining <= 1 {
                header_phase()
            } else {
                Phase::Payload { remaining: (remaining - 1) as nat }
            },
            out: p.out.push(b),
            ..p
        },
        Phase::Sync { block, remaining } => if remaining <= 1 {
            end_sync(p, block.push(b))
        } else {
            Parse {
                phase: Phase::Sync { block: block.push(b), remaining: (remaining - 1) as nat },
                ..p
            }
        },
        Phase::Flow { got } => if got.len() + 1 < FC_SYNC_BODY_LEN {
            Parse { phase: Phase::Flow { got: got.push(b) }, ..p }
        } else {
            Parse {
                phase: header_phase(),
                sent: wire::wrapping_sum(p.sent, wire::be32_value(got.push(b)) as u32),
                ..p
            }
        },
        Phase::Blind { .. } => Parse { out: p.out.push(b), ..p },
    }
}

/// What the end of the stream does to a reader: there will be no more of a frame
/// header that has been cut short, so what there is of it is passed on, unless it
/// is known to be that of one of the fast path's own frames.
pub open spec fn finish(p: Parse) -> Parse {
    match p.phase {
        Phase::Header { got } => if got.len() > 0 && is_foreign(got) {
            Parse { phase: Phase::Blind { http2: true }, out: p.out + got, ..p }
        } else {
            p
        },
        _ => p,
    }
}

/// What `input` does to a reader.
pub open spec fn parse(p: Parse, input: Seq<u8>) -> Parse
    decreases input.len(),
{
    if input.len() == 0 {
        p
    } else {
        advance(parse(p, input.drop_last()), input.last())
    }
}

/// A reader that stops at an update, along with the bytes it has received and
/// not looked at yet.
#[verifier::ext_equal]
pub struct Scan {
    /// What has been made of the bytes looked at. Its output and its updates are
    /// those that have not been handed out yet.
    pub parse: Parse,
    /// The bytes received behind an update.
    pub hold: Seq<u8>,
}

impl Scan {
    /// Whether an update is waiting to be taken.
    pub open spec fn pending(self) -> bool {
        self.parse.blocks.len() > 0
    }

    /// What the reader will have made of all the bytes it has received once
    /// every update has been taken.
    pub open spec fn eventual(self) -> Parse {
        parse(self.parse, self.hold)
    }
}

/// What the byte `b` does to a reader that stops at an update: nothing but to
/// wait, where it is behind one.
pub open spec fn step(s: Scan, b: u8) -> Scan {
    if s.pending() {
        Scan { hold: s.hold.push(b), ..s }
    } else {
        Scan { parse: advance(s.parse, b), ..s }
    }
}

/// What `input` does to a reader that stops at an update.
pub open spec fn scan(s: Scan, input: Seq<u8>) -> Scan
    decreases input.len(),
{
    if input.len() == 0 {
        s
    } else {
        step(scan(s, input.drop_last()), input.last())
    }
}

/// A reader that goes on with the bytes it has withheld.
pub open spec fn resume(s: Scan) -> Scan {
    scan(Scan { hold: Seq::empty(), ..s }, s.hold)
}

/// What a reader of a connection has to do next.
#[verifier::ext_equal]
pub enum Step {
    /// Hand these bytes to whoever is reading the connection.
    Deliver(Seq<u8>),
    /// Wait for the pending update to be taken.
    Wait,
    /// Read more bytes off the socket.
    Fetch,
    /// Report the end of the connection.
    Eof,
}

/// Hands out as much of what may be passed on as there is `room` for.
pub open spec fn deliver(s: Scan, room: nat) -> (Scan, Step) {
    let n = if room < s.parse.out.len() {
        room
    } else {
        s.parse.out.len()
    };
    (
        Scan { parse: Parse { out: s.parse.out.skip(n as int), ..s.parse }, ..s },
        Step::Deliver(s.parse.out.take(n as int)),
    )
}

/// What a reader that will not look at what it has withheld has to do next.
pub open spec fn poll_scanned(s: Scan, room: nat) -> (Scan, Step) {
    if s.parse.out.len() > 0 {
        deliver(s, room)
    } else if s.pending() {
        (s, Step::Wait)
    } else {
        (s, Step::Fetch)
    }
}

/// What a reader has to do next: hand out what it may, wait while an update is
/// pending, go on with what it has withheld, and only then read on.
pub open spec fn poll(s: Scan, room: nat) -> (Scan, Step) {
    if s.parse.out.len() == 0 && !s.pending() && s.hold.len() > 0 {
        poll_scanned(resume(s), room)
    } else {
        poll_scanned(s, room)
    }
}

/// What a reader has to do at the end of the stream: hand out all that is left,
/// and only then report it.
pub open spec fn poll_end(s: Scan, room: nat) -> (Scan, Step) {
    let (t, step) = poll(s, room);
    let u = Scan { parse: finish(t.parse), ..t };
    if step !is Fetch {
        (t, step)
    } else if u.parse.out.len() > 0 {
        deliver(u, room)
    } else {
        (u, Step::Eof)
    }
}

/// What a reader has to do once it has been handed `chunk`, of which an empty one is
/// the end of the stream.
pub open spec fn receive(s: Scan, chunk: Seq<u8>, room: nat) -> (Scan, Step) {
    if chunk.len() == 0 {
        poll_end(s, room)
    } else {
        poll(scan(s, chunk), room)
    }
}

/// What is known of the protocol once `chunk`, of which an empty one is the end of
/// the stream, has been taken in. It does not matter which of the two a connection
/// would have been that ended before it said anything.
pub open spec fn detect(s: Scan, chunk: Seq<u8>) -> (Scan, Option<crate::listener::Protocol>) {
    let t = scan(s, chunk);
    (
        t,
        match protocol(t.parse.phase) {
            Some(known) => Some(known),
            None => if chunk.len() == 0 {
                Some(crate::listener::Protocol::Http1)
            } else {
                None
            },
        },
    )
}

/// The protocol of a connection, as far as it is known: HTTP/2 if all of the
/// preface has been seen, HTTP/1.1 if it will not be.
pub open spec fn protocol(phase: Phase) -> Option<crate::listener::Protocol> {
    match phase {
        Phase::Preface { .. } => None,
        Phase::Blind { http2: false } => Some(crate::listener::Protocol::Http1),
        _ => Some(crate::listener::Protocol::Http2),
    }
}

/// Reading a stream in one go or in two makes no difference.
pub proof fn law_chunking(s: Scan, a: Seq<u8>, b: Seq<u8>)
    ensures
        scan(s, a + b) == scan(scan(s, a), b),
    decreases b.len(),
{
    if b.len() == 0 {
        assert(a + b =~= a);
    } else {
        assert((a + b).drop_last() =~= a + b.drop_last());
        law_chunking(s, a, b.drop_last());
    }
}

/// Nothing behind an update is looked at while the update is waiting to be
/// taken: all that a pending reader does with further bytes is to keep them.
pub proof fn law_barrier(s: Scan, input: Seq<u8>)
    requires
        s.pending(),
    ensures
        scan(s, input) == (Scan { hold: s.hold + input, ..s }),
    decreases input.len(),
{
    if input.len() == 0 {
        assert(s.hold + input =~= s.hold);
    } else {
        law_barrier(s, input.drop_last());
        assert((s.hold + input.drop_last()).push(input.last()) =~= s.hold + input);
    }
}

/// A scan goes on behind its first byte as one that starts there.
pub proof fn lemma_scan_first(s: Scan, input: Seq<u8>)
    requires
        input.len() > 0,
    ensures
        scan(s, input) == scan(step(s, input[0]), input.skip(1)),
{
    let first = seq![input[0]];
    assert(input =~= first + input.skip(1));
    law_chunking(s, first, input.skip(1));
    assert(first.drop_last() =~= Seq::<u8>::empty());
    assert(scan(s, first.drop_last()) == s);
}

/// Once the framing is lost, everything is passed on.
pub proof fn lemma_scan_blind(s: Scan, input: Seq<u8>)
    requires
        !s.pending(),
        s.parse.phase is Blind,
    ensures
        scan(s, input) == (Scan { parse: Parse { out: s.parse.out + input, ..s.parse }, ..s }),
    decreases input.len(),
{
    if input.len() == 0 {
        assert(s.parse.out + input =~= s.parse.out);
    } else {
        lemma_scan_blind(s, input.drop_last());
        assert((s.parse.out + input.drop_last()).push(input.last()) =~= s.parse.out + input);
    }
}

/// The phase of a reader that has seen `matched` bytes of the preface.
pub open spec fn preface_phase(matched: nat) -> Phase {
    if matched == PREFACE_LEN {
        header_phase()
    } else {
        Phase::Preface { matched }
    }
}

/// As long as the preface goes on as expected, it is passed on.
pub proof fn lemma_scan_preface(s: Scan, input: Seq<u8>, matched: nat)
    requires
        !s.pending(),
        s.parse.phase == (Phase::Preface { matched }),
        matched < PREFACE_LEN,
        matched + input.len() <= PREFACE_LEN,
        input == PREFACE@.subrange(matched as int, (matched + input.len()) as int),
    ensures
        scan(s, input) == (Scan {
            parse: Parse {
                phase: preface_phase(matched + input.len()),
                out: s.parse.out + input,
                ..s.parse
            },
            ..s
        }),
    decreases input.len(),
{
    if input.len() == 0 {
        assert(s.parse.out + input =~= s.parse.out);
    } else {
        let head = input.drop_last();
        assert(head =~= PREFACE@.subrange(matched as int, (matched + head.len()) as int));
        lemma_scan_preface(s, head, matched);
        assert(input.last() == PREFACE@[(matched + head.len()) as int]);
        assert((s.parse.out + head).push(input.last()) =~= s.parse.out + input);
    }
}

/// A connection that diverges from the preface is passed on whole.
pub proof fn lemma_scan_diverged(s: Scan, input: Seq<u8>, matched: nat, at: nat)
    requires
        !s.pending(),
        s.parse.phase == (Phase::Preface { matched }),
        at < input.len(),
        matched + at < PREFACE_LEN,
        input.take(at as int) == PREFACE@.subrange(matched as int, (matched + at) as int),
        input[at as int] != PREFACE@[(matched + at) as int],
    ensures
        scan(s, input) == (Scan {
            parse: Parse {
                phase: Phase::Blind { http2: false },
                out: s.parse.out + input,
                ..s.parse
            },
            ..s
        }),
{
    let head = input.take(at as int);
    let tail = input.skip(at as int);
    assert(input =~= head + tail);
    law_chunking(s, head, tail);
    lemma_scan_preface(s, head, matched);
    let s1 = scan(s, head);
    lemma_scan_first(s1, tail);
    let s2 = step(s1, tail[0]);
    lemma_scan_blind(s2, tail.skip(1));
    assert((s.parse.out + head).push(tail[0]) + tail.skip(1) =~= s.parse.out + input);
}

/// The bytes of a frame header are collected until there are enough of them.
pub proof fn lemma_scan_header(s: Scan, input: Seq<u8>, got: Seq<u8>)
    requires
        !s.pending(),
        s.parse.phase == (Phase::Header { got }),
        got.len() < FRAME_HEADER_LEN,
        got.len() + input.len() <= FRAME_HEADER_LEN,
    ensures
        scan(s, input) == (Scan {
            parse: if got.len() + input.len() == FRAME_HEADER_LEN {
                end_header(s.parse, got + input)
            } else {
                Parse { phase: Phase::Header { got: got + input }, ..s.parse }
            },
            ..s
        }),
    decreases input.len(),
{
    if input.len() == 0 {
        assert(got + input =~= got);
    } else {
        lemma_scan_header(s, input.drop_last(), got);
        assert((got + input.drop_last()).push(input.last()) =~= got + input);
    }
}

/// The payload of a foreign frame is passed on.
pub proof fn lemma_scan_payload(s: Scan, input: Seq<u8>, remaining: nat)
    requires
        !s.pending(),
        s.parse.phase == (Phase::Payload { remaining }),
        0 < input.len() <= remaining,
    ensures
        scan(s, input) == (Scan {
            parse: Parse {
                phase: payload_phase((remaining - input.len()) as nat),
                out: s.parse.out + input,
                ..s.parse
            },
            ..s
        }),
    decreases input.len(),
{
    let head = input.drop_last();
    if head.len() == 0 {
        assert(scan(s, head) == s);
        assert(s.parse.out.push(input.last()) =~= s.parse.out + input);
    } else {
        lemma_scan_payload(s, head, remaining);
        assert((s.parse.out + head).push(input.last()) =~= s.parse.out + input);
    }
}

/// The bytes of a report are collected until there are enough of them.
pub proof fn lemma_scan_flow(s: Scan, input: Seq<u8>, got: Seq<u8>)
    requires
        !s.pending(),
        s.parse.phase == (Phase::Flow { got }),
        got.len() < FC_SYNC_BODY_LEN,
        got.len() + input.len() <= FC_SYNC_BODY_LEN,
    ensures
        scan(s, input) == (Scan {
            parse: if got.len() + input.len() == FC_SYNC_BODY_LEN {
                Parse {
                    phase: header_phase(),
                    sent: wire::wrapping_sum(s.parse.sent, wire::be32_value(got + input) as u32),
                    ..s.parse
                }
            } else {
                Parse { phase: Phase::Flow { got: got + input }, ..s.parse }
            },
            ..s
        }),
    decreases input.len(),
{
    if input.len() == 0 {
        assert(got + input =~= got);
    } else {
        lemma_scan_flow(s, input.drop_last(), got);
        assert((got + input.drop_last()).push(input.last()) =~= got + input);
    }
}

/// The payload of an update is collected short of its end.
pub proof fn lemma_scan_sync(s: Scan, input: Seq<u8>, block: Seq<u8>, remaining: nat)
    requires
        !s.pending(),
        s.parse.phase == (Phase::Sync { block, remaining }),
        input.len() < remaining,
    ensures
        scan(s, input) == (Scan {
            parse: Parse {
                phase: Phase::Sync {
                    block: block + input,
                    remaining: (remaining - input.len()) as nat,
                },
                ..s.parse
            },
            ..s
        }),
    decreases input.len(),
{
    if input.len() == 0 {
        assert(block + input =~= block);
    } else {
        lemma_scan_sync(s, input.drop_last(), block, remaining);
        assert((block + input.drop_last()).push(input.last()) =~= block + input);
    }
}

/// A complete update is handed over, and everything behind it is withheld.
pub proof fn lemma_scan_sync_end(s: Scan, input: Seq<u8>, block: Seq<u8>, remaining: nat)
    requires
        !s.pending(),
        s.parse.phase == (Phase::Sync { block, remaining }),
        0 < remaining <= input.len(),
    ensures
        scan(s, input) == (Scan {
            parse: end_sync(s.parse, block + input.take(remaining as int)),
            hold: s.hold + input.skip(remaining as int),
        }),
{
    let head = input.take(remaining - 1);
    let rest = input.skip(remaining - 1);
    assert(input =~= head + rest);
    law_chunking(s, head, rest);
    lemma_scan_sync(s, head, block, remaining);
    let s1 = scan(s, head);
    lemma_scan_first(s1, rest);
    let s2 = step(s1, rest[0]);
    assert((block + head).push(rest[0]) =~= block + input.take(remaining as int));
    law_barrier(s2, rest.skip(1));
    assert(rest.skip(1) =~= input.skip(remaining as int));
}

} // verus!

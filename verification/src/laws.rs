//! What holds of a connection as a whole, however its bytes arrive and whenever
//! its reader gets around to them.

use vstd::prelude::*;

use crate::frame;
use crate::frame::Frame;
use crate::framing;
use crate::framing::{
    Parse, Phase, Scan, DT_SYNC_FRAME_TYPE, FC_SYNC_BODY_LEN, FC_SYNC_FRAME_TYPE, FRAME_HEADER_LEN,
    MAX_SYNC_FRAME, PREFACE, PREFACE_LEN,
};
use crate::listener::Protocol;
use crate::wire;

verus! {

/// What a reader that has already given away `out`, `blocks` and `sent` has made
/// of a stream.
pub open spec fn behind(out: Seq<u8>, blocks: Seq<Seq<u8>>, sent: u32, p: Parse) -> Parse {
    Parse {
        phase: p.phase,
        out: out + p.out,
        blocks: blocks + p.blocks,
        sent: wire::wrapping_sum(sent, p.sent),
    }
}

/// A connection along with everything that has ever gone in and come out of it.
pub struct History {
    pub scan: Scan,
    /// The bytes read off the socket.
    pub received: Seq<u8>,
    /// The bytes handed to the reader.
    pub delivered: Seq<u8>,
    /// The updates taken off the handle.
    pub taken: Seq<Seq<u8>>,
    /// The counts taken off the handle, added up and wrapped around at 32 bits.
    pub credited: u32,
    /// Whether the socket has been read to its end.
    pub ended: bool,
}

/// Something that happens on a connection.
pub enum Event {
    /// A chunk is read off the socket.
    Receive(Seq<u8>),
    /// The end of what is read off the socket is reached.
    End,
    /// What has been withheld is looked at.
    Resume,
    /// This many bytes are handed to the reader.
    Deliver(nat),
    /// The updates are taken off their handle.
    TakeUpdates,
    /// The count is taken off its handle.
    TakeSent,
}

/// A connection that nothing has happened on yet.
pub open spec fn opened() -> History {
    History {
        scan: Scan { parse: framing::fresh(), hold: Seq::empty() },
        received: Seq::empty(),
        delivered: Seq::empty(),
        taken: Seq::empty(),
        credited: 0,
        ended: false,
    }
}

impl Event {
    /// Whether this may happen: no more bytes are handed out than there are, none
    /// are read while there are withheld ones that may be looked at or behind the
    /// end, and the end is not reached while any are withheld.
    pub open spec fn allowed(self, h: History) -> bool {
        match self {
            Event::Receive(_) => !h.ended && (h.scan.pending() || h.scan.hold.len() == 0),
            Event::End => !h.scan.pending() && h.scan.hold.len() == 0,
            Event::Deliver(n) => n <= h.scan.parse.out.len(),
            _ => true,
        }
    }

    /// What this leads to.
    pub open spec fn apply(self, h: History) -> History {
        let p = h.scan.parse;
        match self {
            Event::Receive(chunk) => History {
                scan: framing::scan(h.scan, chunk),
                received: h.received + chunk,
                ..h
            },
            Event::End => History {
                scan: Scan { parse: framing::finish(p), ..h.scan },
                ended: true,
                ..h
            },
            Event::Resume => History { scan: framing::resume(h.scan), ..h },
            Event::Deliver(n) => History {
                scan: framing::deliver(h.scan, n).0,
                delivered: h.delivered + p.out.take(n as int),
                ..h
            },
            Event::TakeUpdates => History {
                scan: Scan { parse: Parse { blocks: Seq::empty(), ..p }, ..h.scan },
                taken: h.taken + p.blocks,
                ..h
            },
            Event::TakeSent => History {
                scan: Scan { parse: Parse { sent: 0, ..p }, ..h.scan },
                credited: wire::wrapping_sum(h.credited, p.sent),
                ..h
            },
        }
    }
}

/// Whether `events` may happen one after the other.
pub open spec fn all_allowed(events: Seq<Event>) -> bool
    decreases events.len(),
{
    events.len() == 0 || all_allowed(events.drop_last()) && events.last().allowed(
        replay(events.drop_last()),
    )
}

/// The connection that `events` happened on, one after the other.
pub open spec fn replay(events: Seq<Event>) -> History
    decreases events.len(),
{
    if events.len() == 0 {
        opened()
    } else {
        events.last().apply(replay(events.drop_last()))
    }
}

impl History {
    /// What the bytes `received` of the stream hold, which may have ended.
    pub open spec fn meaning(self, received: Seq<u8>) -> Parse {
        let p = framing::parse(framing::fresh(), received);
        if self.ended {
            framing::finish(p)
        } else {
            p
        }
    }

    /// Nothing is lost, added or put out of order: what has been handed out and
    /// what is still to come are together what the stream holds.
    pub open spec fn faithful(self) -> bool {
        &&& self.ended ==> self.scan.hold.len() == 0
        &&& self.meaning(self.received) == behind(
            self.delivered,
            self.taken,
            self.credited,
            self.scan.eventual(),
        )
    }

    /// The bytes that have been looked at.
    pub open spec fn looked_at(self) -> Seq<u8> {
        self.received.take(self.received.len() - self.scan.hold.len())
    }

    /// The bytes that have not been looked at are the last ones received, and
    /// nothing has been made of them.
    pub open spec fn in_step(self) -> bool {
        &&& self.scan.hold.len() <= self.received.len()
        &&& self.ended ==> self.scan.hold.len() == 0
        &&& self.received == self.looked_at() + self.scan.hold
        &&& self.meaning(self.looked_at()) == behind(
            self.delivered,
            self.taken,
            self.credited,
            self.scan.parse,
        )
    }
}

proof fn lemma_parse_concat(p: Parse, a: Seq<u8>, b: Seq<u8>)
    ensures
        framing::parse(p, a + b) == framing::parse(framing::parse(p, a), b),
    decreases b.len(),
{
    if b.len() == 0 {
        assert(a + b =~= a);
    } else {
        assert((a + b).drop_last() =~= a + b.drop_last());
        lemma_parse_concat(p, a, b.drop_last());
    }
}

proof fn lemma_advance_behind(out: Seq<u8>, blocks: Seq<Seq<u8>>, sent: u32, p: Parse, b: u8)
    ensures
        framing::advance(behind(out, blocks, sent, p), b) == behind(
            out,
            blocks,
            sent,
            framing::advance(p, b),
        ),
{
    let l = framing::advance(behind(out, blocks, sent, p), b);
    let r = behind(out, blocks, sent, framing::advance(p, b));
    assert(l.phase == r.phase);
    match p.phase {
        Phase::Header { got } => {
            assert((out + p.out) + got.push(b) =~= out + (p.out + got.push(b)));
            assert((blocks + p.blocks).push(Seq::empty()) =~= blocks + p.blocks.push(Seq::empty()));
        },
        Phase::Sync { block, remaining } => {
            assert((blocks + p.blocks).push(block.push(b)) =~= blocks + p.blocks.push(
                block.push(b),
            ));
        },
        _ => {
            assert((out + p.out).push(b) =~= out + p.out.push(b));
        },
    }
}

/// What a reader makes of a stream does not depend on what it has given away.
proof fn lemma_parse_behind(out: Seq<u8>, blocks: Seq<Seq<u8>>, sent: u32, p: Parse, x: Seq<u8>)
    ensures
        framing::parse(behind(out, blocks, sent, p), x) == behind(
            out,
            blocks,
            sent,
            framing::parse(p, x),
        ),
    decreases x.len(),
{
    if x.len() > 0 {
        lemma_parse_behind(out, blocks, sent, p, x.drop_last());
        lemma_advance_behind(out, blocks, sent, framing::parse(p, x.drop_last()), x.last());
    }
}

proof fn lemma_behind_behind(
    out: Seq<u8>,
    blocks: Seq<Seq<u8>>,
    sent: u32,
    out2: Seq<u8>,
    blocks2: Seq<Seq<u8>>,
    sent2: u32,
    p: Parse,
)
    ensures
        behind(out, blocks, sent, behind(out2, blocks2, sent2, p)) == behind(
            out + out2,
            blocks + blocks2,
            wire::wrapping_sum(sent, sent2),
            p,
        ),
{
    assert(behind(out, blocks, sent, behind(out2, blocks2, sent2, p)) =~= behind(
        out + out2,
        blocks + blocks2,
        wire::wrapping_sum(sent, sent2),
        p,
    ));
}

/// The end of a stream means the same whatever has been given away.
proof fn lemma_finish_behind(out: Seq<u8>, blocks: Seq<Seq<u8>>, sent: u32, p: Parse)
    ensures
        framing::finish(behind(out, blocks, sent, p)) == behind(
            out,
            blocks,
            sent,
            framing::finish(p),
        ),
        framing::finish(framing::finish(p)) == framing::finish(p),
{
    if let Phase::Header { got } = p.phase {
        assert((out + p.out) + got =~= out + (p.out + got));
    }
}

/// Received bytes are made of what they mean, sooner or later.
proof fn lemma_eventual(s: Scan, x: Seq<u8>)
    requires
        s.pending() || s.hold.len() == 0,
    ensures
        framing::scan(s, x).pending() || framing::scan(s, x).hold.len() == 0,
        framing::scan(s, x).eventual() == framing::parse(s.eventual(), x),
    decreases x.len(),
{
    if x.len() > 0 {
        let b = x.last();
        lemma_eventual(s, x.drop_last());
        let t = framing::scan(s, x.drop_last());
        let u = framing::step(t, b);
        if t.pending() {
            assert(u.hold.drop_last() =~= t.hold);
        } else {
            assert(t.hold =~= Seq::<u8>::empty());
            assert(t.eventual() == t.parse);
            assert(u.eventual() == u.parse);
        }
    }
}

/// Going on with the withheld bytes changes nothing about what they mean.
proof fn lemma_resume(s: Scan)
    ensures
        framing::resume(s).eventual() == s.eventual(),
        !s.pending() ==> framing::resume(s).pending() || framing::resume(s).hold.len() == 0,
{
    let t = Scan { hold: Seq::empty(), ..s };
    if s.pending() {
        framing::law_barrier(t, s.hold);
        assert(t.hold + s.hold =~= s.hold);
    } else {
        lemma_eventual(t, s.hold);
        assert(t.eventual() == s.parse);
    }
}

/// Giving away some of what a connection holds, by `given`, `blocks` and `sent`,
/// leaves it faithful.
proof fn lemma_give_away(h: History, t: Scan, given: Seq<u8>, blocks: Seq<Seq<u8>>, sent: u32)
    requires
        h.faithful(),
        h.scan.parse == behind(given, blocks, sent, t.parse),
        h.scan.hold == t.hold,
    ensures
        (History {
            scan: t,
            delivered: h.delivered + given,
            taken: h.taken + blocks,
            credited: wire::wrapping_sum(h.credited, sent),
            ..h
        }).faithful(),
{
    lemma_parse_behind(given, blocks, sent, t.parse, t.hold);
    lemma_behind_behind(h.delivered, h.taken, h.credited, given, blocks, sent, t.eventual());
}

proof fn lemma_receive(h: History, chunk: Seq<u8>)
    requires
        h.faithful(),
        (Event::Receive(chunk)).allowed(h),
    ensures
        (Event::Receive(chunk)).apply(h).faithful(),
{
    let e = h.scan.eventual();
    let t = framing::scan(h.scan, chunk);
    lemma_eventual(h.scan, chunk);
    lemma_parse_concat(framing::fresh(), h.received, chunk);
    lemma_parse_behind(h.delivered, h.taken, h.credited, e, chunk);
    assert(framing::parse(framing::fresh(), h.received + chunk) == behind(
        h.delivered,
        h.taken,
        h.credited,
        t.eventual(),
    ));
}

/// Reaching the end of the stream leaves a connection faithful and in step.
proof fn lemma_end(h: History)
    requires
        Event::End.allowed(h),
    ensures
        h.faithful() ==> Event::End.apply(h).faithful(),
        h.in_step() ==> Event::End.apply(h).in_step(),
{
    let after = Event::End.apply(h);
    let p = framing::parse(framing::fresh(), h.received);
    assert(h.scan.eventual() == h.scan.parse);
    assert(after.scan.eventual() == after.scan.parse);
    assert(h.looked_at() =~= h.received);
    assert(after.looked_at() =~= after.received);
    lemma_finish_behind(h.delivered, h.taken, h.credited, h.scan.parse);
    lemma_finish_behind(h.delivered, h.taken, h.credited, p);
}

proof fn lemma_split_deliver(h: History, n: nat)
    requires
        n <= h.scan.parse.out.len(),
    ensures
        ({
            let given = h.scan.parse.out.take(n as int);
            let none = Seq::<Seq<u8>>::empty();
            let after = (Event::Deliver(n)).apply(h);
            &&& h.scan.parse == behind(given, none, 0, after.scan.parse)
            &&& after == (History {
                scan: after.scan,
                delivered: h.delivered + given,
                taken: h.taken + none,
                credited: wire::wrapping_sum(h.credited, 0),
                ..h
            })
        }),
{
    let p = h.scan.parse;
    let t = (Event::Deliver(n)).apply(h).scan;
    let none = Seq::<Seq<u8>>::empty();
    assert(p.out.take(n as int) + t.parse.out =~= p.out);
    assert(none + p.blocks =~= p.blocks);
    assert(h.taken + none =~= h.taken);
    assert(wire::wrapping_sum(0, p.sent) == p.sent);
    assert(wire::wrapping_sum(h.credited, 0) == h.credited);
}

proof fn lemma_split_updates(h: History)
    ensures
        ({
            let none = Seq::<u8>::empty();
            let after = Event::TakeUpdates.apply(h);
            &&& h.scan.parse == behind(none, h.scan.parse.blocks, 0, after.scan.parse)
            &&& after == (History {
                scan: after.scan,
                delivered: h.delivered + none,
                taken: h.taken + h.scan.parse.blocks,
                credited: wire::wrapping_sum(h.credited, 0),
                ..h
            })
        }),
{
    let p = h.scan.parse;
    let t = Event::TakeUpdates.apply(h).scan;
    let none = Seq::<u8>::empty();
    assert(none + p.out =~= p.out);
    assert(p.blocks + t.parse.blocks =~= p.blocks);
    assert(h.delivered + none =~= h.delivered);
    assert(wire::wrapping_sum(0, p.sent) == p.sent);
    assert(wire::wrapping_sum(h.credited, 0) == h.credited);
}

proof fn lemma_split_sent(h: History)
    ensures
        ({
            let no_bytes = Seq::<u8>::empty();
            let no_blocks = Seq::<Seq<u8>>::empty();
            let after = Event::TakeSent.apply(h);
            &&& h.scan.parse == behind(no_bytes, no_blocks, h.scan.parse.sent, after.scan.parse)
            &&& after == (History {
                scan: after.scan,
                delivered: h.delivered + no_bytes,
                taken: h.taken + no_blocks,
                credited: wire::wrapping_sum(h.credited, h.scan.parse.sent),
                ..h
            })
        }),
{
    let p = h.scan.parse;
    let no_bytes = Seq::<u8>::empty();
    let no_blocks = Seq::<Seq<u8>>::empty();
    assert(no_bytes + p.out =~= p.out);
    assert(no_blocks + p.blocks =~= p.blocks);
    assert(h.delivered + no_bytes =~= h.delivered);
    assert(h.taken + no_blocks =~= h.taken);
    assert(wire::wrapping_sum(p.sent, 0) == p.sent);
}

/// Whatever happens on a connection, and in whatever order, what is handed out
/// is what the stream holds: nothing is lost, nothing is added, and nothing
/// changes places.
pub proof fn law_faithful(h: History, event: Event)
    requires
        h.faithful(),
        event.allowed(h),
    ensures
        event.apply(h).faithful(),
{
    let p = h.scan.parse;
    let t = event.apply(h).scan;
    let no_bytes = Seq::<u8>::empty();
    let no_blocks = Seq::<Seq<u8>>::empty();
    match event {
        Event::Receive(chunk) => {
            lemma_receive(h, chunk);
        },
        Event::End => {
            lemma_end(h);
        },
        Event::Resume => {
            lemma_resume(h.scan);
        },
        Event::Deliver(n) => {
            lemma_split_deliver(h, n);
            lemma_give_away(h, t, p.out.take(n as int), no_blocks, 0);
        },
        Event::TakeUpdates => {
            lemma_split_updates(h);
            lemma_give_away(h, t, no_bytes, p.blocks, 0);
        },
        Event::TakeSent => {
            lemma_split_sent(h);
            lemma_give_away(h, t, no_bytes, no_blocks, p.sent);
        },
    }
}

/// A reader that withholds nothing looks at the bytes it receives up to an
/// update, and withholds the rest.
proof fn lemma_scan_split(s: Scan, x: Seq<u8>)
    requires
        !s.pending(),
        s.hold.len() == 0,
    ensures
        ({
            let t = framing::scan(s, x);
            let k = x.len() - t.hold.len();
            &&& 0 <= k <= x.len()
            &&& t.hold == x.skip(k)
            &&& t.pending() || t.hold.len() == 0
            &&& t.parse == framing::parse(s.parse, x.take(k))
        }),
    decreases x.len(),
{
    if x.len() == 0 {
        assert(s.hold =~= x.skip(0));
        assert(x.take(0) =~= x);
    } else {
        let y = x.drop_last();
        let b = x.last();
        lemma_scan_split(s, y);
        let t = framing::scan(s, y);
        let k = y.len() - t.hold.len();
        let u = framing::step(t, b);
        if t.pending() {
            assert(x.take(k) =~= y.take(k));
            assert(t.hold.push(b) =~= x.skip(k));
        } else {
            assert(y.take(k) =~= y);
            assert(x.take(x.len() as int) =~= x);
            assert(u.hold =~= x.skip(x.len() as int));
        }
    }
}

/// Looking at the bytes `x`, which are all that has not been looked at, keeps a
/// connection in step.
proof fn lemma_look_at(h: History, front: Seq<u8>, x: Seq<u8>)
    requires
        !h.scan.pending(),
        h.received == front + x,
        h.ended ==> x.len() == 0,
        h.meaning(front) == behind(h.delivered, h.taken, h.credited, h.scan.parse),
    ensures
        (History {
            scan: framing::scan(Scan { hold: Seq::empty(), ..h.scan }, x),
            ..h
        }).in_step(),
{
    let s = Scan { hold: Seq::empty(), ..h.scan };
    let t = framing::scan(s, x);
    let k = x.len() - t.hold.len();
    let head = x.take(k);
    let after = History { scan: t, ..h };
    lemma_scan_split(s, x);
    assert(after.looked_at() =~= front + head);
    assert(h.received =~= after.looked_at() + t.hold);
    lemma_parse_concat(framing::fresh(), front, head);
    lemma_parse_behind(h.delivered, h.taken, h.credited, s.parse, head);
    if h.ended {
        assert(front + head =~= front);
        assert(framing::parse(s.parse, head) == s.parse);
    }
}

proof fn lemma_in_step_receive(h: History, chunk: Seq<u8>)
    requires
        h.in_step(),
        (Event::Receive(chunk)).allowed(h),
    ensures
        (Event::Receive(chunk)).apply(h).in_step(),
{
    let after = (Event::Receive(chunk)).apply(h);
    if h.scan.pending() {
        framing::law_barrier(h.scan, chunk);
        assert(after.looked_at() =~= h.looked_at());
        assert(after.received =~= after.looked_at() + after.scan.hold);
    } else {
        assert(h.looked_at() =~= h.received);
        assert(h.scan.hold =~= Seq::<u8>::empty());
        lemma_look_at(History { received: after.received, ..h }, h.received, chunk);
    }
}

proof fn lemma_in_step_resume(h: History)
    requires
        h.in_step(),
    ensures
        Event::Resume.apply(h).in_step(),
{
    let none = Seq::<u8>::empty();
    if h.scan.pending() {
        framing::law_barrier(Scan { hold: none, ..h.scan }, h.scan.hold);
        assert(none + h.scan.hold =~= h.scan.hold);
    } else {
        lemma_look_at(h, h.looked_at(), h.scan.hold);
    }
}

/// Giving away some of what a connection holds, by `given`, `blocks` and `sent`,
/// leaves it in step.
proof fn lemma_in_step_give_away(
    h: History,
    t: Scan,
    given: Seq<u8>,
    blocks: Seq<Seq<u8>>,
    sent: u32,
)
    requires
        h.in_step(),
        h.scan.parse == behind(given, blocks, sent, t.parse),
        h.scan.hold == t.hold,
    ensures
        (History {
            scan: t,
            delivered: h.delivered + given,
            taken: h.taken + blocks,
            credited: wire::wrapping_sum(h.credited, sent),
            ..h
        }).in_step(),
{
    lemma_behind_behind(h.delivered, h.taken, h.credited, given, blocks, sent, t.parse);
}

/// An update keeps everything behind it back: whatever happens on a connection,
/// what has been handed out or may be is made of the bytes in front of the
/// withheld ones alone.
pub proof fn law_in_step(h: History, event: Event)
    requires
        h.in_step(),
        event.allowed(h),
    ensures
        event.apply(h).in_step(),
{
    let p = h.scan.parse;
    let t = event.apply(h).scan;
    let no_bytes = Seq::<u8>::empty();
    let no_blocks = Seq::<Seq<u8>>::empty();
    match event {
        Event::Receive(chunk) => {
            lemma_in_step_receive(h, chunk);
        },
        Event::End => {
            lemma_end(h);
        },
        Event::Resume => {
            lemma_in_step_resume(h);
        },
        Event::Deliver(n) => {
            lemma_split_deliver(h, n);
            lemma_in_step_give_away(h, t, p.out.take(n as int), no_blocks, 0);
        },
        Event::TakeUpdates => {
            lemma_split_updates(h);
            lemma_in_step_give_away(h, t, no_bytes, p.blocks, 0);
        },
        Event::TakeSent => {
            lemma_split_sent(h);
            lemma_in_step_give_away(h, t, no_bytes, no_blocks, p.sent);
        },
    }
}

/// Every connection is faithful and in step, whatever has happened on it.
pub proof fn law_history(events: Seq<Event>)
    requires
        all_allowed(events),
    ensures
        replay(events).faithful(),
        replay(events).in_step(),
    decreases events.len(),
{
    let h = opened();
    if events.len() == 0 {
        assert(h.received.take(0) =~= h.received);
        assert(h.looked_at() + h.scan.hold =~= h.received);
        assert(framing::parse(framing::fresh(), h.received) == framing::fresh());
        assert(h.scan.eventual() == framing::fresh());
        assert(behind(h.delivered, h.taken, h.credited, framing::fresh()) =~= framing::fresh());
    } else {
        law_history(events.drop_last());
        law_faithful(replay(events.drop_last()), events.last());
        law_in_step(replay(events.drop_last()), events.last());
    }
}

/// Whether a reader with an update waiting has stopped right behind it.
pub open spec fn stopped(s: Scan) -> bool {
    s.pending() ==> s.parse.blocks.len() == 1 && s.parse.phase == framing::header_phase()
}

proof fn lemma_stops(s: Scan, input: Seq<u8>)
    requires
        stopped(s),
    ensures
        stopped(framing::scan(s, input)),
    decreases input.len(),
{
    if input.len() > 0 {
        lemma_stops(s, input.drop_last());
    }
}

/// A connection stops right behind every single update. While one is waiting, the
/// last thing that has been looked at is the end of that update, so no byte of the
/// request it belongs to has been handed out.
pub proof fn law_stops_at_update(events: Seq<Event>)
    ensures
        stopped(replay(events).scan),
    decreases events.len(),
{
    if events.len() > 0 {
        let h = replay(events.drop_last());
        law_stops_at_update(events.drop_last());
        match events.last() {
            Event::Receive(chunk) => {
                lemma_stops(h.scan, chunk);
            },
            Event::Resume => {
                lemma_stops(Scan { hold: Seq::empty(), ..h.scan }, h.scan.hold);
            },
            _ => {},
        }
    }
}

/// Whether what a reader has withheld starts at the start of a frame.
pub open spec fn aligned(s: Scan) -> bool {
    s.hold.len() > 0 ==> s.parse.phase == framing::header_phase()
}

proof fn lemma_withholds(s: Scan, input: Seq<u8>)
    requires
        stopped(s),
        s.pending() || s.hold.len() == 0,
    ensures
        ({
            let t = framing::scan(s, input);
            &&& stopped(t)
            &&& t.pending() || t.hold.len() == 0
            &&& t.hold.len() <= s.hold.len() + input.len()
        }),
    decreases input.len(),
{
    if input.len() > 0 {
        lemma_withholds(s, input.drop_last());
    }
}

/// What a connection withholds starts at the start of a frame, so it is never cut
/// off in the middle of one.
pub proof fn law_aligned(events: Seq<Event>)
    requires
        all_allowed(events),
    ensures
        aligned(replay(events).scan),
    decreases events.len(),
{
    if events.len() > 0 {
        let h = replay(events.drop_last());
        law_aligned(events.drop_last());
        law_stops_at_update(events.drop_last());
        match events.last() {
            Event::Receive(chunk) => {
                lemma_withholds(h.scan, chunk);
            },
            Event::Resume => {
                lemma_withholds(Scan { hold: Seq::empty(), ..h.scan }, h.scan.hold);
            },
            _ => {},
        }
    }
}

/// Once the update in front of it has been taken, what a connection withholds gets
/// shorter every time it is looked at, so it does not take forever to get through.
pub proof fn law_progress(s: Scan)
    requires
        aligned(s),
        !s.pending(),
        s.hold.len() > 0,
    ensures
        framing::resume(s).hold.len() < s.hold.len(),
        framing::resume(s).pending() || framing::resume(s).hold.len() == 0,
{
    let start = Scan { hold: Seq::empty(), ..s };
    framing::lemma_scan_first(start, s.hold);
    lemma_withholds(framing::step(start, s.hold[0]), s.hold.skip(1));
}

/// Once nothing is withheld, everything the stream holds has been handed out or
/// is ready to be.
pub proof fn law_nothing_withheld(h: History)
    requires
        h.faithful(),
        h.scan.hold.len() == 0,
    ensures
        ({
            let p = h.meaning(h.received);
            &&& h.delivered + h.scan.parse.out == p.out
            &&& h.taken + h.scan.parse.blocks == p.blocks
            &&& wire::wrapping_sum(h.credited, h.scan.parse.sent) == p.sent
        }),
{
    assert(h.scan.eventual() == h.scan.parse);
}

/// Whether a frame is one a client may send, or one the fast path may add.
pub open spec fn well_formed(f: Frame) -> bool {
    &&& f.stream.len() == 4
    &&& f.payload.len() < 0x100_0000
    &&& f.kind == FC_SYNC_FRAME_TYPE ==> f.payload.len() == FC_SYNC_BODY_LEN
    &&& f.kind == DT_SYNC_FRAME_TYPE ==> f.payload.len() <= MAX_SYNC_FRAME
}

/// Whether a frame is meant for the codec.
pub open spec fn foreign(f: Frame) -> bool {
    f.kind != FC_SYNC_FRAME_TYPE && f.kind != DT_SYNC_FRAME_TYPE
}

/// What a reader makes of a frame.
pub open spec fn after_frame(p: Parse, f: Frame) -> Parse {
    Parse {
        phase: framing::header_phase(),
        out: if foreign(f) {
            p.out + f.bytes()
        } else {
            p.out
        },
        blocks: if f.kind == DT_SYNC_FRAME_TYPE {
            p.blocks.push(f.payload)
        } else {
            p.blocks
        },
        sent: if f.kind == FC_SYNC_FRAME_TYPE {
            wire::wrapping_sum(p.sent, wire::be32_value(f.payload) as u32)
        } else {
            p.sent
        },
    }
}

/// The frames meant for the codec.
pub open spec fn foreign_frames(frames: Seq<Frame>) -> Seq<Frame> {
    frames.filter(|f: Frame| foreign(f))
}

/// The updates among `frames`.
pub open spec fn updates(frames: Seq<Frame>) -> Seq<Seq<u8>> {
    frames.filter(|f: Frame| f.kind == DT_SYNC_FRAME_TYPE).map_values(|f: Frame| f.payload)
}

/// The sum of the counts that `frames` report, wrapped around at 32 bits.
pub open spec fn reported(frames: Seq<Frame>) -> u32
    decreases frames.len(),
{
    if frames.len() == 0 {
        0
    } else if frames.last().kind == FC_SYNC_FRAME_TYPE {
        wire::wrapping_sum(
            reported(frames.drop_last()),
            wire::be32_value(frames.last().payload) as u32,
        )
    } else {
        reported(frames.drop_last())
    }
}

/// What a reader that stops at an update makes of a frame.
proof fn lemma_scan_frame(s: Scan, f: Frame)
    requires
        well_formed(f),
        !s.pending(),
        s.hold.len() == 0,
        s.parse.phase == framing::header_phase(),
    ensures
        framing::scan(s, f.bytes()) == (Scan { parse: after_frame(s.parse, f), ..s }),
{
    let p = s.parse;
    let hdr = f.header();
    let got = Seq::<u8>::empty();
    frame::lemma_header(f);
    framing::lemma_scan_header(s, hdr, got);
    assert(got + hdr =~= hdr);
    framing::law_chunking(s, hdr, f.payload);
    let t = framing::scan(s, hdr);
    let u = framing::scan(s, f.bytes());
    assert(u == framing::scan(t, f.payload));
    let len = f.payload.len();
    if f.kind == FC_SYNC_FRAME_TYPE {
        framing::lemma_scan_flow(t, f.payload, got);
        assert(got + f.payload =~= f.payload);
    } else if len == 0 {
        assert(u == t);
        assert(hdr + f.payload =~= hdr);
        assert(f.payload =~= got);
    } else if f.kind == DT_SYNC_FRAME_TYPE {
        framing::lemma_scan_sync_end(t, f.payload, got, len);
        assert(got + f.payload.take(len as int) =~= f.payload);
        assert(u.hold =~= s.hold);
    } else {
        framing::lemma_scan_payload(t, f.payload, len);
        assert((p.out + hdr) + f.payload =~= p.out + f.bytes());
    }
}

/// What a reader that has given nothing away makes of a frame.
proof fn lemma_frame_alone(p: Parse, f: Frame)
    requires
        well_formed(f),
        p.phase == framing::header_phase(),
        p.blocks.len() == 0,
    ensures
        framing::parse(p, f.bytes()) == after_frame(p, f),
{
    let s = Scan { parse: p, hold: Seq::empty() };
    lemma_scan_frame(s, f);
    lemma_eventual(s, f.bytes());
    assert(s.eventual() == p);
    assert(framing::scan(s, f.bytes()).eventual() == after_frame(p, f));
}

/// What a reader between two frames makes of the next one.
proof fn lemma_frame(p: Parse, f: Frame)
    requires
        well_formed(f),
        p.phase == framing::header_phase(),
    ensures
        framing::parse(p, f.bytes()) == after_frame(p, f),
{
    let r = Parse { blocks: Seq::empty(), ..p };
    let none = Seq::<u8>::empty();
    assert(behind(none, p.blocks, 0, r) =~= p);
    lemma_parse_behind(none, p.blocks, 0, r, f.bytes());
    lemma_frame_alone(r, f);
    assert(behind(none, p.blocks, 0, after_frame(r, f)) =~= after_frame(p, f));
}

proof fn lemma_filters(frames: Seq<Frame>)
    requires
        frames.len() > 0,
    ensures
        ({
            let front = frames.drop_last();
            let f = frames.last();
            &&& frame::concat(foreign_frames(frames)) == if foreign(f) {
                frame::concat(foreign_frames(front)) + f.bytes()
            } else {
                frame::concat(foreign_frames(front))
            }
            &&& updates(frames) == if f.kind == DT_SYNC_FRAME_TYPE {
                updates(front).push(f.payload)
            } else {
                updates(front)
            }
        }),
{
    reveal(Seq::filter);
    let front = frames.drop_last();
    let f = frames.last();
    if foreign(f) {
        let kept = foreign_frames(front);
        assert(foreign_frames(frames) == kept.push(f));
        assert(kept.push(f).drop_last() =~= kept);
    }
    if f.kind == DT_SYNC_FRAME_TYPE {
        assert(updates(frames) =~= updates(front).push(f.payload));
    }
}

proof fn lemma_frames(p: Parse, frames: Seq<Frame>)
    requires
        forall|i: int| 0 <= i < frames.len() ==> well_formed(#[trigger] frames[i]),
        p.phase == framing::header_phase(),
    ensures
        framing::parse(p, frame::concat(frames)) == (Parse {
            phase: framing::header_phase(),
            out: p.out + frame::concat(foreign_frames(frames)),
            blocks: p.blocks + updates(frames),
            sent: wire::wrapping_sum(p.sent, reported(frames)),
        }),
    decreases frames.len(),
{
    if frames.len() == 0 {
        reveal(Seq::filter);
        assert(p.out + frame::concat(foreign_frames(frames)) =~= p.out);
        assert(p.blocks + updates(frames) =~= p.blocks);
    } else {
        let front = frames.drop_last();
        let f = frames.last();
        let q = framing::parse(p, frame::concat(front));
        lemma_frames(p, front);
        lemma_parse_concat(p, frame::concat(front), f.bytes());
        lemma_frame(q, f);
        assert(front.push(f) =~= frames);
        lemma_after_frame(p, front, f, q);
    }
}

proof fn lemma_reported(front: Seq<Frame>, f: Frame, sent: u32)
    ensures
        wire::wrapping_sum(sent, reported(front.push(f))) == if f.kind == FC_SYNC_FRAME_TYPE {
            wire::wrapping_sum(
                wire::wrapping_sum(sent, reported(front)),
                wire::be32_value(f.payload) as u32,
            )
        } else {
            wire::wrapping_sum(sent, reported(front))
        },
{
    assert(front.push(f).drop_last() =~= front);
}

proof fn lemma_after_frame(p: Parse, front: Seq<Frame>, f: Frame, q: Parse)
    requires
        q == (Parse {
            phase: framing::header_phase(),
            out: p.out + frame::concat(foreign_frames(front)),
            blocks: p.blocks + updates(front),
            sent: wire::wrapping_sum(p.sent, reported(front)),
        }),
    ensures
        after_frame(q, f) == (Parse {
            phase: framing::header_phase(),
            out: p.out + frame::concat(foreign_frames(front.push(f))),
            blocks: p.blocks + updates(front.push(f)),
            sent: wire::wrapping_sum(p.sent, reported(front.push(f))),
        }),
{
    let frames = front.push(f);
    assert(frames.drop_last() =~= front);
    lemma_filters(frames);
    lemma_reported(front, f, p.sent);
    let kept = frame::concat(foreign_frames(front));
    assert((p.out + kept) + f.bytes() =~= p.out + (kept + f.bytes()));
    assert((p.blocks + updates(front)).push(f.payload) =~= p.blocks + updates(front).push(
        f.payload,
    ));
}

/// A stream of frames reaches the codec without the fast path's own, which are
/// reported through the handles in the order they came in.
pub proof fn law_frames(frames: Seq<Frame>)
    requires
        forall|i: int| 0 <= i < frames.len() ==> well_formed(#[trigger] frames[i]),
    ensures
        framing::parse(framing::fresh(), PREFACE@ + frame::concat(frames)) == (Parse {
            phase: framing::header_phase(),
            out: PREFACE@ + frame::concat(foreign_frames(frames)),
            blocks: updates(frames),
            sent: reported(frames),
        }),
{
    let none = Seq::<u8>::empty();
    let s = Scan { parse: framing::fresh(), hold: none };
    assert(PREFACE@ =~= PREFACE@.subrange(0, PREFACE_LEN as int));
    framing::lemma_scan_preface(s, PREFACE@, 0);
    lemma_eventual(s, PREFACE@);
    let t = framing::scan(s, PREFACE@);
    assert(s.eventual() == s.parse);
    assert(t.eventual() == t.parse);
    assert(none + PREFACE@ =~= PREFACE@);
    lemma_parse_concat(framing::fresh(), PREFACE@, frame::concat(frames));
    lemma_frames(t.parse, frames);
    assert(t.parse.blocks + updates(frames) =~= updates(frames));
}

/// Whether `hdr` is the header of one of the fast path's own frames that makes no
/// sense: a report of anything but four bytes, or an update of more than 65536.
pub open spec fn malformed(hdr: Seq<u8>) -> bool {
    let len = hdr[0] * 0x1_0000 + hdr[1] * 0x100 + hdr[2];
    hdr[3] == 0xFA && len != 4 || hdr[3] == 0xFB && len > 65536
}

/// An own frame that makes no sense is where filtering ends: its header is
/// dropped, and everything behind it is passed on untouched.
pub proof fn law_lost_framing(p: Parse, hdr: Seq<u8>, rest: Seq<u8>)
    requires
        p.phase == framing::header_phase(),
        hdr.len() == FRAME_HEADER_LEN,
        malformed(hdr),
    ensures
        framing::parse(p, hdr + rest) == (Parse {
            phase: Phase::Blind { http2: true },
            out: p.out + rest,
            ..p
        }),
        framing::finish(framing::parse(p, hdr + rest)) == framing::parse(p, hdr + rest),
{
    let none = Seq::<u8>::empty();
    let r = Parse { blocks: Seq::empty(), ..p };
    let s = Scan { parse: r, hold: none };
    assert(behind(none, p.blocks, 0, r) =~= p);
    lemma_parse_behind(none, p.blocks, 0, r, hdr + rest);
    framing::lemma_scan_header(s, hdr, none);
    assert(none + hdr =~= hdr);
    let t = framing::scan(s, hdr);
    framing::law_chunking(s, hdr, rest);
    framing::lemma_scan_blind(t, rest);
    lemma_eventual(s, hdr + rest);
    assert(s.eventual() == r);
    assert(framing::scan(t, rest).eventual() == framing::scan(t, rest).parse);
    assert(behind(none, p.blocks, 0, framing::scan(t, rest).parse) =~= Parse {
        phase: Phase::Blind { http2: true },
        out: p.out + rest,
        ..p
    });
}

/// Whether `input` differs from the preface where it can be compared with it.
pub open spec fn diverges(input: Seq<u8>) -> bool {
    exists|i: int| 0 <= i < input.len() && i < PREFACE_LEN && input[i] != #[trigger] PREFACE@[i]
}

proof fn lemma_first_divergence(input: Seq<u8>, i: int) -> (at: nat)
    requires
        0 <= i < input.len(),
        i < PREFACE_LEN,
        input[i] != PREFACE@[i],
    ensures
        at <= i,
        input.take(at as int) == PREFACE@.subrange(0, at as int),
        input[at as int] != PREFACE@[at as int],
    decreases i,
{
    if exists|j: int| 0 <= j < i && input[j] != #[trigger] PREFACE@[j] {
        let j = choose|j: int| 0 <= j < i && input[j] != #[trigger] PREFACE@[j];
        lemma_first_divergence(input, j)
    } else {
        assert forall|j: int| 0 <= j < i implies #[trigger] input[j] == PREFACE@[j] by {
            assert(!(input[j] != PREFACE@[j]));
        }
        assert(input.take(i) =~= PREFACE@.subrange(0, i));
        i as nat
    }
}

/// A connection that does not open with the preface is left alone: every byte
/// of it is passed on.
pub proof fn law_not_http2(input: Seq<u8>)
    requires
        diverges(input),
    ensures
        framing::scan(opened().scan, input) == (Scan {
            parse: Parse { phase: Phase::Blind { http2: false }, out: input, ..framing::fresh() },
            hold: Seq::empty(),
        }),
        framing::parse(framing::fresh(), input) == (Parse {
            phase: Phase::Blind { http2: false },
            out: input,
            ..framing::fresh()
        }),
{
    let s = opened().scan;
    let i = choose|i: int|
        0 <= i < input.len() && i < PREFACE_LEN && input[i] != #[trigger] PREFACE@[i];
    let at = lemma_first_divergence(input, i);
    framing::lemma_scan_diverged(s, input, 0, at);
    assert(s.parse.out + input =~= input);
    lemma_eventual(s, input);
    assert(s.eventual() == s.parse);
    assert(framing::scan(s, input).eventual() == framing::scan(s, input).parse);
}

proof fn lemma_stays_http2(s: Scan, input: Seq<u8>)
    requires
        framing::protocol(s.parse.phase) == Some(Protocol::Http2),
    ensures
        framing::protocol(framing::scan(s, input).parse.phase) == Some(Protocol::Http2),
    decreases input.len(),
{
    if input.len() > 0 {
        lemma_stays_http2(s, input.drop_last());
    }
}

/// The protocol of a connection is known as soon as its bytes are not just the
/// start of the preface. It is HTTP/1.1 if they diverge from the preface, and
/// HTTP/2 if they open with all of it, whatever is behind it.
pub proof fn law_protocol(input: Seq<u8>)
    ensures
        ({
            let phase = framing::scan(opened().scan, input).parse.phase;
            let protocol = framing::protocol(phase);
            &&& protocol is None <==> input.len() < PREFACE_LEN && !diverges(input)
            &&& diverges(input) ==> protocol == Some(Protocol::Http1)
            &&& input.len() >= PREFACE_LEN && !diverges(input) ==> protocol == Some(
                Protocol::Http2,
            )
        }),
{
    let s = opened().scan;
    if diverges(input) {
        law_not_http2(input);
    } else if input.len() < PREFACE_LEN {
        lemma_on_track(input);
        framing::lemma_scan_preface(s, input, 0);
    } else {
        let head = input.take(PREFACE_LEN as int);
        let rest = input.skip(PREFACE_LEN as int);
        lemma_on_track(input);
        assert(head =~= PREFACE@.subrange(0, PREFACE_LEN as int));
        assert(input =~= head + rest);
        framing::lemma_scan_preface(s, head, 0);
        framing::law_chunking(s, head, rest);
        lemma_stays_http2(framing::scan(s, head), rest);
    }
}

proof fn lemma_on_track(input: Seq<u8>)
    requires
        !diverges(input),
    ensures
        input.len() <= PREFACE_LEN ==> input == PREFACE@.subrange(0, input.len() as int),
        input.len() >= PREFACE_LEN ==> input.take(PREFACE_LEN as int) == PREFACE@,
{
    assert forall|i: int| 0 <= i < input.len() && i < PREFACE_LEN implies #[trigger] input[i]
        == PREFACE@[i] by {
        assert(!(input[i] != PREFACE@[i]));
    }
    if input.len() <= PREFACE_LEN {
        assert(input =~= PREFACE@.subrange(0, input.len() as int));
    }
    if input.len() >= PREFACE_LEN {
        assert(input.take(PREFACE_LEN as int) =~= PREFACE@);
    }
}

/// The connection that `h` becomes by serving a read with `room` for that many
/// bytes.
pub open spec fn served(h: History, room: nat) -> History {
    let (scan, step) = framing::poll(h.scan, room);
    History {
        scan,
        delivered: match step {
            framing::Step::Deliver(bytes) => h.delivered + bytes,
            _ => h.delivered,
        },
        ..h
    }
}

/// Serving a read keeps a connection faithful and in step, and it only asks for
/// more bytes once none are withheld.
pub proof fn law_read(h: History, room: nat)
    requires
        h.faithful(),
        h.in_step(),
    ensures
        served(h, room).faithful(),
        served(h, room).in_step(),
        framing::poll(h.scan, room).1 is Fetch ==> {
            let s = served(h, room).scan;
            !s.pending() && s.hold.len() == 0 && s.parse.out.len() == 0
        },
{
    let (scan, step) = framing::poll(h.scan, room);
    let resumed = if h.scan.parse.out.len() == 0 && !h.scan.pending() && h.scan.hold.len() > 0 {
        law_faithful(h, Event::Resume);
        law_in_step(h, Event::Resume);
        lemma_resume(h.scan);
        Event::Resume.apply(h)
    } else {
        h
    };
    let len = resumed.scan.parse.out.len();
    let n = if room < len {
        room
    } else {
        len
    };
    if len > 0 {
        law_faithful(resumed, Event::Deliver(n));
        law_in_step(resumed, Event::Deliver(n));
        assert(served(h, room) == (Event::Deliver(n)).apply(resumed));
    } else {
        assert(served(h, room) == resumed);
    }
}

/// The connection that `h` becomes by serving a read with `room` for that many
/// bytes when there is nothing more to be read off the socket.
pub open spec fn served_at_end(h: History, room: nat) -> History {
    let (scan, step) = framing::receive(h.scan, Seq::empty(), room);
    History {
        scan,
        delivered: match step {
            framing::Step::Deliver(bytes) => h.delivered + bytes,
            _ => h.delivered,
        },
        ended: h.ended || framing::poll(h.scan, room).1 is Fetch,
        ..h
    }
}

/// Serving a read at the end of the stream keeps a connection faithful and in
/// step. By the time the end is reported, everything that the stream holds has
/// been handed out, and no update is waiting.
pub proof fn law_end(h: History, room: nat)
    requires
        h.faithful(),
        h.in_step(),
    ensures
        served_at_end(h, room).faithful(),
        served_at_end(h, room).in_step(),
        framing::receive(h.scan, Seq::empty(), room).1 is Eof ==> {
            let after = served_at_end(h, room);
            let p = framing::finish(framing::parse(framing::fresh(), h.received));
            &&& after.delivered == p.out
            &&& after.taken == p.blocks
            &&& wire::wrapping_sum(after.credited, after.scan.parse.sent) == p.sent
            &&& !after.scan.pending()
            &&& after.scan.hold.len() == 0
        },
{
    let g = served(h, room);
    law_read(h, room);
    if framing::poll(h.scan, room).1 is Fetch {
        let e = Event::End.apply(g);
        law_faithful(g, Event::End);
        law_in_step(g, Event::End);
        let len = e.scan.parse.out.len();
        let n = if room < len {
            room
        } else {
            len
        };
        if len > 0 {
            law_faithful(e, Event::Deliver(n));
            law_in_step(e, Event::Deliver(n));
            assert(served_at_end(h, room) == (Event::Deliver(n)).apply(e));
        } else {
            assert(served_at_end(h, room) == e);
            law_nothing_withheld(e);
            assert(e.delivered + e.scan.parse.out =~= e.delivered);
            assert(e.taken + e.scan.parse.blocks =~= e.taken);
        }
    } else {
        assert(served_at_end(h, room) == g);
    }
}

/// What a reader that has given nothing away makes of the first `n` bytes of a
/// frame that nothing more comes of.
proof fn lemma_cut_alone(p: Parse, f: Frame, n: int)
    requires
        well_formed(f),
        0 <= n < f.bytes().len(),
        p.phase == framing::header_phase(),
        p.blocks.len() == 0,
    ensures
        ({
            let r = framing::parse(p, f.bytes().take(n));
            let q = framing::finish(r);
            &&& q.out == if foreign(f) || n <= 3 {
                p.out + f.bytes().take(n)
            } else {
                p.out
            }
            &&& q.blocks == p.blocks
            &&& q.sent == p.sent
            &&& r.out == if foreign(f) && n >= FRAME_HEADER_LEN {
                p.out + f.bytes().take(n)
            } else {
                p.out
            }
            &&& r.blocks == p.blocks
            &&& r.sent == p.sent
        }),
{
    let s = Scan { parse: p, hold: Seq::empty() };
    let hdr = f.header();
    let none = Seq::<u8>::empty();
    let x = f.bytes().take(n);
    frame::lemma_header(f);
    lemma_eventual(s, x);
    assert(s.eventual() == p);
    if n < FRAME_HEADER_LEN {
        assert(x =~= hdr.take(n));
        framing::lemma_scan_header(s, x, none);
        assert(none + x =~= x);
        if n == 0 {
            assert(p.out + x =~= p.out);
        }
    } else {
        let part = f.payload.take(n - FRAME_HEADER_LEN);
        let len = f.payload.len();
        assert(x =~= hdr + part);
        framing::lemma_scan_header(s, hdr, none);
        assert(none + hdr =~= hdr);
        framing::law_chunking(s, hdr, part);
        let t = framing::scan(s, hdr);
        if f.kind == FC_SYNC_FRAME_TYPE {
            framing::lemma_scan_flow(t, part, none);
        } else if f.kind == DT_SYNC_FRAME_TYPE {
            framing::lemma_scan_sync(t, part, none, len);
        } else if part.len() > 0 {
            framing::lemma_scan_payload(t, part, len);
            assert((p.out + hdr) + part =~= p.out + x);
        } else {
            assert(x =~= hdr);
            assert(framing::scan(t, part) == t);
        }
    }
    let u = framing::scan(s, x);
    assert(u.eventual() == u.parse);
}

/// The frame that a stream is in the middle of reaches the codec as it comes in, from
/// the end of its header on. None of an own frame does, and it is not reported before
/// it is complete.
pub proof fn law_partial_frame(frames: Seq<Frame>, f: Frame, n: int)
    requires
        forall|i: int| 0 <= i < frames.len() ==> well_formed(#[trigger] frames[i]),
        well_formed(f),
        0 <= n < f.bytes().len(),
    ensures
        ({
            let input = PREFACE@ + frame::concat(frames) + f.bytes().take(n);
            let p = framing::parse(framing::fresh(), input);
            let kept = PREFACE@ + frame::concat(foreign_frames(frames));
            &&& p.out == if foreign(f) && n >= 9 {
                kept + f.bytes().take(n)
            } else {
                kept
            }
            &&& p.blocks == updates(frames)
            &&& p.sent == reported(frames)
        }),
{
    let none = Seq::<u8>::empty();
    let front = PREFACE@ + frame::concat(frames);
    let x = f.bytes().take(n);
    let q = framing::parse(framing::fresh(), front);
    let r = Parse { blocks: Seq::empty(), ..q };
    law_frames(frames);
    lemma_parse_concat(framing::fresh(), front, x);
    assert(behind(none, q.blocks, 0, r) =~= q);
    lemma_parse_behind(none, q.blocks, 0, r, x);
    lemma_cut_alone(r, f, n);
    let end = framing::parse(r, x);
    assert(none + end.out =~= end.out);
    assert(q.blocks + end.blocks =~= q.blocks);
    assert(wire::wrapping_sum(0, end.sent) == end.sent);
}

/// A stream that is cut off inside a frame reaches the codec up to the very end:
/// what there is of the frame is passed on, unless it is known to be one of the
/// fast path's own.
pub proof fn law_cut_short(frames: Seq<Frame>, f: Frame, n: int)
    requires
        forall|i: int| 0 <= i < frames.len() ==> well_formed(#[trigger] frames[i]),
        well_formed(f),
        0 <= n < f.bytes().len(),
    ensures
        ({
            let input = PREFACE@ + frame::concat(frames) + f.bytes().take(n);
            let p = framing::finish(framing::parse(framing::fresh(), input));
            let kept = PREFACE@ + frame::concat(foreign_frames(frames));
            &&& p.out == if foreign(f) || n <= 3 {
                kept + f.bytes().take(n)
            } else {
                kept
            }
            &&& p.blocks == updates(frames)
            &&& p.sent == reported(frames)
        }),
{
    let none = Seq::<u8>::empty();
    let front = PREFACE@ + frame::concat(frames);
    let x = f.bytes().take(n);
    let q = framing::parse(framing::fresh(), front);
    let r = Parse { blocks: Seq::empty(), ..q };
    law_frames(frames);
    lemma_parse_concat(framing::fresh(), front, x);
    assert(behind(none, q.blocks, 0, r) =~= q);
    lemma_parse_behind(none, q.blocks, 0, r, x);
    lemma_finish_behind(none, q.blocks, 0, framing::parse(r, x));
    lemma_cut_alone(r, f, n);
    let end = framing::finish(framing::parse(r, x));
    assert(none + end.out =~= end.out);
    assert(q.blocks + end.blocks =~= q.blocks);
    assert(wire::wrapping_sum(0, end.sent) == end.sent);
}

/// A read with room for a byte never comes back empty handed: no bytes at all
/// stand for the end of the connection alone.
pub proof fn law_no_empty_read(s: Scan, room: nat)
    requires
        room > 0,
    ensures
        framing::poll(s, room).1 matches framing::Step::Deliver(bytes) ==> bytes.len() > 0,
        framing::receive(s, Seq::empty(), room).1 matches framing::Step::Deliver(bytes)
            ==> bytes.len() > 0,
{
}

/// A reader that does not take an update makes no further progress: once it has
/// what was in front of the update, all it is told is to wait.
pub proof fn law_update_stalls(s: Scan, room: nat)
    requires
        s.pending(),
        s.parse.out.len() == 0,
    ensures
        framing::poll(s, room) == (s, framing::Step::Wait),
{
}

/// The connection preface is the text that HTTP/2 has for it, and the fast path's own
/// frames are of the two types that it has taken for them.
pub proof fn law_constants()
    ensures
        PREFACE@ == Seq::new(
            24,
            |i: int| "PRI * HTTP/2.0\r\n\r\nSM\r\n\r\n"@[i] as u8,
        ),
        "PRI * HTTP/2.0\r\n\r\nSM\r\n\r\n"@.len() == 24,
        PREFACE_LEN == 24,
        FRAME_HEADER_LEN == 9,
        DT_SYNC_FRAME_TYPE == 0xFB,
        FC_SYNC_FRAME_TYPE == 0xFA,
        FC_SYNC_BODY_LEN == 4,
        MAX_SYNC_FRAME == 65536,
{
    reveal_strlit("PRI * HTTP/2.0\r\n\r\nSM\r\n\r\n");
    assert(PREFACE@ =~= Seq::new(24, |i: int| "PRI * HTTP/2.0\r\n\r\nSM\r\n\r\n"@[i] as u8));
}

/// Whether a reader is between two frames, with no update waiting and nothing withheld.
pub open spec fn between_frames(s: Scan) -> bool {
    &&& !s.pending()
    &&& s.hold.len() == 0
    &&& s.parse.phase == framing::header_phase()
}

/// A report of `n` bytes, the high byte first, adds `n` to what the flow handle holds,
/// and none of it is passed on.
pub proof fn law_report(s: Scan, flags: u8, stream: Seq<u8>, n: u32)
    requires
        between_frames(s),
        stream.len() == 4,
    ensures
        ({
            let count = seq![
                (n / 0x100_0000) as u8,
                (n / 0x1_0000 % 256) as u8,
                (n / 0x100 % 256) as u8,
                (n % 256) as u8,
            ];
            let t = framing::scan(s, seq![0u8, 0, 4, 0xFA, flags] + stream + count);
            &&& t.parse.sent == (s.parse.sent + n) % 0x1_0000_0000
            &&& t.parse.out == s.parse.out
            &&& t.parse.blocks == s.parse.blocks
            &&& between_frames(t)
        }),
{
    let count = seq![
        (n / 0x100_0000) as u8,
        (n / 0x1_0000 % 256) as u8,
        (n / 0x100 % 256) as u8,
        (n % 256) as u8,
    ];
    let f = Frame { kind: 0xFA, flags, stream, payload: count };
    assert(f.bytes() =~= seq![0u8, 0, 4, 0xFA, flags] + stream + count);
    lemma_scan_frame(s, f);
    wire::law_be32(n);
}

/// An update is handed over whole, behind those before it, and none of it is passed
/// on.
pub proof fn law_update(s: Scan, flags: u8, stream: Seq<u8>, block: Seq<u8>)
    requires
        between_frames(s),
        stream.len() == 4,
        block.len() <= 65536,
    ensures
        ({
            let n = block.len();
            let hdr = seq![
                (n / 0x1_0000) as u8,
                (n / 0x100 % 256) as u8,
                (n % 256) as u8,
                0xFB,
                flags,
            ];
            let t = framing::scan(s, hdr + stream + block);
            &&& t.parse.blocks == s.parse.blocks.push(block)
            &&& t.parse.out == s.parse.out
            &&& t.parse.sent == s.parse.sent
            &&& t.parse.phase == framing::header_phase()
            &&& t.hold.len() == 0
        }),
{
    let n = block.len();
    let f = Frame { kind: 0xFB, flags, stream, payload: block };
    assert(f.bytes() =~= seq![
        (n / 0x1_0000) as u8,
        (n / 0x100 % 256) as u8,
        (n % 256) as u8,
        0xFB,
        flags,
    ] + stream + block);
    lemma_scan_frame(s, f);
}

/// A frame of any other type is passed on as it is, and reports nothing.
pub proof fn law_passed_on(s: Scan, kind: u8, flags: u8, stream: Seq<u8>, payload: Seq<u8>)
    requires
        between_frames(s),
        kind != 0xFA,
        kind != 0xFB,
        stream.len() == 4,
        payload.len() < 0x100_0000,
    ensures
        ({
            let n = payload.len();
            let hdr = seq![
                (n / 0x1_0000) as u8,
                (n / 0x100 % 256) as u8,
                (n % 256) as u8,
                kind,
                flags,
            ];
            let input = hdr + stream + payload;
            let t = framing::scan(s, input);
            &&& t.parse.out == s.parse.out + input
            &&& t.parse.blocks == s.parse.blocks
            &&& t.parse.sent == s.parse.sent
            &&& between_frames(t)
        }),
{
    let n = payload.len();
    let f = Frame { kind, flags, stream, payload };
    assert(f.bytes() =~= seq![
        (n / 0x1_0000) as u8,
        (n / 0x100 % 256) as u8,
        (n % 256) as u8,
        kind,
        flags,
    ] + stream + payload);
    lemma_scan_frame(s, f);
}

/// The start of the preface is passed on as it comes in, and so is what a connection
/// that does not get past it, or that is not HTTP/2, ends with.
pub proof fn law_opening(input: Seq<u8>)
    requires
        input.len() <= PREFACE_LEN || diverges(input),
    ensures
        ({
            let t = framing::scan(opened().scan, input);
            &&& t.parse.out == input
            &&& framing::finish(t.parse).out == input
            &&& t.parse.blocks.len() == 0
            &&& t.parse.sent == 0
            &&& t.hold.len() == 0
        }),
{
    let s = opened().scan;
    if diverges(input) {
        law_not_http2(input);
    } else {
        lemma_on_track(input);
        framing::lemma_scan_preface(s, input, 0);
        assert(s.parse.out + input =~= input);
    }
}

/// As much is handed out at once as there is room for, from the front, and the rest is
/// kept.
pub proof fn law_deliver(s: Scan, room: nat)
    ensures
        ({
            let (t, step) = framing::deliver(s, room);
            &&& step is Deliver
            &&& step->Deliver_0 + t.parse.out == s.parse.out
            &&& step->Deliver_0.len() <= room
            &&& step->Deliver_0.len() == room || t.parse.out.len() == 0
            &&& t == (Scan { parse: Parse { out: t.parse.out, ..s.parse }, ..s })
        }),
{
    let (t, step) = framing::deliver(s, room);
    assert(step->Deliver_0 + t.parse.out =~= s.parse.out);
}

/// What is ready is handed out before anything else. A reader only waits while an
/// update is pending, and it reads on as soon as there is nothing left to hand out, to
/// wait for or to look at. As long as the socket has not ended, neither has the
/// connection.
pub proof fn law_poll(s: Scan, room: nat)
    ensures
        ({
            let (t, step) = framing::poll(s, room);
            &&& step !is Eof
            &&& s.parse.out.len() > 0 ==> (t, step) == framing::deliver(s, room)
            &&& s.parse.out.len() == 0 && s.pending() ==> step is Wait && t == s
            &&& s.parse.out.len() == 0 && !s.pending() && s.hold.len() == 0 ==> step is Fetch
                && t == s
            &&& step is Wait ==> t.pending() && t.parse.out.len() == 0
            &&& step is Fetch ==> !t.pending() && t.parse.out.len() == 0 && t.hold.len() == 0
            &&& step matches framing::Step::Deliver(bytes) ==> bytes.len() <= room && (
            bytes.len() == room || t.parse.out.len() == 0)
        }),
{
    law_deliver(s, room);
    if s.parse.out.len() == 0 && !s.pending() && s.hold.len() > 0 {
        lemma_resume(s);
        law_deliver(framing::resume(s), room);
    }
}

/// Once the socket has ended, nothing more is asked for: what is left is handed out,
/// an update that is left is waited for, and then the end is reported, again and again.
pub proof fn law_poll_end(s: Scan, room: nat, again: nat)
    ensures
        ({
            let (t, step) = framing::receive(s, Seq::empty(), room);
            &&& step !is Fetch
            &&& framing::poll(s, room).1 !is Fetch ==> (t, step) == framing::poll(s, room)
            &&& step is Wait ==> t.pending() && t.parse.out.len() == 0
            &&& step is Eof ==> {
                &&& !t.pending()
                &&& t.parse.out.len() == 0
                &&& t.hold.len() == 0
                &&& framing::receive(t, Seq::empty(), again) == (t, framing::Step::Eof)
            }
            &&& step matches framing::Step::Deliver(bytes) ==> bytes.len() <= room && (
            bytes.len() == room || t.parse.out.len() == 0)
        }),
{
    let (t, step) = framing::poll(s, room);
    law_poll(s, room);
    law_deliver(Scan { parse: framing::finish(t.parse), ..t }, room);
    let e = framing::poll_end(s, room).0;
    law_poll(e, again);
    lemma_finish_behind(Seq::empty(), Seq::empty(), 0, t.parse);
}

/// The connection that `h` becomes by taking in `chunk` and serving a read with `room`
/// for that many bytes.
pub open spec fn fed(h: History, chunk: Seq<u8>, room: nat) -> History {
    let (scan, step) = framing::receive(h.scan, chunk, room);
    History {
        scan,
        received: h.received + chunk,
        delivered: match step {
            framing::Step::Deliver(bytes) => h.delivered + bytes,
            _ => h.delivered,
        },
        ..h
    }
}

/// Taking in a chunk and serving a read keeps a connection faithful and in step, and
/// the end is not reported while there are chunks.
pub proof fn law_fed(h: History, chunk: Seq<u8>, room: nat)
    requires
        h.faithful(),
        h.in_step(),
        (Event::Receive(chunk)).allowed(h),
        chunk.len() > 0,
    ensures
        fed(h, chunk, room).faithful(),
        fed(h, chunk, room).in_step(),
        framing::receive(h.scan, chunk, room).1 !is Eof,
{
    let g = (Event::Receive(chunk)).apply(h);
    law_faithful(h, Event::Receive(chunk));
    law_in_step(h, Event::Receive(chunk));
    law_read(g, room);
    law_poll(g.scan, room);
    assert(fed(h, chunk, room) == served(g, room));
}

/// Finding out about the protocol keeps every byte for the codec. It comes to an answer
/// by the end of the preface, by where the client leaves it, or by the end of the
/// connection.
pub proof fn law_detect(front: Seq<u8>, chunk: Seq<u8>)
    ensures
        ({
            let s = framing::scan(opened().scan, front);
            let (t, protocol) = framing::detect(s, chunk);
            let input = front + chunk;
            &&& t == framing::scan(opened().scan, input)
            &&& diverges(input) ==> protocol == Some(Protocol::Http1)
            &&& !diverges(input) && input.len() >= 24 ==> protocol == Some(Protocol::Http2)
            &&& !diverges(input) && input.len() < 24 ==> protocol == if chunk.len() == 0 {
                Some(Protocol::Http1)
            } else {
                None
            }
        }),
{
    framing::law_chunking(opened().scan, front, chunk);
    law_protocol(front + chunk);
}

} // verus!

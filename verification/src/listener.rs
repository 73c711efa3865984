//! A connection whose read side picks the fast path's own frames out of the
//! byte stream.
//!
//! When the fast path answers an HTTP/2 request in the kernel, the server never
//! sees that request, and so never sees the entries it added to the client's
//! HPACK dynamic table. The fast path therefore prepends the entries it added
//! behind the server's back to the next message it does forward, as a frame of
//! the unassigned type [`DT_SYNC_FRAME_TYPE`].
//!
//! [`BeeperStream`] takes those frames back out of the stream before the
//! server's HTTP/2 codec ever sees them and hands them out through its
//! [`SyncHandle`], which is where the connection loop picks them up to prime its
//! decoder. Everything else is passed through untouched, so to the codec above
//! it the stream looks like an ordinary connection.
//!
//! Frames of type [`FC_SYNC_FRAME_TYPE`] ride along the same way and are
//! reported through a [`FlowHandle`]. They carry the number of bytes the fast
//! path answered with, which the server has to take out of the send window its
//! own codec believes it still has, see [`FlowHandle::take`].

use std::collections::VecDeque;

use vstd::prelude::*;

use crate::framing;
use crate::framing::{
    Parse, Phase, Scan, DT_SYNC_FRAME_TYPE, FC_SYNC_BODY_LEN, FC_SYNC_FRAME_TYPE, FRAME_HEADER_LEN,
    MAX_SYNC_FRAME, PREFACE, PREFACE_LEN,
};
use crate::wire;

verus! {

/// The dynamic table updates the fast path has sent on a connection, in the
/// order it applied them.
///
/// [`Scanner`] fills this in as it comes across sync frames; the connection loop
/// drains it and replays the blocks into its HPACK decoder.
pub struct SyncHandle {
    pub blocks: VecDeque<Vec<u8>>,
}

impl View for SyncHandle {
    type V = Seq<Seq<u8>>;

    open spec fn view(&self) -> Seq<Seq<u8>> {
        self.blocks@.map_values(|block: Vec<u8>| block@)
    }
}

impl Default for SyncHandle {
    fn default() -> (handle: SyncHandle)
        ensures
            handle@ == Seq::<Seq<u8>>::empty(),
    {
        SyncHandle { blocks: VecDeque::new() }
    }
}

impl SyncHandle {
    /// Removes and returns the blocks received so far, oldest first.
    ///
    /// Each one is a raw HPACK block of literal header fields with incremental
    /// indexing, i.e. exactly the representation that makes a decoder add them
    /// to its dynamic table.
    ///
    /// The stream stops handing out bytes once it has read an update and only
    /// resumes when it has been taken, so a reader that does not drain this
    /// makes no further progress. That is what keeps the codec from decoding
    /// the very request the update belongs to before the update is applied.
    pub fn take(&mut self) -> (taken: Vec<Vec<u8>>)
        ensures
            taken@.map_values(|block: Vec<u8>| block@) == old(self)@,
            final(self)@ == Seq::<Seq<u8>>::empty(),
    {
        let mut taken: Vec<Vec<u8>> = Vec::new();
        while self.blocks.len() > 0
            invariant
                taken@ + self.blocks@ == old(self).blocks@,
            decreases self.blocks@.len(),
        {
            if let Some(block) = self.blocks.pop_front() {
                taken.push(block);
            }
        }
        assert(taken@ =~= old(self).blocks@);
        taken
    }

    /// Returns whether any update is waiting to be applied.
    pub fn is_pending(&self) -> (pending: bool)
        ensures
            pending == (self@.len() > 0),
    {
        self.blocks.len() > 0
    }

    /// Adds an update behind the ones received so far.
    pub fn push(&mut self, block: Vec<u8>)
        ensures
            final(self)@ == old(self)@.push(block@),
    {
        self.blocks.push_back(block);
    }
}

/// The bytes the fast path has answered with on a connection that the server's
/// own codec has not been told about yet.
///
/// Those bytes were written straight onto the socket, so the client's connection
/// level flow control window has already paid for them while the codec still
/// counts them as its to spend. The connection loop drains this and takes it out
/// of the codec's send capacity, which is what puts the two back in step.
pub struct FlowHandle {
    pub sent: u32,
}

impl Default for FlowHandle {
    fn default() -> (handle: FlowHandle)
        ensures
            handle.sent == 0,
    {
        FlowHandle { sent: 0 }
    }
}

impl FlowHandle {
    /// Removes and returns the bytes reported so far.
    pub fn take(&mut self) -> (sent: u32)
        ensures
            sent == old(self).sent,
            final(self).sent == 0,
    {
        let sent: u32 = self.sent;
        self.sent = 0;
        sent
    }

    /// Adds to the bytes reported so far. The count wraps around at 32 bits.
    pub fn add(&mut self, sent: u32)
        ensures
            final(self).sent == wire::wrapping_sum(old(self).sent, sent),
    {
        self.sent = self.sent.wrapping_add(sent);
    }
}

/// The protocol a connection turned out to speak.
#[derive(Clone, Copy, Debug, PartialEq, Eq, Structural)]
pub enum Protocol {
    Http1,
    Http2,
}

/// Where the scanner is in the stream it is walking.
#[allow(inconsistent_fields)]
pub enum State {
    /// Matching the connection preface. Anything that diverges from it is not
    /// HTTP/2, and the scanner falls back to passing everything through.
    Preface { matched: usize },
    /// Collecting the nine bytes of a frame header.
    Header { buf: [u8; FRAME_HEADER_LEN], got: usize },
    /// Passing on the payload of a frame that is none of our business, of which
    /// there is some left.
    Payload { remaining: usize },
    /// Collecting the payload of a sync frame, which is taken out of the stream
    /// rather than passed on, and of which there is some left.
    Sync { block: Vec<u8>, remaining: usize },
    /// Collecting the payload of a flow control frame, which is taken out of the
    /// stream the same way.
    Flow { buf: [u8; FC_SYNC_BODY_LEN], got: usize },
    /// Not HTTP/2, or, if all of the preface has been seen, no longer able to
    /// follow the framing: everything from here on is passed through untouched.
    Blind { http2: bool },
}

impl View for State {
    type V = Phase;

    open spec fn view(&self) -> Phase {
        match *self {
            State::Preface { matched } => Phase::Preface { matched: matched as nat },
            State::Header { buf, got } => Phase::Header { got: buf@.take(got as int) },
            State::Payload { remaining } => Phase::Payload { remaining: remaining as nat },
            State::Sync { block, remaining } => Phase::Sync {
                block: block@,
                remaining: remaining as nat,
            },
            State::Flow { buf, got } => Phase::Flow { got: buf@.take(got as int) },
            State::Blind { http2 } => Phase::Blind { http2 },
        }
    }
}

impl State {
    /// Whatever is being collected is not complete yet.
    pub open spec fn wf(self) -> bool {
        match self {
            State::Preface { matched } => matched < PREFACE_LEN,
            State::Header { buf, got } => got < FRAME_HEADER_LEN,
            State::Payload { remaining } => remaining > 0,
            State::Sync { block, remaining } => remaining > 0,
            State::Flow { buf, got } => got < FC_SYNC_BODY_LEN,
            State::Blind { .. } => true,
        }
    }

    /// The start of a frame header.
    pub fn header() -> (state: State)
        ensures
            state.wf(),
            state@ == framing::header_phase(),
            state is Header,
            state->Header_buf@ == Seq::new(FRAME_HEADER_LEN as nat, |i: int| 0u8),
            state->Header_got == 0,
    {
        let state = State::Header { buf: [0; FRAME_HEADER_LEN], got: 0 };
        assert(state@->Header_got =~= Seq::<u8>::empty());
        state
    }
}

/// Appends `src` to `queue`.
fn extend(queue: &mut VecDeque<u8>, src: &[u8])
    ensures
        final(queue)@ == old(queue)@ + src@,
{
    let n: usize = src.len();
    for i in 0..n
        invariant
            n == src@.len(),
            queue@ == old(queue)@ + src@.take(i as int),
    {
        queue.push_back(src[i]);
        assert(src@.take(i + 1) =~= src@.take(i as int).push(src@[i as int]));
    }
    assert(src@.take(n as int) =~= src@);
}

/// Copies `src` into `buf`, from its `at`th byte on.
fn fill<const N: usize>(buf: &mut [u8; N], at: usize, src: &[u8])
    requires
        at + src@.len() <= N,
    ensures
        final(buf)@.take((at + src@.len()) as int) == old(buf)@.take(at as int) + src@,
{
    let n: usize = src.len();
    for i in 0..n
        invariant
            n == src@.len(),
            at + n <= N,
            buf@.take(at + i) == old(buf)@.take(at as int) + src@.take(i as int),
    {
        let ghost before = buf@;
        buf[at + i] = src[i];
        assert(src@.take(i + 1) =~= src@.take(i as int).push(src@[i as int]));
        assert(buf@.take(at + i + 1) =~= before.take(at + i).push(src@[i as int]));
    }
    assert(src@.take(n as int) =~= src@);
}

/// Returns how many bytes of `input` go on as the preface does behind its first
/// `matched` bytes.
fn match_preface(matched: usize, input: &[u8]) -> (n: usize)
    requires
        matched + input@.len() <= PREFACE_LEN,
    ensures
        n <= input@.len(),
        input@.take(n as int) == PREFACE@.subrange(matched as int, matched + n),
        n < input@.len() ==> input@[n as int] != PREFACE@[matched + n],
{
    let mut n: usize = 0;
    while n < input.len() && input[n] == PREFACE[matched + n]
        invariant
            matched + input@.len() <= PREFACE_LEN,
            n <= input@.len(),
            input@.take(n as int) == PREFACE@.subrange(matched as int, matched + n),
        decreases input@.len() - n,
    {
        assert(input@.take(n + 1) =~= input@.take(n as int).push(input@[n as int]));
        n = n + 1;
        assert(input@.take(n as int) =~= PREFACE@.subrange(matched as int, matched + n));
    }
    n
}

/// Walks a client's byte stream, separating the fast path's sync frames from
/// everything the HTTP/2 codec above is meant to see.
pub struct Scanner {
    pub state: State,
    /// Bytes that have been scanned and are waiting to be handed to the reader.
    pub out: VecDeque<u8>,
    /// Bytes that have arrived but must not be scanned yet, because an update
    /// ahead of them has not been applied. See [`Scanner::scan`].
    pub hold: VecDeque<u8>,
    pub sync: SyncHandle,
    pub flow: FlowHandle,
}

impl View for Scanner {
    type V = Scan;

    open spec fn view(&self) -> Scan {
        Scan {
            parse: Parse {
                phase: self.state@,
                out: self.out@,
                blocks: self.sync@,
                sent: self.flow.sent,
            },
            hold: self.hold@,
        }
    }
}

impl Scanner {
    pub open spec fn wf(self) -> bool {
        self.state.wf()
    }

    /// A scanner at the start of a connection, reporting through `sync` and
    /// `flow`.
    pub fn new(sync: SyncHandle, flow: FlowHandle) -> (scanner: Scanner)
        ensures
            scanner.wf(),
            scanner@ == (Scan {
                parse: Parse { blocks: sync@, sent: flow.sent, ..framing::fresh() },
                hold: Seq::empty(),
            }),
    {
        Scanner {
            state: State::Preface { matched: 0 },
            out: VecDeque::new(),
            hold: VecDeque::new(),
            sync,
            flow,
        }
    }

    /// Whether this is a scanner that was in `before` with `rest` ahead of it and
    /// now has `tail` left.
    spec fn scanned(self, before: Scan, rest: Seq<u8>, tail: Seq<u8>) -> bool {
        &&& self.wf()
        &&& tail.len() <= rest.len()
        &&& tail.len() > 0 ==> !self@.pending()
        &&& framing::scan(self@, tail) == framing::scan(before, rest)
    }

    /// Takes what there is of the preface off `rest`, and all of it if it diverges.
    fn scan_preface<'a>(&mut self, rest: &'a [u8]) -> (tail: &'a [u8])
        requires
            old(self).wf(),
            old(self).state is Preface,
            !old(self)@.pending(),
            rest@.len() > 0,
        ensures
            final(self).scanned(old(self)@, rest@, tail@),
            tail@.len() < rest@.len(),
    {
        let ghost before = self@;
        match &mut self.state {
            State::Preface { matched } => {
                let left: usize = PREFACE_LEN - *matched;
                let n: usize = if left < rest.len() { left } else { rest.len() };
                let head = &rest[0..n];
                let tail = &rest[n..rest.len()];
                let at: usize = match_preface(*matched, head);
                if at < n {
                    // not an HTTP/2 connection, so there is no framing to
                    // follow and nothing to filter
                    proof {
                        assert(rest@.take(at as int) =~= head@.take(at as int));
                        framing::lemma_scan_diverged(
                            before,
                            rest@,
                            *matched as nat,
                            at as nat,
                        );
                    }
                    extend(&mut self.out, rest);
                    self.state = State::Blind { http2: false };
                    return &rest[rest.len()..rest.len()];
                }
                proof {
                    assert(head@.take(n as int) =~= head@);
                    assert(rest@ =~= head@ + tail@);
                    framing::law_chunking(before, head@, tail@);
                    framing::lemma_scan_preface(before, head@, *matched as nat);
                }
                extend(&mut self.out, head);
                *matched = *matched + n;
                if *matched == PREFACE_LEN {
                    self.state = State::header();
                }
                tail
            },
            _ => rest,
        }
    }

    /// Takes what there is of a frame header off `rest`.
    fn scan_header<'a>(&mut self, rest: &'a [u8]) -> (tail: &'a [u8])
        requires
            old(self).wf(),
            old(self).state is Header,
            !old(self)@.pending(),
            rest@.len() > 0,
        ensures
            final(self).scanned(old(self)@, rest@, tail@),
            tail@.len() < rest@.len(),
    {
        let ghost before = self@;
        match &mut self.state {
            State::Header { buf, got } => {
                let left: usize = FRAME_HEADER_LEN - *got;
                let n: usize = if left < rest.len() { left } else { rest.len() };
                let head = &rest[0..n];
                let tail = &rest[n..rest.len()];
                proof {
                    assert(rest@ =~= head@ + tail@);
                    framing::law_chunking(before, head@, tail@);
                    framing::lemma_scan_header(before, head@, buf@.take(*got as int));
                }
                fill(buf, *got, head);
                *got = *got + n;
                if *got < FRAME_HEADER_LEN {
                    return tail;
                }
                assert(buf@.take(FRAME_HEADER_LEN as int) =~= buf@);
                let len: usize = wire::read_be24(buf[0], buf[1], buf[2]);
                let kind: u8 = buf[3];
                if kind == FC_SYNC_FRAME_TYPE {
                    if len != FC_SYNC_BODY_LEN {
                        self.state = State::Blind { http2: true };
                    } else {
                        self.state = State::Flow { buf: [0; FC_SYNC_BODY_LEN], got: 0 };
                        assert(self.state@->Flow_got =~= Seq::<u8>::empty());
                    }
                } else if kind != DT_SYNC_FRAME_TYPE {
                    let hdr: [u8; FRAME_HEADER_LEN] = *buf;
                    extend(&mut self.out, &hdr);
                    self.state = if len > 0 {
                        State::Payload { remaining: len }
                    } else {
                        State::header()
                    };
                } else if len > MAX_SYNC_FRAME {
                    self.state = State::Blind { http2: true };
                } else if len == 0 {
                    // there is nothing left to collect
                    let ghost complete = framing::scan(before, head@);
                    self.sync.push(Vec::new());
                    self.state = State::header();
                    assert(self@ =~= complete);
                    proof {
                        framing::law_barrier(complete, tail@);
                    }
                    // everything behind the update has to wait for it to be
                    // applied
                    extend(&mut self.hold, tail);
                    return &rest[rest.len()..rest.len()];
                } else {
                    // the header is dropped along with the payload, the
                    // codec above must not see either
                    self.state = State::Sync {
                        block: Vec::with_capacity(len),
                        remaining: len,
                    };
                }
                tail
            },
            _ => rest,
        }
    }

    /// Takes what there is of a foreign frame off `rest`.
    fn scan_payload<'a>(&mut self, rest: &'a [u8]) -> (tail: &'a [u8])
        requires
            old(self).wf(),
            old(self).state is Payload,
            !old(self)@.pending(),
            rest@.len() > 0,
        ensures
            final(self).scanned(old(self)@, rest@, tail@),
            tail@.len() < rest@.len(),
    {
        let ghost before = self@;
        match &mut self.state {
            State::Payload { remaining } => {
                let n: usize = if *remaining < rest.len() { *remaining } else { rest.len() };
                let head = &rest[0..n];
                let tail = &rest[n..rest.len()];
                proof {
                    assert(rest@ =~= head@ + tail@);
                    framing::law_chunking(before, head@, tail@);
                    framing::lemma_scan_payload(before, head@, *remaining as nat);
                }
                extend(&mut self.out, head);
                *remaining = *remaining - n;
                if *remaining == 0 {
                    self.state = State::header();
                }
                tail
            },
            _ => rest,
        }
    }

    /// Takes what there is of a report off `rest`.
    fn scan_flow<'a>(&mut self, rest: &'a [u8]) -> (tail: &'a [u8])
        requires
            old(self).wf(),
            old(self).state is Flow,
            !old(self)@.pending(),
            rest@.len() > 0,
        ensures
            final(self).scanned(old(self)@, rest@, tail@),
            tail@.len() < rest@.len(),
    {
        let ghost before = self@;
        match &mut self.state {
            State::Flow { buf, got } => {
                let left: usize = FC_SYNC_BODY_LEN - *got;
                let n: usize = if left < rest.len() { left } else { rest.len() };
                let head = &rest[0..n];
                let tail = &rest[n..rest.len()];
                proof {
                    assert(rest@ =~= head@ + tail@);
                    framing::law_chunking(before, head@, tail@);
                    framing::lemma_scan_flow(before, head@, buf@.take(*got as int));
                }
                fill(buf, *got, head);
                *got = *got + n;
                if *got == FC_SYNC_BODY_LEN {
                    assert(buf@.take(FC_SYNC_BODY_LEN as int) =~= buf@);
                    let sent: u32 = wire::read_be32(buf);
                    self.flow.add(sent);
                    self.state = State::header();
                }
                tail
            },
            _ => rest,
        }
    }

    /// Takes what there is of an update off `rest`, and all of it if the update is
    /// complete.
    fn scan_sync<'a>(&mut self, rest: &'a [u8]) -> (tail: &'a [u8])
        requires
            old(self).wf(),
            old(self).state is Sync,
            !old(self)@.pending(),
            rest@.len() > 0,
        ensures
            final(self).scanned(old(self)@, rest@, tail@),
            tail@.len() < rest@.len(),
    {
        let ghost before = self@;
        match &mut self.state {
            State::Sync { block, remaining } => {
                let n: usize = if *remaining < rest.len() { *remaining } else { rest.len() };
                let head = &rest[0..n];
                let tail = &rest[n..rest.len()];
                proof {
                    assert(rest@ =~= head@ + tail@);
                    framing::law_chunking(before, head@, tail@);
                    if *remaining <= rest@.len() {
                        framing::lemma_scan_sync_end(
                            before,
                            rest@,
                            block@,
                            *remaining as nat,
                        );
                    } else {
                        framing::lemma_scan_sync(before, head@, block@, *remaining as nat);
                    }
                }
                wire::append(block, head);
                assert(head@ =~= rest@.take(n as int));
                assert(tail@ =~= rest@.skip(n as int));
                *remaining = *remaining - n;
                if *remaining == 0 {
                    let mut whole: Vec<u8> = Vec::new();
                    std::mem::swap(block, &mut whole);
                    self.sync.push(whole);
                    self.state = State::header();
                    // everything behind the update has to wait for it to be
                    // applied
                    extend(&mut self.hold, tail);
                    return &rest[rest.len()..rest.len()];
                }
                tail
            },
            _ => rest,
        }
    }

    /// Walks `input`, appending everything that is not one of the fast path's
    /// own frames to `out` and handing the ones it finds to the [`SyncHandle`]
    /// or the [`FlowHandle`] they belong to.
    ///
    /// Scanning stops at an update and the rest of `input` is held back, so that
    /// the request the update belongs to cannot reach the codec before the
    /// update has been applied to its dynamic table. It resumes once the update
    /// has been taken off the handle.
    pub fn scan(&mut self, input: &[u8])
        requires
            old(self).wf(),
        ensures
            final(self).wf(),
            final(self)@ == framing::scan(old(self)@, input@),
    {
        if self.sync.is_pending() {
            proof {
                framing::law_barrier(self@, input@);
            }
            extend(&mut self.hold, input);
            return;
        }
        let mut rest: &[u8] = input;
        while rest.len() > 0
            invariant
                self.wf(),
                rest@.len() > 0 ==> !self@.pending(),
                framing::scan(self@, rest@) == framing::scan(old(self)@, input@),
            decreases rest@.len(),
        {
            let tail = match &self.state {
                State::Preface { .. } => self.scan_preface(rest),
                State::Header { .. } => self.scan_header(rest),
                State::Payload { .. } => self.scan_payload(rest),
                State::Flow { .. } => self.scan_flow(rest),
                State::Sync { .. } => self.scan_sync(rest),
                State::Blind { .. } => {
                    proof {
                        framing::lemma_scan_blind(self@, rest@);
                    }
                    extend(&mut self.out, rest);
                    return;
                },
            };
            rest = tail;
        }
    }

    /// Scans the bytes that have been held back.
    pub fn resume(&mut self)
        requires
            old(self).wf(),
        ensures
            final(self).wf(),
            final(self)@ == framing::resume(old(self)@),
    {
        let n: usize = self.hold.len();
        let held: Vec<u8> = drain(&mut self.hold, n);
        assert(held@ =~= old(self).hold@);
        assert(self.hold@ =~= Seq::<u8>::empty());
        self.scan(&held);
    }

    /// Takes in the end of the stream. There will be no more of a frame header
    /// that has been cut short, so what there is of it is passed on, unless it is
    /// known to be that of one of the fast path's own frames.
    pub fn finish(&mut self)
        requires
            old(self).wf(),
        ensures
            final(self).wf(),
            final(self)@ == (Scan { parse: framing::finish(old(self)@.parse), ..old(self)@ }),
    {
        match &self.state {
            State::Header { buf, got } => {
                let n: usize = *got;
                let own: bool = n > 3 && (buf[3] == FC_SYNC_FRAME_TYPE || buf[3]
                    == DT_SYNC_FRAME_TYPE);
                if n > 0 && !own {
                    let hdr: [u8; FRAME_HEADER_LEN] = *buf;
                    let cut = &hdr.as_slice()[0..n];
                    assert(cut@ =~= buf@.take(n as int));
                    extend(&mut self.out, cut);
                    self.state = State::Blind { http2: true };
                }
            },
            _ => {},
        }
    }
}

/// Removes the first `n` bytes of `queue`.
fn drain(queue: &mut VecDeque<u8>, n: usize) -> (head: Vec<u8>)
    requires
        n <= old(queue)@.len(),
    ensures
        head@ == old(queue)@.take(n as int),
        final(queue)@ == old(queue)@.skip(n as int),
{
    let mut head: Vec<u8> = Vec::with_capacity(n);
    for i in 0..n
        invariant
            n <= old(queue)@.len(),
            head@ == old(queue)@.take(i as int),
            queue@ == old(queue)@.skip(i as int),
    {
        if let Some(b) = queue.pop_front() {
            head.push(b);
        }
        assert(head@ =~= old(queue)@.take(i + 1));
        assert(queue@ =~= old(queue)@.skip(i + 1));
    }
    head
}

/// What the owner of a connection's socket has to do to serve a read.
pub enum ReadStep {
    /// Hand these bytes to the reader.
    Deliver(Vec<u8>),
    /// An update is waiting to be applied, and nothing behind it may be handed
    /// out until it has been. Whoever reads the connection is the one to apply
    /// it, so it has to be woken up to get there.
    Wait,
    /// Read more bytes and pass them to [`BeeperStream::received`].
    Fetch,
    /// Report the end of the connection.
    Eof,
}

impl View for ReadStep {
    type V = framing::Step;

    open spec fn view(&self) -> framing::Step {
        match *self {
            ReadStep::Deliver(bytes) => framing::Step::Deliver(bytes@),
            ReadStep::Wait => framing::Step::Wait,
            ReadStep::Fetch => framing::Step::Fetch,
            ReadStep::Eof => framing::Step::Eof,
        }
    }
}

/// The read side of a connection with the fast path's own frames filtered out of
/// it. It does not hold the socket: it says when to read from it and takes in
/// what was read.
pub struct BeeperStream {
    pub scanner: Scanner,
}

impl BeeperStream {
    pub open spec fn wf(self) -> bool {
        self.scanner.wf()
    }

    /// A connection that nothing has been read from yet.
    pub fn new() -> (stream: BeeperStream)
        ensures
            stream.wf(),
            stream.scanner@ == (Scan { parse: framing::fresh(), hold: Seq::empty() }),
    {
        BeeperStream { scanner: Scanner::new(SyncHandle::default(), FlowHandle::default()) }
    }

    /// Returns the handle the dynamic table updates seen on this connection are
    /// reported through.
    pub fn sync_handle(&mut self) -> (handle: &mut SyncHandle)
        ensures
            *handle == old(self).scanner.sync,
            *final(self) == (BeeperStream {
                scanner: Scanner { sync: *final(handle), ..old(self).scanner },
            }),
    {
        &mut self.scanner.sync
    }

    /// Returns the handle the bytes the fast path answered with on this
    /// connection are reported through.
    pub fn flow_handle(&mut self) -> (handle: &mut FlowHandle)
        ensures
            *handle == old(self).scanner.flow,
            *final(self) == (BeeperStream {
                scanner: Scanner { flow: *final(handle), ..old(self).scanner },
            }),
    {
        &mut self.scanner.flow
    }

    /// Returns the protocol the client speaks, or `None` if it is not known yet
    /// and more bytes have to be read and passed to
    /// [`BeeperStream::received_for_protocol`].
    pub fn protocol(&self) -> (protocol: Option<Protocol>)
        ensures
            protocol == framing::protocol(self.scanner.state@),
    {
        match self.scanner.state {
            State::Preface { .. } => None,
            State::Blind { http2: false } => Some(Protocol::Http1),
            _ => Some(Protocol::Http2),
        }
    }

    /// Takes in a chunk read off the socket to find out about the protocol, an
    /// empty one being the end of the connection, and returns the protocol if it
    /// is known by now.
    ///
    /// The bytes this consumes are kept and handed to the codec afterwards, so
    /// this can be called before serving the connection without losing anything.
    pub fn received_for_protocol(&mut self, chunk: &[u8]) -> (protocol: Option<Protocol>)
        requires
            old(self).wf(),
        ensures
            final(self).wf(),
            (final(self).scanner@, protocol) == framing::detect(old(self).scanner@, chunk@),
    {
        self.scanner.scan(chunk);
        match self.protocol() {
            Some(known) => Some(known),
            None => if chunk.len() == 0 {
                // the connection ended before it said anything, so it does not
                // matter which of the two it would have been
                Some(Protocol::Http1)
            } else {
                None
            },
        }
    }

    /// Moves as much of the scanned output out as there is `room` for.
    pub fn drain_into(&mut self, room: usize) -> (bytes: Vec<u8>)
        requires
            old(self).wf(),
        ensures
            final(self).wf(),
            (final(self).scanner@, framing::Step::Deliver(bytes@)) == framing::deliver(
                old(self).scanner@,
                room as nat,
            ),
    {
        let len: usize = self.scanner.out.len();
        let n: usize = if room < len { room } else { len };
        drain(&mut self.scanner.out, n)
    }

    /// Serves a read with `room` for that many bytes, as far as it can be served
    /// without touching the socket.
    pub fn poll_read(&mut self, room: usize) -> (step: ReadStep)
        requires
            old(self).wf(),
        ensures
            final(self).wf(),
            (final(self).scanner@, step@) == framing::poll(old(self).scanner@, room as nat),
    {
        if self.scanner.out.len() > 0 {
            return ReadStep::Deliver(self.drain_into(room));
        }
        if self.scanner.sync.is_pending() {
            return ReadStep::Wait;
        }
        if self.scanner.hold.len() > 0 {
            self.scanner.resume();
            if self.scanner.out.len() > 0 {
                return ReadStep::Deliver(self.drain_into(room));
            }
            if self.scanner.sync.is_pending() {
                return ReadStep::Wait;
            }
        }
        ReadStep::Fetch
    }

    /// Takes in a chunk read off the socket, an empty one being the end of the
    /// connection, and goes on serving the read.
    ///
    /// A chunk that held nothing but a sync frame leaves nothing to hand out,
    /// and an empty read would look like the end of the connection to the
    /// reader, so there may be more to fetch. The end of the connection is not
    /// reported before everything in front of it has been handed out.
    pub fn received(&mut self, chunk: &[u8], room: usize) -> (step: ReadStep)
        requires
            old(self).wf(),
        ensures
            final(self).wf(),
            (final(self).scanner@, step@) == framing::receive(
                old(self).scanner@,
                chunk@,
                room as nat,
            ),
    {
        if chunk.len() > 0 {
            self.scanner.scan(chunk);
            return self.poll_read(room);
        }
        match self.poll_read(room) {
            ReadStep::Fetch => {
                self.scanner.finish();
                if self.scanner.out.len() > 0 {
                    ReadStep::Deliver(self.drain_into(room))
                } else {
                    ReadStep::Eof
                }
            },
            step => step,
        }
    }
}

} // verus!

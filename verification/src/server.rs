//! The decisions of the server's connection loop.
//!
//! The dynamic table updates the fast path sends have to be applied to a
//! connection's HPACK decoder between requests, and the window it spent has to be
//! taken out of the send window before any more of it is handed out. Both have to
//! be done before every poll of the connection, which is what a [`Turn`] sees to:
//! the stream withholds everything behind an update until it has been taken, so a
//! turn is both what applies the update and what lets the request it belongs to
//! through.

use vstd::prelude::*;

use crate::framing;
use crate::framing::{Parse, Scan};
use crate::laws;
use crate::laws::{Event, History};
use crate::listener::BeeperStream;
use crate::wire;

verus! {

/// Why a connection has to end.
#[derive(Clone, Copy, Debug, PartialEq, Eq, Structural)]
pub enum ServeError {
    /// The bytes served out of band could not be taken out of the send window.
    SendCapacity { sent: u32 },
    /// A dynamic table update of this length could not be applied. Carrying on
    /// would decode every later request against a table that no longer matches
    /// the client's.
    DynamicTable { len: usize },
}

/// Something that has to be done to the codec before it may be polled.
pub enum Work {
    /// Take this much out of the send window.
    Consume(u32),
    /// Apply this update to the dynamic table.
    Prime(Seq<u8>),
}

/// What it means that `work` could not be done.
pub open spec fn failure(work: Work) -> ServeError {
    match work {
        Work::Consume(sent) => ServeError::SendCapacity { sent },
        Work::Prime(block) => ServeError::DynamicTable { len: block.len() as usize },
    }
}

/// The updates `blocks` as work.
pub open spec fn priming(blocks: Seq<Seq<u8>>) -> Seq<Work> {
    blocks.map_values(|block: Seq<u8>| Work::Prime(block))
}

/// What has to be done to the codec of a connection before it may be polled: the
/// window first, then the updates in the order they came in.
pub open spec fn agenda(scan: Scan) -> Seq<Work> {
    if scan.parse.sent > 0 {
        seq![Work::Consume(scan.parse.sent)] + priming(scan.parse.blocks)
    } else {
        priming(scan.parse.blocks)
    }
}

/// How much is taken out of the send window by `work`, all in all.
pub open spec fn consumed(work: Seq<Work>) -> int
    decreases work.len(),
{
    if work.len() == 0 {
        0
    } else {
        consumed(work.drop_last()) + match work.last() {
            Work::Consume(sent) => sent as int,
            Work::Prime(_) => 0,
        }
    }
}

/// The updates that are applied by `work`, in order.
pub open spec fn primed(work: Seq<Work>) -> Seq<Seq<u8>>
    decreases work.len(),
{
    if work.len() == 0 {
        Seq::empty()
    } else {
        match work.last() {
            Work::Consume(_) => primed(work.drop_last()),
            Work::Prime(block) => primed(work.drop_last()).push(block),
        }
    }
}

proof fn lemma_priming(front: Seq<Work>, blocks: Seq<Seq<u8>>)
    ensures
        consumed(front + priming(blocks)) == consumed(front),
        primed(front + priming(blocks)) == primed(front) + blocks,
    decreases blocks.len(),
{
    let work = front + priming(blocks);
    if blocks.len() == 0 {
        assert(work =~= front);
        assert(primed(front) + blocks =~= primed(front));
    } else {
        let init = blocks.drop_last();
        lemma_priming(front, init);
        assert(work.drop_last() =~= front + priming(init));
        assert(work.last() == Work::Prime(blocks.last()));
        assert((primed(front) + init).push(blocks.last()) =~= primed(front) + blocks);
    }
}

/// A turn accounts for all that is waiting on the handles: it takes exactly the bytes
/// that were reported out of the send window, and it applies exactly the updates that
/// came in, in order. The window is taken care of before any update is applied, and all
/// at once.
pub proof fn law_agenda(scan: Scan)
    ensures
        consumed(agenda(scan)) == scan.parse.sent,
        primed(agenda(scan)) == scan.parse.blocks,
        forall|i: int|
            0 <= i < agenda(scan).len() && (#[trigger] agenda(scan)[i]) is Consume ==> i == 0,
        scan.parse.sent == 0 ==> agenda(scan).len() == scan.parse.blocks.len(),
        scan.parse.sent > 0 ==> agenda(scan).len() == scan.parse.blocks.len() + 1,
{
    let none = Seq::<Work>::empty();
    assert(none + priming(scan.parse.blocks) =~= priming(scan.parse.blocks));
    lemma_priming(none, scan.parse.blocks);
    assert(primed(none) + scan.parse.blocks =~= scan.parse.blocks);
    let window = seq![Work::Consume(scan.parse.sent)];
    lemma_priming(window, scan.parse.blocks);
    assert(window.drop_last() =~= none);
    assert(consumed(window) == scan.parse.sent);
    assert(primed(window) =~= Seq::<Seq<u8>>::empty());
    assert(primed(window) + scan.parse.blocks =~= scan.parse.blocks);
}

/// What the codec did not do is what the connection ends with: the bytes that are not
/// accounted for, or the length of the update that is not applied.
pub proof fn law_failure(sent: u32, block: Seq<u8>)
    requires
        block.len() <= usize::MAX,
    ensures
        failure(Work::Consume(sent)) is SendCapacity,
        failure(Work::Consume(sent))->sent == sent,
        failure(Work::Prime(block)) is DynamicTable,
        failure(Work::Prime(block))->len == block.len(),
{
}

/// A turn that has some work left or that has failed, once it is known whether
/// the first of the work could be done.
pub open spec fn worked(state: Result<Seq<Work>, ServeError>, success: bool) -> Result<
    Seq<Work>,
    ServeError,
> {
    match state {
        Ok(left) => if left.len() == 0 {
            state
        } else if success {
            Ok(left.skip(1))
        } else {
            Err(failure(left[0]))
        },
        Err(error) => state,
    }
}

/// A turn with the work `left` after each of these.
pub open spec fn worked_through(left: Seq<Work>, outcomes: Seq<bool>) -> Result<
    Seq<Work>,
    ServeError,
>
    decreases outcomes.len(),
{
    if outcomes.len() == 0 {
        Ok(left)
    } else {
        worked(worked_through(left, outcomes.drop_last()), outcomes.last())
    }
}

/// A connection whose handles have been emptied.
pub open spec fn emptied(scan: Scan) -> Scan {
    Scan { parse: Parse { blocks: Seq::empty(), sent: 0, ..scan.parse }, ..scan }
}

/// How far a turn has come.
pub enum Stage {
    /// The window is being taken care of.
    Window { sent: u32 },
    /// The updates are being applied. This many of them have been.
    Table { blocks: Vec<Vec<u8>>, applied: usize },
    /// The connection has to end.
    Failed { error: ServeError },
}

/// What the owner of a connection has to do next.
#[derive(Debug, PartialEq, Eq)]
pub enum Action<'a> {
    /// Take this much out of the send window, then call [`Turn::done`].
    Consume { sent: u32 },
    /// Apply this update to the dynamic table, then call [`Turn::done`].
    Prime { block: &'a [u8] },
    /// Poll the connection for the next request.
    Accept,
    /// End the connection.
    Fail { error: ServeError },
}

/// Whether `action` is what a turn in this state asks for.
pub open spec fn asked(state: Result<Seq<Work>, ServeError>, action: Action) -> bool {
    match state {
        Ok(left) => if left.len() == 0 {
            action is Accept
        } else {
            match left[0] {
                Work::Consume(sent) => action == (Action::Consume { sent }),
                Work::Prime(block) => action is Prime && action->block@ == block,
            }
        },
        Err(error) => action == (Action::Fail { error }),
    }
}

/// The connection is polled once there is nothing left to do and nothing has failed. What
/// is asked for before that is the first of what is left: all of it is what doing that and
/// then the rest comes to.
pub proof fn law_asked(left: Seq<Work>, error: ServeError, action: Action)
    ensures
        asked(Ok(left), action) ==> {
            &&& action is Accept <==> left.len() == 0
            &&& action !is Fail
            &&& action is Consume ==> left[0] == Work::Consume(action->sent) && consumed(left)
                == action->sent + consumed(left.skip(1)) && primed(left) == primed(left.skip(1))
            &&& action is Prime ==> left[0] == Work::Prime(action->block@) && consumed(left)
                == consumed(left.skip(1)) && primed(left) == seq![action->block@] + primed(
                left.skip(1),
            )
        },
        asked(Err(error), action) ==> action is Fail && action->error == error,
{
    if left.len() > 0 {
        lemma_first(left);
    }
}

proof fn lemma_first(work: Seq<Work>)
    requires
        work.len() > 0,
    ensures
        consumed(work) == consumed(seq![work[0]]) + consumed(work.skip(1)),
        primed(work) == primed(seq![work[0]]) + primed(work.skip(1)),
        work[0] matches Work::Consume(sent) ==> consumed(seq![work[0]]) == sent && primed(
            seq![work[0]],
        ) == Seq::<Seq<u8>>::empty() && primed(work) == primed(work.skip(1)),
        work[0] matches Work::Prime(block) ==> consumed(seq![work[0]]) == 0 && primed(
            seq![work[0]],
        ) == seq![block],
    decreases work.len(),
{
    let first = seq![work[0]];
    assert(first.drop_last() =~= Seq::<Work>::empty());
    assert(primed(first.drop_last()) == Seq::<Seq<u8>>::empty());
    assert(consumed(first.drop_last()) == 0);
    assert(first.last() == work[0]);
    if let Work::Prime(block) = work[0] {
        assert(Seq::<Seq<u8>>::empty().push(block) =~= seq![block]);
    }
    if work.len() == 1 {
        assert(work =~= first);
        assert(work.skip(1) =~= Seq::<Work>::empty());
        assert(primed(first) + primed(work.skip(1)) =~= primed(first));
    } else {
        let init = work.drop_last();
        lemma_first(init);
        assert(work.skip(1).drop_last() =~= init.skip(1));
        assert(work.skip(1).last() == work.last());
        assert(primed(work) =~= primed(first) + primed(work.skip(1)));
    }
    assert(work[0] is Consume ==> primed(first) + primed(work.skip(1)) =~= primed(work.skip(1)));
}

/// What happens between two polls of a connection.
pub struct Turn {
    pub stage: Stage,
}

impl Turn {
    /// Whether this can be a turn of a connection in the state `scan`.
    pub open spec fn wf(self, scan: Scan) -> bool {
        match self.stage {
            Stage::Window { sent } => sent > 0 && scan.parse.sent == 0,
            Stage::Table { blocks, applied } => {
                &&& applied <= blocks@.len()
                &&& scan.parse.sent == 0
                &&& scan.parse.blocks.len() == 0
            },
            Stage::Failed { .. } => true,
        }
    }

    /// What is left to be done in this turn of a connection in the state `scan`, or
    /// why the connection has to end.
    pub open spec fn state(self, scan: Scan) -> Result<Seq<Work>, ServeError> {
        match self.stage {
            Stage::Window { sent } => Ok(
                seq![Work::Consume(sent)] + priming(scan.parse.blocks),
            ),
            Stage::Table { blocks, applied } => Ok(
                priming(blocks@.map_values(|block: Vec<u8>| block@).skip(applied as int)),
            ),
            Stage::Failed { error } => Err(error),
        }
    }

    /// Starts to apply the updates that have come in.
    fn start_table(stream: &mut BeeperStream) -> (turn: Turn)
        requires
            old(stream).wf(),
            old(stream).scanner@.parse.sent == 0,
        ensures
            final(stream).wf(),
            final(stream).scanner@ == emptied(old(stream).scanner@),
            turn.wf(final(stream).scanner@),
            turn.state(final(stream).scanner@) == Ok::<Seq<Work>, ServeError>(
                priming(old(stream).scanner@.parse.blocks),
            ),
    {
        let blocks: Vec<Vec<u8>> = stream.sync_handle().take();
        assert(stream.scanner@ =~= emptied(old(stream).scanner@));
        assert(blocks@.map_values(|block: Vec<u8>| block@).skip(0) =~= old(
            stream,
        ).scanner@.parse.blocks);
        Turn { stage: Stage::Table { blocks, applied: 0 } }
    }

    /// Starts a turn. What the fast path has reported so far is taken off the
    /// handles of the connection, except for updates that have to wait until the
    /// window has been taken care of.
    pub fn begin(stream: &mut BeeperStream) -> (turn: Turn)
        requires
            old(stream).wf(),
        ensures
            final(stream).wf(),
            emptied(final(stream).scanner@) == emptied(old(stream).scanner@),
            turn.wf(final(stream).scanner@),
            turn.state(final(stream).scanner@) == Ok::<Seq<Work>, ServeError>(
                agenda(old(stream).scanner@),
            ),
            consumed(turn.state(final(stream).scanner@)->Ok_0) == old(
                stream,
            ).scanner@.parse.sent,
            primed(turn.state(final(stream).scanner@)->Ok_0) == old(stream).scanner@.parse.blocks,
    {
        proof {
            law_agenda(stream.scanner@);
        }
        let sent: u32 = stream.flow_handle().take();
        assert(stream.scanner@ =~= Scan {
            parse: Parse { sent: 0, ..old(stream).scanner@.parse },
            ..old(stream).scanner@
        });
        if sent > 0 {
            Turn { stage: Stage::Window { sent } }
        } else {
            Turn::start_table(stream)
        }
    }

    /// Returns what has to be done next.
    pub fn action(&self) -> (action: Action<'_>)
        ensures
            forall|scan: Scan| #[trigger] self.wf(scan) ==> asked(self.state(scan), action),
    {
        match &self.stage {
            Stage::Window { sent } => Action::Consume { sent: *sent },
            Stage::Table { blocks, applied } => if *applied < blocks.len() {
                Action::Prime { block: &blocks[*applied] }
            } else {
                Action::Accept
            },
            Stage::Failed { error } => Action::Fail { error: *error },
        }
    }

    /// Takes in whether what had to be done next has been done.
    pub fn done(&mut self, stream: &mut BeeperStream, success: bool)
        requires
            old(stream).wf(),
            old(self).wf(old(stream).scanner@),
        ensures
            final(stream).wf(),
            final(self).wf(final(stream).scanner@),
            final(self).state(final(stream).scanner@) == worked(
                old(self).state(old(stream).scanner@),
                success,
            ),
            emptied(final(stream).scanner@) == emptied(old(stream).scanner@),
            !success ==> *final(stream) == *old(stream),
    {
        match &mut self.stage {
            Stage::Window { sent } => {
                if success {
                    *self = Turn::start_table(stream);
                } else {
                    let error: ServeError = ServeError::SendCapacity { sent: *sent };
                    self.stage = Stage::Failed { error };
                }
            },
            Stage::Table { blocks, applied } => {
                if *applied < blocks.len() {
                    if success {
                        *applied = *applied + 1;
                    } else {
                        let error: ServeError = ServeError::DynamicTable {
                            len: blocks[*applied].len(),
                        };
                        self.stage = Stage::Failed { error };
                    }
                }
            },
            Stage::Failed { .. } => {},
        }
        proof {
            let updates = priming(old(stream).scanner@.parse.blocks);
            match old(self).stage {
                Stage::Window { sent } => {
                    assert((seq![Work::Consume(sent)] + updates).skip(1) =~= updates);
                },
                Stage::Table { blocks, applied } => {
                    let all = blocks@.map_values(|block: Vec<u8>| block@);
                    if applied < blocks@.len() {
                        assert(priming(all.skip(applied as int)).skip(1) =~= priming(
                            all.skip(applied + 1),
                        ));
                    }
                },
                _ => {},
            }
        }
    }
}

/// Whether the first `n` of `outcomes` are good.
pub open spec fn all_good(outcomes: Seq<bool>, n: int) -> bool {
    forall|i: int| 0 <= i < n ==> #[trigger] outcomes[i]
}

/// A turn does all of its work in order. It stops at the first of it that cannot
/// be done, and the connection ends there whatever comes after.
pub proof fn law_turn(left: Seq<Work>, outcomes: Seq<bool>, n: int)
    requires
        0 <= n <= left.len(),
        n <= outcomes.len(),
        all_good(outcomes, n),
    ensures
        n == outcomes.len() ==> worked_through(left, outcomes) == Ok::<Seq<Work>, ServeError>(
            left.skip(n),
        ),
        n == left.len() ==> worked_through(left, outcomes) == Ok::<Seq<Work>, ServeError>(seq![]),
        n < left.len() && n < outcomes.len() && !outcomes[n] ==> worked_through(left, outcomes)
            == Err::<Seq<Work>, ServeError>(failure(left[n])),
    decreases outcomes.len(),
{
    if outcomes.len() == 0 {
        assert(left.skip(0) =~= left);
        if left.len() == 0 {
            assert(left =~= seq![]);
        }
    } else {
        let init = outcomes.drop_last();
        let m = if n < outcomes.len() {
            n
        } else {
            n - 1
        };
        assert forall|i: int| 0 <= i < m implies #[trigger] init[i] by {
            assert(outcomes[i]);
        }
        law_turn(left, init, m);
        if n == outcomes.len() {
            assert(outcomes[n - 1]);
            assert(left.skip(m).skip(1) =~= left.skip(n));
        }
        if n == left.len() {
            assert(left.skip(n) =~= seq![]);
        }
    }
}

/// By the time a connection is polled, its window has been taken care of and no
/// update is waiting. If another one comes up among the bytes that had been
/// withheld, there are fewer of those left, so a request is let through after a
/// finite number of turns.
pub proof fn law_polled(turn: Turn, scan: Scan, room: nat)
    requires
        laws::aligned(scan),
        turn.wf(scan),
        turn.state(scan) == Ok::<Seq<Work>, ServeError>(seq![]),
    ensures
        scan == emptied(scan),
        !scan.pending(),
        framing::poll(scan, room).1 is Wait ==> framing::poll(scan, room).0.hold.len()
            < scan.hold.len(),
{
    match turn.stage {
        Stage::Window { sent } => {
            let left = seq![Work::Consume(sent)] + priming(scan.parse.blocks);
            assert(left.len() > 0);
        },
        _ => {},
    }
    if scan.hold.len() > 0 {
        laws::law_progress(scan);
    }
}

/// Over the life of a connection, the turns hand the codec exactly what the stream
/// reports: all that is waiting on the handles goes into a turn, and none of it
/// twice.
pub proof fn law_accounted(h: History)
    requires
        h.faithful(),
        h.in_step(),
    ensures
        ({
            let after = Event::TakeUpdates.apply(Event::TakeSent.apply(h));
            &&& after.scan == emptied(h.scan)
            &&& agenda(after.scan) == Seq::<Work>::empty()
            &&& after.taken == h.taken + h.scan.parse.blocks
            &&& after.credited == wire::wrapping_sum(h.credited, h.scan.parse.sent)
            &&& after.faithful()
            &&& after.in_step()
        }),
{
    let between = Event::TakeSent.apply(h);
    laws::law_faithful(h, Event::TakeSent);
    laws::law_in_step(h, Event::TakeSent);
    laws::law_faithful(between, Event::TakeUpdates);
    laws::law_in_step(between, Event::TakeUpdates);
    assert(agenda(Event::TakeUpdates.apply(between).scan) =~= Seq::<Work>::empty());
}

/// What is consumed over the life of a connection adds up to what has been reported on
/// it, wrapped around at 32 bits, and what is applied are the updates that have come in:
/// every turn adds exactly what it takes off the handles.
pub proof fn law_turn_accounts(h: History)
    ensures
        ({
            let after = Event::TakeUpdates.apply(Event::TakeSent.apply(h));
            let work = agenda(h.scan);
            &&& after.credited == (h.credited + consumed(work)) % 0x1_0000_0000
            &&& after.taken == h.taken + primed(work)
            &&& after.scan.parse.sent == 0
            &&& after.scan.parse.blocks.len() == 0
            &&& after.scan.parse.out == h.scan.parse.out
            &&& after.scan.hold == h.scan.hold
        }),
{
    law_agenda(h.scan);
}

/// A request body that `chunk` has come in behind, and how much of the receive window is
/// given back for it.
pub open spec fn body_with(collected: Seq<u8>, chunk: Seq<u8>) -> (Seq<u8>, nat) {
    (collected + chunk, chunk.len())
}

/// All of a request's body is kept, in order, and exactly as much of the receive window
/// is given back as came in.
pub proof fn law_request_body(collected: Seq<u8>, chunk: Seq<u8>)
    ensures
        ({
            let (after, released) = body_with(collected, chunk);
            &&& after.take(collected.len() as int) == collected
            &&& after.skip(collected.len() as int) == chunk
            &&& after.len() == collected.len() + released
        }),
{
    let after = body_with(collected, chunk).0;
    assert(after.take(collected.len() as int) =~= collected);
    assert(after.skip(collected.len() as int) =~= chunk);
}

/// The body of a request, which is collected in one go rather than streamed
/// through: the routes of the fast path do not take one.
pub struct RequestBody {
    pub collected: Vec<u8>,
}

impl RequestBody {
    /// A body that nothing has come in of.
    pub fn new() -> (body: RequestBody)
        ensures
            body.collected@ == Seq::<u8>::empty(),
    {
        RequestBody { collected: Vec::new() }
    }

    /// Takes in a chunk and returns how much of the receive window to give back.
    pub fn push(&mut self, chunk: &[u8]) -> (released: usize)
        ensures
            (final(self).collected@, released as nat) == body_with(old(self).collected@, chunk@),
    {
        wire::append(&mut self.collected, chunk);
        chunk.len()
    }
}

/// How a response goes out.
#[derive(Clone, Copy, Debug, PartialEq, Eq, Structural)]
pub enum Reply {
    /// Its headers end the stream.
    Headers,
    /// Its headers are followed by all of its body, which ends the stream.
    HeadersAndBody,
}

/// How a response with a body of this length goes out.
pub open spec fn reply_to(len: int) -> Reply {
    if len == 0 {
        Reply::Headers
    } else {
        Reply::HeadersAndBody
    }
}

/// A response ends its stream once: with its body if there is any of it, which is then
/// sent, and with its headers if there is none.
pub proof fn law_reply(len: int)
    ensures
        reply_to(len) is HeadersAndBody <==> len != 0,
        reply_to(len) is Headers <==> len == 0,
{
}

/// Returns how a response with a body of this length goes out.
pub fn reply(len: usize) -> (reply: Reply)
    ensures
        reply == reply_to(len as int),
{
    if len == 0 {
        Reply::Headers
    } else {
        Reply::HeadersAndBody
    }
}

} // verus!

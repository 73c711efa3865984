//! The pool of dummy sockets the fast path runs on.
//!
//! A dummy is one end of a loopback connection. It is lent to a connection by the
//! eBPF program and handed back over a ring buffer once the connection closes. It
//! still carries the connection's state at that point, so it is reset before it
//! goes back into the pool.

use std::collections::VecDeque;

use vstd::prelude::*;

use crate::net;
use crate::net::{Address, ByteOrder};

verus! {

/// How long a released dummy is left alone before it is reset, in nanoseconds.
/// Its backlog may still be working off what the connection sent last, and a
/// psock that is in use when the dummy is taken out of the map outlives the
/// removal.
pub const QUARANTINE: u64 = 100_000_000;

/// Why a dummy cannot be used.
#[derive(Clone, Copy, Debug, PartialEq, Eq, Structural)]
pub enum DummyError {
    /// Its socket is not an IPv4 one.
    NotIpv4,
    /// There is no dummy of this index.
    NoSuchDummy { idx: u32 },
}

/// How the maps of the eBPF program learn about a dummy: its socket is stored
/// under `slot`, `slot` is stored under `key`, and `slot` is added to the free
/// ones.
pub struct Registration {
    pub idx: u32,
    /// The index as it is laid out in memory.
    pub slot: [u8; 4],
    /// The key of the dummy's connection.
    pub key: [u8; 16],
}

/// The dummies, by the keys of their connections, and the ones that have been
/// released and wait to be reset.
pub struct DummyPool {
    /// The byte order of the machine the pool is on.
    pub order: ByteOrder,
    pub keys: Vec<[u8; 16]>,
    /// The index of each released dummy and the time it was released at.
    pub released: VecDeque<(u32, u64)>,
}

/// The number of file descriptors a pool of `n` dummies needs.
pub open spec fn fds(n: int) -> int {
    2 * n + 1024
}

/// Every dummy takes up two file descriptors, one for either end, and 1024 are left for
/// everything else.
pub proof fn law_fds(n: int)
    ensures
        fds(0) == 1024,
        fds(n + 1) - fds(n) == 2,
{
}

/// Returns the number of file descriptors a pool of `n` dummies needs: both ends
/// of every dummy take up one, and the rest of the process has to get by as well.
pub fn fds_needed(n: usize) -> (needed: u64)
    requires
        2 * n + 1024 <= u64::MAX,
    ensures
        needed == fds(n as int),
{
    2 * n as u64 + 1024
}

/// What has to be done about the limit on open file descriptors.
#[derive(Clone, Copy, Debug, PartialEq, Eq, Structural)]
pub enum FdLimit {
    /// Nothing, the soft limit is high enough.
    Enough,
    /// Nothing can be done, the hard limit is too low.
    TooLow { hard: u64 },
    /// The soft limit has to be set.
    Raise { soft: u64 },
}

/// What has to be done for `needed` file descriptors to be open at once.
pub open spec fn fd_action(soft: u64, hard: u64, needed: u64) -> FdLimit {
    if soft >= needed {
        FdLimit::Enough
    } else if hard < needed {
        FdLimit::TooLow { hard }
    } else {
        FdLimit::Raise { soft: hard }
    }
}

/// The limit is left alone if it is high enough. Otherwise it is raised to the hard one,
/// and to nothing else, if that is high enough for what is needed, and to none if it is
/// not.
pub proof fn law_fd_limit(soft: u64, hard: u64, needed: u64)
    ensures
        ({
            let action = fd_action(soft, hard, needed);
            &&& action is Enough <==> soft >= needed
            &&& action is TooLow <==> soft < needed && hard < needed
            &&& action is TooLow ==> action->hard == hard
            &&& action is Raise ==> action->soft == hard && hard >= needed && hard > soft
        }),
{
}

/// Returns what has to be done for `needed` file descriptors to be open at once:
/// the soft limit is raised to the hard one if it is below that.
pub fn raise_fd_limit(soft: u64, hard: u64, needed: u64) -> (action: FdLimit)
    ensures
        action == fd_action(soft, hard, needed),
{
    if soft >= needed {
        return FdLimit::Enough;
    }
    if hard < needed {
        return FdLimit::TooLow { hard };
    }
    FdLimit::Raise { soft: hard }
}

/// How long ago `then` was at `now`.
pub open spec fn elapsed(now: u64, then: u64) -> int {
    if now < then {
        0
    } else {
        now - then
    }
}

/// The dummies that wait to be reset once `record` has come in behind `queue`.
pub open spec fn queued(
    order: ByteOrder,
    queue: Seq<(u32, u64)>,
    record: Seq<u8>,
    now: u64,
) -> Seq<(u32, u64)> {
    if record.len() == 4 {
        queue.push((net::u32_value(order, record) as u32, now))
    } else {
        queue
    }
}

/// The dummy of `queue` that is due to be reset at the time `now`, and the ones that go
/// on waiting.
pub open spec fn due(queue: Seq<(u32, u64)>, now: u64) -> (Option<u32>, Seq<(u32, u64)>) {
    if queue.len() > 0 && elapsed(now, queue[0].1) >= QUARANTINE {
        (Some(queue[0].0), queue.skip(1))
    } else {
        (None, queue)
    }
}

/// Whether `r` and `after` are what comes of adding the dummy whose connection is
/// between `local` and `remote` to the pool `before`.
pub open spec fn registers(
    before: DummyPool,
    local: Address,
    remote: Address,
    r: Result<Registration, DummyError>,
    after: DummyPool,
) -> bool {
    &&& after.order == before.order
    &&& after.released@ == before.released@
    &&& match net::conn_key_bytes(before.order, local, remote) {
        Some(key) => {
            &&& r is Ok
            &&& r->Ok_0.idx == before.keys@.len()
            &&& r->Ok_0.slot@ == net::u32_bytes(before.order, r->Ok_0.idx)
            &&& r->Ok_0.key@ == key
            &&& after.keys@ == before.keys@.push(r->Ok_0.key)
        },
        None => {
            &&& r == Err::<Registration, DummyError>(DummyError::NotIpv4)
            &&& after.keys@ == before.keys@
        },
    }
}

/// Whether `r` is what comes of starting to reset a dummy of `pool`.
pub open spec fn resets(pool: DummyPool, idx: u32, r: Result<Reset, DummyError>) -> bool {
    match r {
        Ok(reset) => {
            &&& idx < pool.keys@.len()
            &&& reset.idx == idx
            &&& reset.slot@ == net::u32_bytes(pool.order, idx)
            &&& reset.key == pool.keys@[idx as int]
            &&& reset.step == ResetStep::Withdraw
        },
        Err(e) => idx >= pool.keys@.len() && e == DummyError::NoSuchDummy { idx },
    }
}

impl DummyPool {
    /// A pool without dummies on a machine of the given byte order.
    pub fn with_order(order: ByteOrder) -> (pool: DummyPool)
        ensures
            pool.order == order,
            pool.keys@ == Seq::<[u8; 16]>::empty(),
            pool.released@ == Seq::<(u32, u64)>::empty(),
    {
        DummyPool { order, keys: Vec::new(), released: VecDeque::new() }
    }

    /// A pool without dummies on this machine.
    pub fn new() -> (pool: DummyPool)
        ensures
            pool.keys@ == Seq::<[u8; 16]>::empty(),
            pool.released@ == Seq::<(u32, u64)>::empty(),
    {
        DummyPool::with_order(net::native_order())
    }

    /// Adds the dummy whose connection is between `local` and `remote`.
    pub fn register(&mut self, local: Address, remote: Address) -> (r: Result<
        Registration,
        DummyError,
    >)
        requires
            old(self).keys@.len() <= u32::MAX,
        ensures
            registers(*old(self), local, remote, r, *final(self)),
    {
        match net::conn_key_in(self.order, local, remote) {
            Some(key) => {
                let idx: u32 = self.keys.len() as u32;
                self.keys.push(key);
                Ok(Registration { idx, slot: net::write_u32(self.order, idx), key })
            },
            None => Err(DummyError::NotIpv4),
        }
    }

    /// Takes in a record that the eBPF program has put into the ring buffer of
    /// released dummies at the time `now`. A record that is not an index is
    /// ignored.
    pub fn release(&mut self, record: &[u8], now: u64)
        ensures
            final(self).order == old(self).order,
            final(self).keys@ == old(self).keys@,
            final(self).released@ == queued(
                old(self).order,
                old(self).released@,
                record@,
                now,
            ),
    {
        if record.len() == 4 {
            let b: [u8; 4] = [record[0], record[1], record[2], record[3]];
            assert(b@ =~= record@);
            self.released.push_back((net::read_u32(self.order, b), now));
        }
    }

    /// Returns the dummy that was released first if it has been left alone for
    /// long enough at the time `now`. It is not waiting to be reset any more.
    pub fn next_due(&mut self, now: u64) -> (due: Option<u32>)
        ensures
            final(self).order == old(self).order,
            final(self).keys@ == old(self).keys@,
            (due, final(self).released@) == self::due(old(self).released@, now),
    {
        if self.released.len() == 0 {
            return None;
        }
        let (idx, at) = self.released[0];
        let since: u64 = if now < at { 0 } else { now - at };
        if since < QUARANTINE {
            return None;
        }
        let _ = self.released.pop_front();
        assert(self.released@ =~= old(self).released@.skip(1));
        Some(idx)
    }

    /// Starts to reset a dummy.
    pub fn reset(&self, idx: u32) -> (r: Result<Reset, DummyError>)
        ensures
            resets(*self, idx, r),
    {
        let i: usize = idx as usize;
        if i >= self.keys.len() {
            return Err(DummyError::NoSuchDummy { idx });
        }
        Ok(
            Reset {
                idx,
                slot: net::write_u32(self.order, idx),
                key: self.keys[i],
                step: ResetStep::Withdraw,
            },
        )
    }
}

/// A dummy that has been registered is known by its index and by the key of its
/// connection, and it is reset by just those. It can be registered if both of its ends
/// are IPv4.
pub proof fn law_registered(
    before: DummyPool,
    local: Address,
    remote: Address,
    r: Result<Registration, DummyError>,
    after: DummyPool,
    reset: Result<Reset, DummyError>,
)
    requires
        registers(before, local, remote, r, after),
    ensures
        r is Ok <==> local is V4 && remote is V4,
        r is Err ==> r->Err_0 == DummyError::NotIpv4 && after.keys@ == before.keys@,
        r is Ok ==> {
            &&& r->Ok_0.idx == before.keys@.len()
            &&& after.keys@.len() == before.keys@.len() + 1
            &&& net::u32_value(before.order, r->Ok_0.slot@) == r->Ok_0.idx
            &&& r->Ok_0.key@.subrange(0, 4) == local->ip@
            &&& net::u32_value(before.order, r->Ok_0.key@.subrange(4, 8)) == local->port
            &&& r->Ok_0.key@.subrange(8, 12) == remote->ip@
            &&& net::u32_value(before.order, r->Ok_0.key@.subrange(12, 16)) == remote->port
        },
        r is Ok && resets(after, r->Ok_0.idx, reset) ==> {
            &&& reset is Ok
            &&& reset->Ok_0.idx == r->Ok_0.idx
            &&& reset->Ok_0.slot@ == r->Ok_0.slot@
            &&& reset->Ok_0.key == r->Ok_0.key
        },
{
    net::law_conn_key(before.order, local, remote);
    if r is Ok {
        net::law_byte_order(before.order, r->Ok_0.idx);
    }
}

/// A dummy is not affected by those that are registered behind it, and there is none but
/// those that have been registered.
pub proof fn law_register_keeps(
    before: DummyPool,
    local: Address,
    remote: Address,
    r: Result<Registration, DummyError>,
    after: DummyPool,
    idx: u32,
    reset: Result<Reset, DummyError>,
    reset_after: Result<Reset, DummyError>,
)
    requires
        registers(before, local, remote, r, after),
        resets(before, idx, reset),
        resets(after, idx, reset_after),
    ensures
        reset is Ok <==> idx < before.keys@.len(),
        reset is Err ==> reset->Err_0 == (DummyError::NoSuchDummy { idx }),
        reset is Ok ==> {
            &&& reset_after is Ok
            &&& reset_after->Ok_0.slot@ == reset->Ok_0.slot@
            &&& reset_after->Ok_0.key == reset->Ok_0.key
            &&& reset_after->Ok_0.step == ResetStep::Withdraw
        },
{
}

/// The index of a released dummy is taken in behind those before it, as the machine lays
/// it out. A record of any other size is not.
pub proof fn law_released(
    order: ByteOrder,
    queue: Seq<(u32, u64)>,
    idx: u32,
    record: Seq<u8>,
    now: u64,
)
    ensures
        queued(order, queue, net::u32_bytes(order, idx), now) == queue.push((idx, now)),
        record.len() != 4 ==> queued(order, queue, record, now) == queue,
{
    net::law_byte_order(order, idx);
}

/// A released dummy is reset once 100 milliseconds have passed and not before, those
/// that were released first going first, and it is reset once.
pub proof fn law_due(queue: Seq<(u32, u64)>, now: u64)
    ensures
        ({
            let (idx, rest) = due(queue, now);
            &&& idx is Some <==> queue.len() > 0 && now >= queue[0].1 + 100_000_000
            &&& idx is Some ==> seq![(idx->Some_0, queue[0].1)] + rest == queue
            &&& idx is None ==> rest == queue
        }),
{
    if queue.len() > 0 {
        assert(seq![queue[0]] + queue.skip(1) =~= queue);
    }
}

/// Whether the dummies of `queue` are in the order they were released in.
pub open spec fn in_order(queue: Seq<(u32, u64)>) -> bool {
    forall|i: int, j: int| 0 <= i <= j < queue.len() ==> queue[i].1 <= queue[j].1
}

/// As long as time does not go backwards, the dummies that wait to be reset stay
/// in the order they were released in.
pub proof fn law_release_order(queue: Seq<(u32, u64)>, idx: u32, now: u64)
    requires
        in_order(queue),
        queue.len() > 0 ==> queue.last().1 <= now,
    ensures
        in_order(queue.push((idx, now))),
        queue.len() > 0 ==> in_order(queue.skip(1)),
{
}

/// No dummy waits for longer than it has to: if the one that was released first
/// is not due yet, none is.
pub proof fn law_none_overdue(queue: Seq<(u32, u64)>, now: u64, i: int)
    requires
        in_order(queue),
        0 <= i < queue.len(),
        elapsed(now, queue[0].1) < QUARANTINE,
    ensures
        elapsed(now, queue[i].1) < QUARANTINE,
{
    assert(queue[0].1 <= queue[i].1);
}

/// What has to be done next to reset a dummy.
#[derive(Clone, Copy, Debug, PartialEq, Eq, Structural)]
pub enum ResetStep {
    /// Take it out of the map. That drops its psock, and with it an unfinished
    /// message or cork, or a send the backlog gave up on.
    Withdraw,
    /// Read the error off its socket. A send the backlog gave up on leaves one,
    /// which fails every send after it until it is read.
    ClearError,
    /// Add it to the map again, which sets up a fresh psock.
    Reinsert,
    /// Delete the parser's entry for its connection. The parser starts a
    /// connection it has no entry for with an empty table.
    ForgetTable,
    /// Add it to the free ones.
    Free,
    /// Nothing, it is back in the pool.
    Done,
    /// Nothing, it is lost to the pool.
    Lost,
}

/// How a step went.
#[derive(Clone, Copy, Debug, PartialEq, Eq, Structural)]
pub enum Outcome {
    Success,
    /// It failed because there was nothing to delete.
    NotFound,
    /// It failed for another reason.
    Failed,
}

/// The step that follows `step` after it went as `outcome` says. It is only for
/// the parser's entry that there need not be one.
pub open spec fn following(step: ResetStep, outcome: Outcome) -> ResetStep {
    match (step, outcome) {
        (ResetStep::Withdraw, Outcome::Success) => ResetStep::ClearError,
        (ResetStep::ClearError, Outcome::Success) => ResetStep::Reinsert,
        (ResetStep::Reinsert, Outcome::Success) => ResetStep::ForgetTable,
        (ResetStep::ForgetTable, Outcome::Success) => ResetStep::Free,
        (ResetStep::ForgetTable, Outcome::NotFound) => ResetStep::Free,
        (ResetStep::Free, Outcome::Success) => ResetStep::Done,
        (ResetStep::Done, _) => ResetStep::Done,
        _ => ResetStep::Lost,
    }
}

/// A dummy that is being reset: what the connection it was lent to left behind is
/// cleared, and the dummy is put back into the pool.
pub struct Reset {
    pub idx: u32,
    /// The index as it is laid out in memory.
    pub slot: [u8; 4],
    /// The key of the dummy's connection.
    pub key: [u8; 16],
    /// What has to be done next.
    pub step: ResetStep,
}

impl Reset {
    /// Takes in how the current step went and returns the next one.
    pub fn advance(&mut self, outcome: Outcome) -> (step: ResetStep)
        ensures
            step == following(old(self).step, outcome),
            *final(self) == (Reset { step, ..*old(self) }),
    {
        let step: ResetStep = match (self.step, outcome) {
            (ResetStep::Withdraw, Outcome::Success) => ResetStep::ClearError,
            (ResetStep::ClearError, Outcome::Success) => ResetStep::Reinsert,
            (ResetStep::Reinsert, Outcome::Success) => ResetStep::ForgetTable,
            (ResetStep::ForgetTable, Outcome::Success) => ResetStep::Free,
            (ResetStep::ForgetTable, Outcome::NotFound) => ResetStep::Free,
            (ResetStep::Free, Outcome::Success) => ResetStep::Done,
            (ResetStep::Done, _) => ResetStep::Done,
            _ => ResetStep::Lost,
        };
        self.step = step;
        step
    }
}

/// The step a reset is at after `outcomes`.
pub open spec fn step_after(outcomes: Seq<Outcome>) -> ResetStep
    decreases outcomes.len(),
{
    if outcomes.len() == 0 {
        ResetStep::Withdraw
    } else {
        following(step_after(outcomes.drop_last()), outcomes.last())
    }
}

/// The step a reset is at if `n` steps went well.
pub open spec fn nth_step(n: int) -> ResetStep {
    if n <= 0 {
        ResetStep::Withdraw
    } else if n == 1 {
        ResetStep::ClearError
    } else if n == 2 {
        ResetStep::Reinsert
    } else if n == 3 {
        ResetStep::ForgetTable
    } else if n == 4 {
        ResetStep::Free
    } else {
        ResetStep::Done
    }
}

/// Whether there are `n` steps of a reset that all went well. It is only for the fourth
/// of them, the deletion of the parser's entry, that there need not be one.
pub open spec fn went_well(outcomes: Seq<Outcome>, n: int) -> bool {
    &&& outcomes.len() >= n
    &&& forall|i: int|
        0 <= i < n ==> (#[trigger] outcomes[i] == Outcome::Success || i == 3 && outcomes[i]
            == Outcome::NotFound)
}

/// A reset goes through its steps in order, and a dummy only goes back into the pool
/// once everything that a connection may have left behind is cleared. It is freed right after all the steps in front of
/// that have gone well, and it is back once that has gone well too. A dummy whose
/// reset has failed anywhere is never freed.
pub proof fn law_reset(outcomes: Seq<Outcome>)
    ensures
        outcomes.len() == 0 ==> step_after(outcomes) == ResetStep::Withdraw,
        outcomes.len() == 1 && went_well(outcomes, 1) ==> step_after(outcomes)
            == ResetStep::ClearError,
        outcomes.len() == 2 && went_well(outcomes, 2) ==> step_after(outcomes)
            == ResetStep::Reinsert,
        outcomes.len() == 3 && went_well(outcomes, 3) ==> step_after(outcomes)
            == ResetStep::ForgetTable,
        step_after(outcomes) == ResetStep::Free <==> outcomes.len() == 4 && went_well(outcomes, 4),
        step_after(outcomes) == ResetStep::Done <==> went_well(outcomes, 5),
        step_after(outcomes) == ResetStep::Lost <==> !went_well(
            outcomes,
            if outcomes.len() < 5 {
                outcomes.len() as int
            } else {
                5
            },
        ),
{
    lemma_step_after(outcomes);
}

proof fn lemma_step_after(outcomes: Seq<Outcome>)
    ensures
        ({
            let n = if outcomes.len() < 5 {
                outcomes.len() as int
            } else {
                5
            };
            step_after(outcomes) == if went_well(outcomes, n) {
                nth_step(n)
            } else {
                ResetStep::Lost
            }
        }),
    decreases outcomes.len(),
{
    if outcomes.len() > 0 {
        let init = outcomes.drop_last();
        lemma_step_after(init);
        assert forall|i: int| 0 <= i < init.len() implies init[i] == outcomes[i] by {}
        assert(outcomes.last() == outcomes[outcomes.len() - 1]);
    }
}

} // verus!

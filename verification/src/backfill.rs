//! The bookkeeping of a backfill: which batch each worker holds, and how far
//! the range is persisted without a gap.
//!
//! The pool does no fetching itself. A worker asks it for a batch, fetches
//! and persists the batch's blocks, and reports back. What the pool answers
//! to a report are the batches that the watermark may now move over, in
//! their order.

use crate::batch::{
    boundary, lemma_boundary_monotone, lemma_boundary_settles, lemma_boundary_step, next_batch,
    nth_batch, Batch,
};
use crate::error::{ConfigError, PipelineError, RpcError};
use crate::retry::{decision, RetryDecision, RetryPolicy};
use vstd::prelude::*;

verus! {

/// What one worker is doing.
#[derive(Debug, Clone, Copy, PartialEq, Eq, Structural)]
pub enum Slot {
    /// The worker holds no batch.
    Idle,
    /// The worker holds the batch number `index`, and has failed to fetch it
    /// `failures` times.
    Busy { index: u64, batch: Batch, failures: u32 },
}

/// The state of a backfill over the heights from `first` to `last`.
pub struct BackfillPool {
    first: i64,
    last: i64,
    size: usize,
    policy: RetryPolicy,
    handed: u64,
    cursor: i64,
    settled: u64,
    frontier: i64,
    slots: Vec<Slot>,
    failure: Option<PipelineError>,
}

/// What a `BackfillPool` holds, as plain values: the range and how it is cut,
/// how many batches have been handed out, how many of them are persisted
/// together with all before them, the workers' slots, and the first fatal
/// fault.
pub struct PoolModel {
    pub first: int,
    pub last: int,
    pub size: int,
    pub policy: RetryPolicy,
    pub handed: nat,
    pub settled: nat,
    pub slots: Seq<Slot>,
    pub failure: Option<PipelineError>,
}

/// The least batch number that a worker still holds, or `otherwise` if no
/// worker holds one below it.
pub open spec fn lowest_busy(slots: Seq<Slot>, otherwise: nat) -> nat
    decreases slots.len(),
{
    if slots.len() == 0 {
        otherwise
    } else {
        let rest = lowest_busy(slots.drop_last(), otherwise);
        match slots.last() {
            Slot::Busy { index, .. } => if (index as nat) < rest {
                index as nat
            } else {
                rest
            },
            Slot::Idle => rest,
        }
    }
}

/// `lowest_busy` is a lower bound of the batch numbers held and of
/// `otherwise`, and it is one of them.
pub proof fn lemma_lowest_busy(slots: Seq<Slot>, otherwise: nat)
    ensures
        lowest_busy(slots, otherwise) <= otherwise,
        forall|i: int|
            0 <= i < slots.len() && (#[trigger] slots[i]) is Busy ==> lowest_busy(slots, otherwise)
                <= slots[i]->index,
        lowest_busy(slots, otherwise) == otherwise || exists|i: int|
            0 <= i < slots.len() && (#[trigger] slots[i]) is Busy && slots[i]->index
                == lowest_busy(slots, otherwise),
    decreases slots.len(),
{
    if slots.len() > 0 {
        let front = slots.drop_last();
        lemma_lowest_busy(front, otherwise);
        let rest = lowest_busy(front, otherwise);
        assert forall|i: int| 0 <= i < slots.len() && (#[trigger] slots[i]) is Busy implies lowest_busy(
            slots,
            otherwise,
        ) <= slots[i]->index by {
            if i < front.len() {
                assert(front[i] == slots[i]);
            }
        }
        if lowest_busy(slots, otherwise) != otherwise {
            if lowest_busy(slots, otherwise) == rest {
                let i = choose|i: int|
                    0 <= i < front.len() && (#[trigger] front[i]) is Busy && front[i]->index
                        == rest;
                assert(slots[i] == front[i]);
            } else {
                assert(slots[slots.len() - 1] is Busy);
            }
        }
    }
}

/// Only one number is a lower bound of the batch numbers held and of
/// `otherwise` and also one of them.
pub proof fn lemma_lowest_busy_is(slots: Seq<Slot>, otherwise: nat, low: nat)
    requires
        low <= otherwise,
        forall|i: int| 0 <= i < slots.len() && (#[trigger] slots[i]) is Busy ==> low <= slots[i]->index,
        low == otherwise || exists|i: int|
            0 <= i < slots.len() && (#[trigger] slots[i]) is Busy && slots[i]->index == low,
    ensures
        low == lowest_busy(slots, otherwise),
{
    lemma_lowest_busy(slots, otherwise);
}

/// The number of workers that hold a batch.
pub open spec fn busy_count(slots: Seq<Slot>) -> nat
    decreases slots.len(),
{
    if slots.len() == 0 {
        0
    } else {
        busy_count(slots.drop_last()) + if slots.last() is Busy {
            1nat
        } else {
            0nat
        }
    }
}

/// Changing one slot changes the number of busy workers by that slot alone.
pub proof fn lemma_busy_count_update(slots: Seq<Slot>, i: int, slot: Slot)
    requires
        0 <= i < slots.len(),
    ensures
        busy_count(slots.update(i, slot)) + (if slots[i] is Busy {
            1nat
        } else {
            0nat
        }) == busy_count(slots) + (if slot is Busy {
            1nat
        } else {
            0nat
        }),
    decreases slots.len(),
{
    if i == slots.len() - 1 {
        assert(slots.update(i, slot).drop_last() =~= slots.drop_last());
    } else {
        lemma_busy_count_update(slots.drop_last(), i, slot);
        assert(slots.update(i, slot).drop_last() =~= slots.drop_last().update(i, slot));
    }
}

/// Where no worker holds a batch, the number of busy workers is zero.
pub proof fn lemma_busy_count_none(slots: Seq<Slot>)
    requires
        forall|i: int| 0 <= i < slots.len() ==> (#[trigger] slots[i]) is Idle,
    ensures
        busy_count(slots) == 0,
    decreases slots.len(),
{
    if slots.len() > 0 {
        let front = slots.drop_last();
        assert forall|i: int| 0 <= i < front.len() implies (#[trigger] front[i]) is Idle by {
            assert(front[i] == slots[i]);
        }
        lemma_busy_count_none(front);
    }
}

impl PoolModel {
    /// The last height that has been handed out.
    pub open spec fn cursor(self) -> int {
        boundary(self.first, self.last, self.size, self.handed)
    }

    /// The height up to which the range is persisted without a gap.
    pub open spec fn frontier(self) -> int {
        boundary(self.first, self.last, self.size, self.settled)
    }

    /// Whether `slot` holds the batch that its number names.
    pub open spec fn holds_its_batch(self, slot: Slot) -> bool {
        slot matches Slot::Busy { index, batch, .. } ==> {
            &&& index < self.handed
            &&& batch.wf()
            &&& batch.start == nth_batch(self.first, self.last, self.size, index as nat).0
            &&& batch.end == nth_batch(self.first, self.last, self.size, index as nat).1
        }
    }

    /// What holds of every pool: the batches handed out are real ones, each
    /// worker's batch is the one its number names, and the batches settled
    /// are those below the least number that a worker still holds.
    pub open spec fn wf(self) -> bool {
        &&& self.size > 0
        &&& 0 <= self.first <= i64::MAX
        &&& self.last <= i64::MAX
        &&& self.handed > 0 ==> boundary(self.first, self.last, self.size, (self.handed - 1) as nat)
            < self.last
        &&& self.handed <= self.cursor() - self.first + 1
        &&& forall|i: int| 0 <= i < self.slots.len() ==> self.holds_its_batch(#[trigger] self.slots[i])
        &&& self.settled == lowest_busy(self.slots, self.handed)
    }

    /// Whether `worker` would be given a batch.
    pub open spec fn can_take(self, worker: int) -> bool {
        &&& 0 <= worker < self.slots.len()
        &&& self.slots[worker] is Idle
        &&& self.failure is None
        &&& self.cursor() < self.last
    }

    /// The pool after `worker` has been given the next batch.
    pub open spec fn took(self, worker: int) -> PoolModel {
        let (start, end) = nth_batch(self.first, self.last, self.size, self.handed);
        PoolModel {
            handed: self.handed + 1,
            slots: self.slots.update(
                worker,
                Slot::Busy {
                    index: self.handed as u64,
                    batch: Batch { start: start as i64, end: end as i64 },
                    failures: 0,
                },
            ),
            ..self
        }
    }

    /// Whether `worker` holds a batch.
    pub open spec fn busy(self, worker: int) -> bool {
        0 <= worker < self.slots.len() && self.slots[worker] is Busy
    }

    /// The pool after the batch of `worker` has been persisted.
    pub open spec fn persisted(self, worker: int) -> PoolModel {
        if self.busy(worker) {
            let slots = self.slots.update(worker, Slot::Idle);
            PoolModel { settled: lowest_busy(slots, self.handed), slots, ..self }
        } else {
            self
        }
    }

    /// The pool with `fault` noted, unless an earlier fault is already noted.
    pub open spec fn failed_with(self, fault: PipelineError) -> PoolModel {
        if self.failure is None {
            PoolModel { failure: Some(fault), ..self }
        } else {
            self
        }
    }

    /// The pool after `worker` has failed once more to fetch its batch.
    pub open spec fn fetch_failed(self, worker: int, error: RpcError) -> PoolModel {
        if self.busy(worker) {
            let failures = self.slots[worker]->failures + 1;
            match decision(self.policy, failures as nat) {
                RetryDecision::RetryAfter(_) => PoolModel {
                    slots: self.slots.update(
                        worker,
                        Slot::Busy {
                            index: self.slots[worker]->index,
                            batch: self.slots[worker]->batch,
                            failures: failures as u32,
                        },
                    ),
                    ..self
                },
                RetryDecision::GiveUp => self.failed_with(PipelineError::Rpc(error)),
            }
        } else {
            self
        }
    }

    /// Whether nothing is left to do: every batch has been handed out, no
    /// worker holds one, and nothing failed.
    pub open spec fn finished(self) -> bool {
        &&& self.failure is None
        &&& self.cursor() >= self.last
        &&& forall|i: int| 0 <= i < self.slots.len() ==> (#[trigger] self.slots[i]) is Idle
    }
}

impl View for BackfillPool {
    type V = PoolModel;

    closed spec fn view(&self) -> PoolModel {
        PoolModel {
            first: self.first as int,
            last: self.last as int,
            size: self.size as int,
            policy: self.policy,
            handed: self.handed as nat,
            settled: self.settled as nat,
            slots: self.slots@,
            failure: self.failure,
        }
    }
}

impl BackfillPool {
    #[verifier::type_invariant]
    spec fn inv(&self) -> bool {
        &&& self@.wf()
        &&& self.cursor == self@.cursor()
        &&& self.frontier == self@.frontier()
    }

    /// A pool with nothing handed out, for putting in the place of one that
    /// is being changed.
    fn blank(policy: RetryPolicy) -> (pool: BackfillPool)
        ensures
            pool@ == (PoolModel {
                first: 0,
                last: -1,
                size: 1,
                policy,
                handed: 0,
                settled: 0,
                slots: Seq::empty(),
                failure: None,
            }),
            pool@.wf(),
            pool@.finished(),
    {
        proof {
            lemma_lowest_busy_is(Seq::<Slot>::empty(), 0, 0);
        }
        BackfillPool {
            first: 0,
            last: -1,
            size: 1,
            policy,
            handed: 0,
            cursor: -1,
            settled: 0,
            frontier: -1,
            slots: Vec::new(),
            failure: None,
        }
    }

    /// A pool for the heights from `first` to `last`, cut into batches of
    /// `batch_size` heights, with `worker_count` idle workers. For `last`
    /// below `first` the pool is finished from the start.
    pub fn new(
        first: i64,
        last: i64,
        batch_size: usize,
        worker_count: usize,
        policy: RetryPolicy,
    ) -> (made: Result<BackfillPool, ConfigError>)
        ensures
            made is Ok <==> first >= 0 && batch_size > 0 && worker_count > 0,
            match made {
                Ok(pool) => pool@.wf() && pool@ == (PoolModel {
                    first: first as int,
                    last: last as int,
                    size: batch_size as int,
                    policy,
                    handed: 0,
                    settled: 0,
                    slots: Seq::new(worker_count as nat, |i: int| Slot::Idle),
                    failure: None,
                }),
                Err(e) => e == if first < 0 {
                    ConfigError::NegativeHeight
                } else if batch_size == 0 {
                    ConfigError::ZeroBatchSize
                } else {
                    ConfigError::ZeroWorkers
                },
            },
    {
        if first < 0 {
            return Err(ConfigError::NegativeHeight);
        }
        if batch_size == 0 {
            return Err(ConfigError::ZeroBatchSize);
        }
        if worker_count == 0 {
            return Err(ConfigError::ZeroWorkers);
        }
        let mut slots: Vec<Slot> = Vec::new();
        let mut i: usize = 0;
        while i < worker_count
            invariant
                i <= worker_count,
                slots@ == Seq::new(i as nat, |j: int| Slot::Idle),
            decreases worker_count - i,
        {
            slots.push(Slot::Idle);
            assert(slots@ =~= Seq::new((i + 1) as nat, |j: int| Slot::Idle));
            i = i + 1;
        }
        proof {
            lemma_lowest_busy_is(slots@, 0, 0);
        }
        Ok(
            BackfillPool {
                first,
                last,
                size: batch_size,
                policy,
                handed: 0,
                cursor: first - 1,
                settled: 0,
                frontier: first - 1,
                slots,
                failure: None,
            },
        )
    }

    pub fn worker_count(&self) -> (count: usize)
        ensures
            count == self@.slots.len(),
    {
        self.slots.len()
    }

    /// What `worker` is doing. A pool always answers well-formed.
    pub fn slot(&self, worker: usize) -> (slot: Slot)
        ensures
            self@.wf(),
            slot == if worker < self@.slots.len() {
                self@.slots[worker as int]
            } else {
                Slot::Idle
            },
    {
        proof {
            use_type_invariant(self);
        }
        if worker < self.slots.len() {
            self.slots[worker]
        } else {
            Slot::Idle
        }
    }

    /// The height up to which the range is persisted without a gap.
    pub fn frontier(&self) -> (height: i64)
        ensures
            height == self@.frontier(),
    {
        proof {
            use_type_invariant(self);
        }
        self.frontier
    }

    /// The first fatal fault, if there was one.
    pub fn failure(&self) -> (fault: Option<PipelineError>)
        ensures
            fault == self@.failure,
    {
        self.failure
    }

    /// Whether nothing is left to do.
    pub fn is_done(&self) -> (done: bool)
        ensures
            done == self@.finished(),
    {
        proof {
            use_type_invariant(self);
        }
        if self.failure.is_some() || self.cursor < self.last {
            return false;
        }
        let mut i: usize = 0;
        while i < self.slots.len()
            invariant
                i <= self.slots.len(),
                forall|j: int| 0 <= j < i ==> (#[trigger] self.slots@[j]) is Idle,
            decreases self.slots.len() - i,
        {
            match self.slots[i] {
                Slot::Busy { .. } => {
                    return false;
                },
                Slot::Idle => {},
            }
            i = i + 1;
        }
        true
    }

    /// Gives `worker` the next batch of the range. There is none for a
    /// worker that still holds one or that the pool does not have, after a
    /// fatal fault, or when the whole range has been handed out.
    pub fn take(&mut self, worker: usize) -> (given: Option<Batch>)
        ensures
            given is Some <==> old(self)@.can_take(worker as int),
            given is Some ==> final(self)@ == old(self)@.took(worker as int),
            given is Some ==> final(self)@.slots[worker as int] == (Slot::Busy {
                index: old(self)@.handed as u64,
                batch: given->0,
                failures: 0,
            }),
            given is None ==> final(self)@ == old(self)@,
            final(self)@.wf(),
    {
        proof {
            use_type_invariant(&*self);
        }
        if worker >= self.slots.len() || self.failure.is_some() {
            return None;
        }
        match self.slots[worker] {
            Slot::Busy { .. } => {
                return None;
            },
            Slot::Idle => {},
        }
        let batch = match next_batch(self.cursor, self.last, self.size) {
            Some(batch) => batch,
            None => {
                return None;
            },
        };
        let ghost before = self@;
        proof {
            lemma_boundary_step(before.first, before.last, before.size, before.handed);
            lemma_lowest_busy(before.slots, before.handed);
        }
        let mut taken = BackfillPool::blank(self.policy);
        std::mem::swap(self, &mut taken);
        let BackfillPool { first, last, size, policy, handed, cursor, settled, frontier, slots, failure } =
            taken;
        let mut slots = slots;
        let held = Slot::Busy { index: handed, batch, failures: 0 };
        slots.set(worker, held);
        proof {
            let after = before.took(worker as int);
            assert(after.slots =~= slots@);
            assert forall|i: int| 0 <= i < after.slots.len() implies after.holds_its_batch(
                #[trigger] after.slots[i],
            ) by {
                if i != worker {
                    assert(before.holds_its_batch(before.slots[i]));
                }
            }
            if before.settled != before.handed {
                let i = choose|i: int|
                    0 <= i < before.slots.len() && (#[trigger] before.slots[i]) is Busy
                        && before.slots[i]->index == before.settled;
                assert(after.slots[i] == before.slots[i]);
            } else {
                assert(after.slots[worker as int] is Busy);
            }
            assert forall|i: int| 0 <= i < after.slots.len() && (#[trigger] after.slots[i]) is Busy implies before.settled
                <= after.slots[i]->index by {
                if i != worker {
                    assert(before.slots[i] is Busy);
                }
            }
            lemma_lowest_busy_is(after.slots, after.handed, before.settled);
        }
        *self = BackfillPool {
            first,
            last,
            size,
            policy,
            handed: handed + 1,
            cursor: batch.end,
            settled,
            frontier,
            slots,
            failure,
        };
        Some(batch)
    }

    /// Notes that the batch of `worker` has been persisted, and frees the
    /// worker. Returns the batches that are thereby persisted together with
    /// all before them, in rising order: the watermark can be moved over
    /// each in turn. A batch that was finished before an earlier one waits
    /// until that one is reported. For a worker that holds no batch nothing
    /// changes.
    pub fn on_persisted(&mut self, worker: usize) -> (settled: Vec<Batch>)
        ensures
            final(self)@ == old(self)@.persisted(worker as int),
            final(self)@.wf(),
            old(self)@.settled <= final(self)@.settled,
            settled@.len() == final(self)@.settled - old(self)@.settled,
            forall|i: int|
                0 <= i < settled@.len() ==> {
                    &&& (#[trigger] settled@[i]).wf()
                    &&& settled@[i].start == nth_batch(
                        old(self)@.first,
                        old(self)@.last,
                        old(self)@.size,
                        (old(self)@.settled + i) as nat,
                    ).0
                    &&& settled@[i].end == nth_batch(
                        old(self)@.first,
                        old(self)@.last,
                        old(self)@.size,
                        (old(self)@.settled + i) as nat,
                    ).1
                },
    {
        proof {
            use_type_invariant(&*self);
        }
        let mut out: Vec<Batch> = Vec::new();
        if worker >= self.slots.len() {
            return out;
        }
        match self.slots[worker] {
            Slot::Idle => {
                return out;
            },
            Slot::Busy { .. } => {},
        }
        let ghost before = self@;
        let mut taken = BackfillPool::blank(self.policy);
        std::mem::swap(self, &mut taken);
        let BackfillPool { first, last, size, policy, handed, cursor, settled, frontier, slots, failure } =
            taken;
        let mut slots = slots;
        slots.set(worker, Slot::Idle);
        let ghost after = before.persisted(worker as int);
        assert(after.slots =~= slots@);
        let mut low: u64 = handed;
        let mut i: usize = 0;
        while i < slots.len()
            invariant
                i <= slots.len(),
                low == lowest_busy(slots@.take(i as int), handed as nat),
            decreases slots.len() - i,
        {
            assert(slots@.take(i + 1).drop_last() =~= slots@.take(i as int));
            match slots[i] {
                Slot::Busy { index, .. } => {
                    if index < low {
                        low = index;
                    }
                },
                Slot::Idle => {},
            }
            i = i + 1;
        }
        proof {
            assert(slots@.take(slots.len() as int) =~= slots@);
            lemma_lowest_busy(before.slots, before.handed);
            lemma_lowest_busy(after.slots, after.handed);
            if low != handed {
                let j = choose|j: int|
                    0 <= j < after.slots.len() && (#[trigger] after.slots[j]) is Busy
                        && after.slots[j]->index == low;
                assert(before.slots[j] == after.slots[j]);
            }
            assert forall|j: int| 0 <= j < after.slots.len() implies after.holds_its_batch(
                #[trigger] after.slots[j],
            ) by {
                if j != worker {
                    assert(before.holds_its_batch(before.slots[j]));
                }
            }
        }
        let mut at: i64 = frontier;
        let mut k: u64 = settled;
        while k < low
            invariant
                before.wf(),
                before.first == first,
                before.last == last,
                before.size == size,
                before.handed == handed,
                settled <= k <= low <= handed,
                at == boundary(first as int, last as int, size as int, k as nat),
                out@.len() == k - settled,
                forall|j: int|
                    0 <= j < out@.len() ==> {
                        &&& (#[trigger] out@[j]).wf()
                        &&& out@[j].start == nth_batch(
                            first as int,
                            last as int,
                            size as int,
                            (settled + j) as nat,
                        ).0
                        &&& out@[j].end == nth_batch(
                            first as int,
                            last as int,
                            size as int,
                            (settled + j) as nat,
                        ).1
                    },
            decreases low - k,
        {
            proof {
                lemma_boundary_monotone(
                    first as int,
                    last as int,
                    size as int,
                    k as nat,
                    (handed - 1) as nat,
                );
                lemma_boundary_step(first as int, last as int, size as int, k as nat);
            }
            let batch = next_batch(at, last, size).unwrap();
            out.push(batch);
            at = batch.end;
            k = k + 1;
        }
        *self = BackfillPool {
            first,
            last,
            size,
            policy,
            handed,
            cursor,
            settled: low,
            frontier: at,
            slots,
            failure,
        };
        out
    }

    /// Notes that `worker` has failed once more to fetch its batch, and says
    /// whether it may try again. When the attempts are used up the fault
    /// becomes the pool's, the worker keeps its batch, and no further batch
    /// is handed out. A worker that holds no batch has nothing to retry.
    pub fn on_fetch_failed(&mut self, worker: usize, error: RpcError) -> (verdict: RetryDecision)
        ensures
            final(self)@ == old(self)@.fetch_failed(worker as int, error),
            final(self)@.wf(),
            verdict == if old(self)@.busy(worker as int) {
                decision(
                    old(self)@.policy,
                    (old(self)@.slots[worker as int]->failures + 1) as nat,
                )
            } else {
                RetryDecision::GiveUp
            },
    {
        proof {
            use_type_invariant(&*self);
        }
        if worker >= self.slots.len() {
            return RetryDecision::GiveUp;
        }
        let (index, batch, failures) = match self.slots[worker] {
            Slot::Idle => {
                return RetryDecision::GiveUp;
            },
            Slot::Busy { index, batch, failures } => (index, batch, failures),
        };
        let verdict = if failures < u32::MAX {
            self.policy.decide(failures + 1)
        } else {
            RetryDecision::GiveUp
        };
        let ghost before = self@;
        match verdict {
            RetryDecision::GiveUp => {
                if self.failure.is_none() {
                    self.failure = Some(PipelineError::Rpc(error));
                }
            },
            RetryDecision::RetryAfter(_) => {
                let mut taken = BackfillPool::blank(self.policy);
                std::mem::swap(self, &mut taken);
                let BackfillPool {
                    first,
                    last,
                    size,
                    policy,
                    handed,
                    cursor,
                    settled,
                    frontier,
                    slots,
                    failure,
                } = taken;
                let mut slots = slots;
                slots.set(worker, Slot::Busy { index, batch, failures: failures + 1 });
                proof {
                    let after = before.fetch_failed(worker as int, error);
                    assert(after.slots =~= slots@);
                    lemma_lowest_busy(before.slots, before.handed);
                    assert forall|j: int| 0 <= j < after.slots.len() implies after.holds_its_batch(
                        #[trigger] after.slots[j],
                    ) by {
                        assert(before.holds_its_batch(before.slots[j]));
                    }
                    assert forall|j: int|
                        0 <= j < after.slots.len() && (#[trigger] after.slots[j]) is Busy implies before.settled
                        <= after.slots[j]->index by {
                        assert(before.slots[j] is Busy);
                    }
                    if before.settled != before.handed {
                        let j = choose|j: int|
                            0 <= j < before.slots.len() && (#[trigger] before.slots[j]) is Busy
                                && before.slots[j]->index == before.settled;
                        assert(after.slots[j] is Busy && after.slots[j]->index == before.settled);
                    }
                    lemma_lowest_busy_is(after.slots, after.handed, before.settled);
                }
                *self = BackfillPool {
                    first,
                    last,
                    size,
                    policy,
                    handed,
                    cursor,
                    settled,
                    frontier,
                    slots,
                    failure,
                };
            },
        }
        verdict
    }

    /// Notes that the store refused the batch of `worker`: the fault becomes
    /// the pool's, the worker keeps its batch, and no further batch is
    /// handed out.
    pub fn on_persist_failed(&mut self, worker: usize)
        ensures
            final(self)@ == if old(self)@.busy(worker as int) {
                old(self)@.failed_with(PipelineError::Persistence)
            } else {
                old(self)@
            },
            final(self)@.wf(),
    {
        proof {
            use_type_invariant(&*self);
        }
        if worker >= self.slots.len() {
            return ;
        }
        match self.slots[worker] {
            Slot::Idle => {},
            Slot::Busy { .. } => {
                if self.failure.is_none() {
                    self.failure = Some(PipelineError::Persistence);
                }
            },
        }
    }
}

/// A finished pool has settled every batch that it handed out, and its
/// frontier stands at the end of the range, or just below the start of a
/// range that holds no height.
pub proof fn lemma_finished_pool(pool: PoolModel)
    requires
        pool.wf(),
        pool.finished(),
    ensures
        pool.settled == pool.handed,
        pool.frontier() == if pool.first <= pool.last {
            pool.last
        } else {
            pool.first - 1
        },
{
    lemma_lowest_busy(pool.slots, pool.handed);
    lemma_boundary_step(pool.first, pool.last, pool.size, pool.handed);
    if pool.last < pool.first {
        lemma_boundary_settles(pool.first, pool.last, pool.size, 0, pool.handed);
    }
}

} // verus!

//! Backfill of a range of heights from a snapshot into a store, by a pool
//! of workers that finish their batches in any order.

use crate::backfill::{
    busy_count, lemma_busy_count_none, lemma_busy_count_update, lemma_finished_pool, BackfillPool,
    PoolModel, Slot,
};
use crate::batch::{boundary, lemma_boundary_monotone, lemma_boundary_step, nth_batch, Batch};
use crate::block::{models, BlockModel, BlockRecord};
use crate::error::{ConfigError, PipelineError, RpcError};
use crate::retry::{RetryDecision, RetryPolicy};
use crate::snapshot::{lemma_snapshot_range, ChainSnapshot, SnapshotModel};
use crate::store::{lemma_upserted_run, storable, BlockStore, StoreModel};
use vstd::prelude::*;

verus! {

/// The stored blocks after the provider's blocks at the heights from `start`
/// to `end` have been written over them.
pub open spec fn overlaid(
    blocks: Map<int, BlockModel>,
    provider: SnapshotModel,
    start: int,
    end: int,
) -> Map<int, BlockModel> {
    Map::new(
        |h: int| blocks.contains_key(h) || start <= h <= end,
        |h: int|
            if start <= h <= end {
                provider.at(h)
            } else {
                blocks[h]
            },
    )
}

/// Whether `watermark` is the last height of the first `count` batches, for
/// some `count`, of the range from `first` to `last`.
pub open spec fn stands_on_boundary(first: int, last: int, size: int, watermark: int) -> bool {
    exists|j: nat| #[trigger] boundary(first, last, size, j) == watermark
}

/// The watermark after every batch of the range from `first` to `last` has
/// asked in rising order to move it: from a batch boundary below `last` it
/// has moved to `last`, from anywhere else it has not moved.
pub open spec fn settled_watermark(watermark: int, first: int, last: int, size: int) -> int {
    if watermark < last && stands_on_boundary(first, last, size, watermark) {
        last
    } else {
        watermark
    }
}

/// The store after a backfill of the heights from `start` to `end`.
pub open spec fn backfilled(
    before: StoreModel,
    provider: SnapshotModel,
    start: int,
    end: int,
    size: int,
) -> StoreModel {
    StoreModel {
        chain_id: before.chain_id,
        blocks: overlaid(before.blocks, provider, start, end),
        watermark: settled_watermark(before.watermark, start, end, size),
    }
}

/// Whether the store holds the provider's block at `height`.
pub open spec fn ingested(now: StoreModel, provider: SnapshotModel, height: int) -> bool {
    provider.has(height) && now.blocks.contains_key(height) && now.blocks[height] == provider.at(
        height,
    )
}

/// Whether the store holds at `height` what it held before.
pub open spec fn untouched(now: StoreModel, before: StoreModel, height: int) -> bool {
    now.blocks.contains_key(height) == before.blocks.contains_key(height) && (
    before.blocks.contains_key(height) ==> now.blocks[height] == before.blocks[height])
}

/// What holds of the store when a backfill has stopped on a fault: heights
/// of the range hold the provider's block or what they held before, all
/// other heights hold what they held before, and the watermark has not
/// moved down.
pub open spec fn partly_backfilled(
    before: StoreModel,
    now: StoreModel,
    provider: SnapshotModel,
    start: int,
    end: int,
) -> bool {
    &&& now.chain_id == before.chain_id
    &&& now.watermark >= before.watermark
    &&& forall|h: int|
        (start <= h <= end && ingested(now, provider, h)) || #[trigger] untouched(now, before, h)
}

/// Why a backfill is refused or fails, if it is or does.
pub open spec fn refusal(
    provider: SnapshotModel,
    store: StoreModel,
    start: int,
    end: int,
    batch_size: int,
    worker_count: int,
) -> Option<PipelineError> {
    if start < 0 {
        Some(PipelineError::Config(ConfigError::NegativeHeight))
    } else if batch_size == 0 {
        Some(PipelineError::Config(ConfigError::ZeroBatchSize))
    } else if worker_count == 0 {
        Some(PipelineError::Config(ConfigError::ZeroWorkers))
    } else if provider.chain_id != store.chain_id {
        Some(PipelineError::Config(ConfigError::ChainMismatch))
    } else if start <= end && !(provider.has(start) && provider.has(end)) {
        Some(PipelineError::Rpc(RpcError::NotFound))
    } else {
        None
    }
}

/// Whether some worker holds a batch with `height` in it.
spec fn held(pool: PoolModel, height: int) -> bool {
    exists|w: int|
        0 <= w < pool.slots.len() && (#[trigger] pool.slots[w]) is Busy
            && pool.slots[w]->batch.contains(height)
}

/// Whether one of the first `count` batches begins just above `watermark`.
spec fn met_boundary(pool: PoolModel, count: nat, watermark: int) -> bool {
    exists|j: nat| j < count && #[trigger] boundary(pool.first, pool.last, pool.size, j) == watermark
}

/// The watermark once the first `count` batches have asked to move it.
spec fn watermark_at(pool: PoolModel, count: nat, watermark: int) -> int {
    if met_boundary(pool, count, watermark) {
        boundary(pool.first, pool.last, pool.size, count)
    } else {
        watermark
    }
}

/// What holds between the pool and the store while a backfill runs.
spec fn in_progress(
    pool: PoolModel,
    now: StoreModel,
    before: StoreModel,
    provider: SnapshotModel,
) -> bool {
    &&& pool.wf()
    &&& provider.wf()
    &&& pool.failure is None
    &&& pool.first <= pool.last
    &&& pool.policy == (RetryPolicy { max_attempts: 5, base_delay_ms: 500, max_delay_ms: 30_000 })
    &&& forall|w: int|
        0 <= w < pool.slots.len() && (#[trigger] pool.slots[w]) is Busy ==> pool.slots[w]->failures
            == 0
    &&& now.chain_id == before.chain_id
    &&& provider.chain_id == before.chain_id
    &&& forall|h: int|
        pool.first <= h <= pool.cursor() ==> held(pool, h) || #[trigger] ingested(now, provider, h)
    &&& forall|h: int|
        (pool.first <= h <= pool.last && ingested(now, provider, h)) || #[trigger] untouched(
            now,
            before,
            h,
        )
    &&& now.watermark == watermark_at(pool, pool.settled, before.watermark)
}

/// The work that is left: heights not handed out, and batches in hand.
spec fn pending(pool: PoolModel) -> int {
    pool.last - pool.cursor() + busy_count(pool.slots)
}

proof fn lemma_pool_bounds(pool: PoolModel)
    requires
        pool.wf(),
        pool.first <= pool.last,
    ensures
        pool.first - 1 <= pool.frontier() <= pool.last,
        pool.first - 1 <= pool.cursor() <= pool.last,
        forall|w: int|
            0 <= w < pool.slots.len() && (#[trigger] pool.slots[w]) is Busy ==> pool.first
                <= pool.slots[w]->batch.start && pool.slots[w]->batch.end <= pool.last,
{
    lemma_boundary_step(pool.first, pool.last, pool.size, pool.settled);
    lemma_boundary_step(pool.first, pool.last, pool.size, pool.handed);
    assert forall|w: int| 0 <= w < pool.slots.len() && (#[trigger] pool.slots[w]) is Busy implies pool.first
        <= pool.slots[w]->batch.start && pool.slots[w]->batch.end <= pool.last by {
        assert(pool.holds_its_batch(pool.slots[w]));
        let k = pool.slots[w]->index as nat;
        lemma_boundary_step(pool.first, pool.last, pool.size, k);
        lemma_boundary_step(pool.first, pool.last, pool.size, k + 1);
    }
}

/// Handing a batch to a worker leaves what holds of pool and store in place,
/// and does not add to the work that is left.
proof fn lemma_take_keeps(
    pool: PoolModel,
    worker: int,
    now: StoreModel,
    before: StoreModel,
    provider: SnapshotModel,
)
    requires
        in_progress(pool, now, before, provider),
        pool.can_take(worker),
        pool.took(worker).wf(),
    ensures
        in_progress(pool.took(worker), now, before, provider),
        pending(pool.took(worker)) <= pending(pool),
{
    let next = pool.took(worker);
    lemma_boundary_step(pool.first, pool.last, pool.size, pool.handed);
    lemma_busy_count_update(pool.slots, worker, next.slots[worker]);
    assert forall|h: int| next.first <= h <= next.cursor() implies held(next, h) || #[trigger] ingested(
        now,
        provider,
        h,
    ) by {
        if h <= pool.cursor() {
            if held(pool, h) {
                let w = choose|w: int|
                    0 <= w < pool.slots.len() && (#[trigger] pool.slots[w]) is Busy
                        && pool.slots[w]->batch.contains(h);
                assert(next.slots[w] == pool.slots[w]);
            }
        } else {
            assert(next.slots[worker] is Busy && next.slots[worker]->batch.contains(h));
        }
    }
    assert forall|w: int| 0 <= w < next.slots.len() && (#[trigger] next.slots[w]) is Busy implies next.slots[w]->failures
        == 0 by {
        if w != worker {
            assert(pool.slots[w] is Busy);
        }
    }
}

/// Whether `records` are the provider's blocks of `batch`.
spec fn answers(records: Seq<BlockModel>, provider: SnapshotModel, batch: Batch) -> bool {
    &&& provider.has(batch.start as int)
    &&& provider.has(batch.end as int)
    &&& records == provider.range(batch.start as int, batch.end as int)
}

/// Persisting a worker's batch leaves what holds of pool and store in
/// place, but for the watermark, which the batches now settled have yet to
/// move; and it takes from the work that is left.
proof fn lemma_persist_keeps(
    pool: PoolModel,
    worker: int,
    now: StoreModel,
    next_blocks: Map<int, BlockModel>,
    before: StoreModel,
    provider: SnapshotModel,
    records: Seq<BlockModel>,
)
    requires
        in_progress(pool, now, before, provider),
        pool.busy(worker),
        answers(records, provider, pool.slots[worker]->batch),
        next_blocks == crate::store::upserted(now.blocks, records),
        pool.persisted(worker).wf(),
    ensures
        in_progress(
            pool.persisted(worker),
            StoreModel {
                blocks: next_blocks,
                watermark: watermark_at(
                    pool.persisted(worker),
                    pool.persisted(worker).settled,
                    before.watermark,
                ),
                ..now
            },
            before,
            provider,
        ),
        pending(pool.persisted(worker)) < pending(pool),
        storable(records, now.chain_id),
{
    let next = pool.persisted(worker);
    let batch = pool.slots[worker]->batch;
    let after = StoreModel {
        blocks: next_blocks,
        watermark: watermark_at(next, next.settled, before.watermark),
        ..now
    };
    lemma_pool_bounds(pool);
    assert(pool.holds_its_batch(pool.slots[worker]));
    lemma_snapshot_range(provider, batch.start as int, batch.end as int);
    lemma_upserted_run(now.blocks, records, batch.start as int);
    lemma_busy_count_update(pool.slots, worker, Slot::Idle);
    assert forall|h: int| next.first <= h <= next.cursor() implies held(next, h) || #[trigger] ingested(
        after,
        provider,
        h,
    ) by {
        if batch.contains(h) {
            assert(records[h - batch.start] == provider.at(h));
        } else if held(pool, h) {
            let w = choose|w: int|
                0 <= w < pool.slots.len() && (#[trigger] pool.slots[w]) is Busy
                    && pool.slots[w]->batch.contains(h);
            assert(next.slots[w] == pool.slots[w]);
        } else {
            assert(ingested(now, provider, h));
        }
    }
    assert forall|h: int|
        (next.first <= h <= next.last && ingested(after, provider, h)) || #[trigger] untouched(
            after,
            before,
            h,
        ) by {
        if batch.contains(h) {
            assert(records[h - batch.start] == provider.at(h));
            assert(after.blocks.contains_key(h));
            assert(ingested(after, provider, h));
            assert(next.first <= h <= next.last);
        } else {
            assert(after.blocks.contains_key(h) == now.blocks.contains_key(h));
            if untouched(now, before, h) {
                assert(untouched(after, before, h));
            } else {
                assert(ingested(now, provider, h));
                assert(pool.first <= h <= pool.last);
                assert(ingested(after, provider, h));
            }
        }
    }
    assert forall|w: int| 0 <= w < next.slots.len() && (#[trigger] next.slots[w]) is Busy implies next.slots[w]->failures
        == 0 by {
        assert(pool.slots[w] is Busy);
    }
    assert forall|i: int| 0 <= i < records.len() implies (#[trigger] records[i]).height >= 0
        && records[i].chain_id == now.chain_id by {
        assert(records[i] == provider.at(batch.start + i));
    }
}

/// Moving the watermark over the next settled batch keeps it where the
/// batches so far have brought it.
proof fn lemma_watermark_step(pool: PoolModel, count: nat, start: int, batch: Batch)
    requires
        pool.size > 0,
        batch.wf(),
        batch.start == nth_batch(pool.first, pool.last, pool.size, count).0,
        batch.end == nth_batch(pool.first, pool.last, pool.size, count).1,
    ensures
        crate::store::advanced(watermark_at(pool, count, start), batch) == watermark_at(
            pool,
            count + 1,
            start,
        ),
{
    let b = |j: nat| boundary(pool.first, pool.last, pool.size, j);
    if met_boundary(pool, count, start) {
        let j = choose|j: nat|
            j < count && #[trigger] boundary(pool.first, pool.last, pool.size, j) == start;
        assert(j < count + 1 && boundary(pool.first, pool.last, pool.size, j) == start);
    } else if start == batch.start - 1 {
        assert(count < count + 1 && boundary(pool.first, pool.last, pool.size, count) == start);
    } else {
        if met_boundary(pool, count + 1, start) {
            let j = choose|j: nat|
                j < count + 1 && #[trigger] boundary(pool.first, pool.last, pool.size, j) == start;
            assert(j < count);
        }
    }
}

/// Once every batch has been settled, the watermark stands where
/// `settled_watermark` says.
proof fn lemma_watermark_settled(pool: PoolModel, start: int)
    requires
        pool.wf(),
        pool.finished(),
        pool.first <= pool.last,
    ensures
        watermark_at(pool, pool.settled, start) == settled_watermark(
            start,
            pool.first,
            pool.last,
            pool.size,
        ),
{
    lemma_finished_pool(pool);
    lemma_boundary_step(pool.first, pool.last, pool.size, pool.handed);
    if met_boundary(pool, pool.settled, start) {
        let j = choose|j: nat|
            j < pool.settled && #[trigger] boundary(pool.first, pool.last, pool.size, j) == start;
        lemma_boundary_monotone(pool.first, pool.last, pool.size, j, (pool.handed - 1) as nat);
    } else if start < pool.last && stands_on_boundary(pool.first, pool.last, pool.size, start) {
        let j = choose|j: nat| #[trigger] boundary(pool.first, pool.last, pool.size, j) == start;
        if j >= pool.settled {
            lemma_boundary_monotone(pool.first, pool.last, pool.size, pool.settled, j);
        }
        assert(false);
    }
}

/// The worker that reports next: the first busy one from the place that
/// `order` names for this turn.
fn pick(order: &Vec<usize>, turn: usize, pool: &BackfillPool) -> (chosen: Option<(usize, Batch)>)
    ensures
        pool@.wf(),
        match chosen {
            Some((worker, batch)) => pool@.busy(worker as int) && pool@.slots[worker as int]->batch
                == batch,
            None => forall|w: int| 0 <= w < pool@.slots.len() ==> (#[trigger] pool@.slots[w]) is Idle,
        },
{
    let count = pool.worker_count();
    let _ = pool.slot(0);
    if count == 0 {
        return None;
    }
    let from: usize = if order.len() == 0 {
        0
    } else {
        order[turn % order.len()] % count
    };
    let mut k: usize = 0;
    while k < count
        invariant
            k <= count,
            from < count,
            count == pool@.slots.len(),
            forall|w: int| from <= w < count && w - from < k ==> (#[trigger] pool@.slots[w]) is Idle,
            forall|w: int| 0 <= w < from && w + count - from < k ==> (#[trigger] pool@.slots[w]) is Idle,
        decreases count - k,
    {
        let w: usize = if k < count - from {
            from + k
        } else {
            k - (count - from)
        };
        match pool.slot(w) {
            Slot::Busy { batch, .. } => {
                return Some((w, batch));
            },
            Slot::Idle => {},
        }
        k = k + 1;
    }
    None
}

/// Fetches the batch of `worker`, again after each failure for as long as
/// the pool allows.
fn fetch_batch(rpc: &ChainSnapshot, pool: &mut BackfillPool, worker: usize, batch: Batch) -> (fetched:
    Result<Vec<BlockRecord>, PipelineError>)
    requires
        old(pool)@.wf(),
        old(pool)@.busy(worker as int),
        old(pool)@.slots[worker as int]->batch == batch,
        old(pool)@.slots[worker as int]->failures == 0,
        old(pool)@.policy == (RetryPolicy {
            max_attempts: 5,
            base_delay_ms: 500,
            max_delay_ms: 30_000,
        }),
        batch.wf(),
    ensures
        fetched is Ok ==> final(pool)@ == old(pool)@ && answers(
            models(fetched->Ok_0@),
            rpc@,
            batch,
        ),
        fetched is Err ==> fetched->Err_0 == PipelineError::Rpc(RpcError::NotFound) && !(rpc@.has(
            batch.start as int,
        ) && rpc@.has(batch.end as int)),
{
    match rpc.fetch_range(batch.start, batch.end) {
        Ok(records) => {
            return Ok(records);
        },
        Err(_) => {},
    }
    loop
        invariant
            pool@.wf(),
            pool@.busy(worker as int),
            pool@.slots[worker as int]->failures < 5,
            pool@.policy == (RetryPolicy {
                max_attempts: 5,
                base_delay_ms: 500,
                max_delay_ms: 30_000,
            }),
            batch.wf(),
            !(rpc@.has(batch.start as int) && rpc@.has(batch.end as int)),
        decreases 5 - pool@.slots[worker as int]->failures,
    {
        match pool.on_fetch_failed(worker, RpcError::NotFound) {
            RetryDecision::GiveUp => {
                return Err(PipelineError::Rpc(RpcError::NotFound));
            },
            RetryDecision::RetryAfter(_) => {},
        }
        match rpc.fetch_range(batch.start, batch.end) {
            Ok(records) => {
                return Ok(records);
            },
            Err(_) => {},
        }
    }
}

/// Ingests the heights from `start` to `end` from `rpc` into `db`: the
/// range is cut into batches of `batch_size` heights, `worker_count` workers
/// take batches in rising order, and `order` says which busy worker
/// finishes next. Each batch is fetched whole, written in one piece, and
/// then moves the watermark in its turn.
///
/// Whatever `worker_count` and `order` are, a run that succeeds leaves the
/// same store.
pub fn fetch_blocks_range_workers(
    rpc: &ChainSnapshot,
    db: &mut BlockStore,
    start: i64,
    end: i64,
    batch_size: usize,
    worker_count: usize,
    order: &Vec<usize>,
) -> (run: Result<(), PipelineError>)
    ensures
        run == match refusal(
            rpc@,
            old(db)@,
            start as int,
            end as int,
            batch_size as int,
            worker_count as int,
        ) {
            Some(fault) => Err::<(), PipelineError>(fault),
            None => Ok(()),
        },
        run is Ok ==> final(db)@ == backfilled(
            old(db)@,
            rpc@,
            start as int,
            end as int,
            batch_size as int,
        ),
        run is Err ==> partly_backfilled(old(db)@, final(db)@, rpc@, start as int, end as int),
        run matches Err(PipelineError::Config(_)) ==> final(db)@ == old(db)@,
{
    let ghost before = db@;
    let ghost provider = rpc@;
    let mut pool = match BackfillPool::new(
        start,
        end,
        batch_size,
        worker_count,
        RetryPolicy::standard(),
    ) {
        Ok(pool) => pool,
        Err(fault) => {
            assert forall|h: int| #[trigger] untouched(before, before, h) by {}
            return Err(PipelineError::Config(fault));
        },
    };
    if rpc.chain_id() != db.chain_id() {
        assert forall|h: int| #[trigger] untouched(before, before, h) by {}
        return Err(PipelineError::Config(ConfigError::ChainMismatch));
    }
    if end < start {
        proof {
            assert(overlaid(before.blocks, provider, start as int, end as int) =~= before.blocks);
            assert forall|j: nat| boundary(start as int, end as int, batch_size as int, j) == start
                - 1 by {
                crate::batch::lemma_boundary_settles(
                    start as int,
                    end as int,
                    batch_size as int,
                    0,
                    j,
                );
            }
        }
        return Ok(());
    }
    proof {
        assert forall|h: int| #[trigger] untouched(before, before, h) by {}
        assert forall|w: int| 0 <= w < pool@.slots.len() implies (#[trigger] pool@.slots[w]) is Idle by {}
        lemma_busy_count_none(pool@.slots);
    }
    let mut turn: usize = 0;
    loop
        invariant
            in_progress(pool@, db@, before, provider),
            pool@.first == start,
            pool@.last == end,
            pool@.size == batch_size,
            pool@.slots.len() == worker_count,
            worker_count > 0,
            provider == rpc@,
            before == old(db)@,
            refusal(
                provider,
                before,
                start as int,
                end as int,
                batch_size as int,
                worker_count as int,
            ) is None || refusal(
                provider,
                before,
                start as int,
                end as int,
                batch_size as int,
                worker_count as int,
            ) == Some(PipelineError::Rpc(RpcError::NotFound)),
        decreases pending(pool@),
    {
        let ghost at_entry = pending(pool@);
        let mut w: usize = 0;
        while w < worker_count
            invariant
                w <= worker_count,
                in_progress(pool@, db@, before, provider),
                pool@.first == start,
                pool@.last == end,
                pool@.size == batch_size,
                pool@.slots.len() == worker_count,
                pending(pool@) <= at_entry,
                forall|v: int|
                    0 <= v < w ==> (#[trigger] pool@.slots[v]) is Busy || pool@.cursor()
                        >= pool@.last,
            decreases worker_count - w,
        {
            let ghost was = pool@;
            let given = pool.take(w);
            proof {
                if given is Some {
                    lemma_take_keeps(was, w as int, db@, before, provider);
                    lemma_boundary_step(was.first, was.last, was.size, was.handed);
                    assert forall|v: int| 0 <= v < w + 1 implies (#[trigger] pool@.slots[v]) is Busy
                        || pool@.cursor() >= pool@.last by {
                        if v < w {
                            assert(was.slots[v] is Busy || was.cursor() >= was.last);
                        }
                    }
                }
            }
            w = w + 1;
        }
        let (worker, batch) = match pick(order, turn, &pool) {
            Some(chosen) => chosen,
            None => {
                proof {
                    assert(pool@.slots[0] is Idle);
                    lemma_watermark_settled(pool@, before.watermark);
                    lemma_pool_bounds(pool@);
                    assert forall|h: int| start <= h <= end implies ingested(db@, provider, h) by {
                        if held(pool@, h) {
                            let v = choose|v: int|
                                0 <= v < pool@.slots.len() && (#[trigger] pool@.slots[v]) is Busy
                                    && pool@.slots[v]->batch.contains(h);
                            assert(pool@.slots[v] is Idle);
                        }
                    }
                    assert(ingested(db@, provider, start as int));
                    assert(ingested(db@, provider, end as int));
                    assert forall|h: int| #[trigger]
                        db@.blocks.contains_key(h) == overlaid(
                            before.blocks,
                            provider,
                            start as int,
                            end as int,
                        ).contains_key(h) && (db@.blocks.contains_key(h) ==> db@.blocks[h]
                            == overlaid(before.blocks, provider, start as int, end as int)[h]) by {
                        if start <= h <= end {
                            assert(ingested(db@, provider, h));
                        } else {
                            assert(untouched(db@, before, h));
                        }
                    }
                    assert(db@.blocks =~= overlaid(
                        before.blocks,
                        provider,
                        start as int,
                        end as int,
                    ));
                }
                return Ok(());
            },
        };
        proof {
            assert(pool@.holds_its_batch(pool@.slots[worker as int]));
            lemma_pool_bounds(pool@);
        }
        let ghost held_pool = pool@;
        let records = match fetch_batch(rpc, &mut pool, worker, batch) {
            Ok(records) => records,
            Err(fault) => {
                proof {
                    lemma_watermark_bounds(held_pool, held_pool.settled, before.watermark);
                }
                return Err(fault);
            },
        };
        let ghost stored = db@;
        proof {
            lemma_persist_keeps(
                held_pool,
                worker as int,
                stored,
                crate::store::upserted(stored.blocks, models(records@)),
                before,
                provider,
                models(records@),
            );
        }
        match db.upsert_blocks(&records) {
            Ok(()) => {},
            Err(fault) => {
                pool.on_persist_failed(worker);
                return Err(fault);
            },
        }
        let settled = pool.on_persisted(worker);
        let mut i: usize = 0;
        while i < settled.len()
            invariant
                i <= settled.len(),
                held_pool.size > 0,
                pool@ == held_pool.persisted(worker as int),
                settled@.len() == pool@.settled - held_pool.settled,
                forall|j: int|
                    0 <= j < settled@.len() ==> {
                        &&& (#[trigger] settled@[j]).wf()
                        &&& settled@[j].start == nth_batch(
                            held_pool.first,
                            held_pool.last,
                            held_pool.size,
                            (held_pool.settled + j) as nat,
                        ).0
                        &&& settled@[j].end == nth_batch(
                            held_pool.first,
                            held_pool.last,
                            held_pool.size,
                            (held_pool.settled + j) as nat,
                        ).1
                    },
                db@ == (StoreModel {
                    blocks: crate::store::upserted(stored.blocks, models(records@)),
                    watermark: watermark_at(
                        held_pool,
                        (held_pool.settled + i) as nat,
                        before.watermark,
                    ),
                    ..stored
                }),
            decreases settled.len() - i,
        {
            proof {
                lemma_watermark_step(
                    held_pool,
                    (held_pool.settled + i) as nat,
                    before.watermark,
                    settled@[i as int],
                );
            }
            db.advance_watermark(settled[i]);
            i = i + 1;
        }
        proof {
            assert(watermark_at(held_pool, pool@.settled, before.watermark) == watermark_at(
                pool@,
                pool@.settled,
                before.watermark,
            )) by {
                assert(met_boundary(held_pool, pool@.settled, before.watermark) == met_boundary(
                    pool@,
                    pool@.settled,
                    before.watermark,
                ));
            }
        }
        turn = if turn < usize::MAX {
            turn + 1
        } else {
            0
        };
    }
}

/// The watermark that the settled batches have reached is not below the one
/// they began with.
proof fn lemma_watermark_bounds(pool: PoolModel, count: nat, start: int)
    requires
        pool.size > 0,
    ensures
        watermark_at(pool, count, start) >= start,
{
    if met_boundary(pool, count, start) {
        let j = choose|j: nat|
            j < count && #[trigger] boundary(pool.first, pool.last, pool.size, j) == start;
        lemma_boundary_monotone(pool.first, pool.last, pool.size, j, count);
    }
}

/// A backfill of a range that the provider holds leaves one block at every
/// height of the range, the provider's, and each but the lowest is built on
/// the block below it; the lowest too, where the block that was stored below
/// the range is its parent. Where the watermark stood just below the range,
/// it stands at the end of it.
pub proof fn lemma_backfill_leaves_no_gap(
    before: StoreModel,
    provider: SnapshotModel,
    start: int,
    end: int,
    size: int,
)
    requires
        provider.wf(),
        size > 0,
        0 <= start <= end,
        provider.has(start),
        provider.has(end),
    ensures
        forall|h: int|
            start <= h <= end ==> #[trigger] ingested(
                backfilled(before, provider, start, end, size),
                provider,
                h,
            ),
        forall|h: int|
            !(start <= h <= end) ==> #[trigger] untouched(
                backfilled(before, provider, start, end, size),
                before,
                h,
            ),
        backfilled(before, provider, start, end, size).linked(start, end),
        before.blocks.contains_key(start - 1) && provider.at(start).parent_hash
            == before.blocks[start - 1].hash ==> backfilled(
            before,
            provider,
            start,
            end,
            size,
        ).linked(start - 1, end),
        before.watermark == start - 1 ==> backfilled(before, provider, start, end, size).watermark
            == end,
        before.watermark <= provider.head() ==> backfilled(
            before,
            provider,
            start,
            end,
            size,
        ).watermark <= provider.head(),
{
    let after = backfilled(before, provider, start, end, size);
    assert forall|h: int| start < h <= end implies (#[trigger] after.blocks[h]).parent_hash
        == after.blocks[h - 1].hash by {
        assert(provider.blocks[h - provider.base].parent_hash == provider.blocks[h - 1
            - provider.base].hash);
    }
    assert(boundary(start, end, size, 0) == start - 1);
}

/// A second backfill of the same range from the same provider changes
/// nothing, and no backfill moves the watermark down.
pub proof fn lemma_backfill_idempotent(
    before: StoreModel,
    provider: SnapshotModel,
    start: int,
    end: int,
    size: int,
)
    ensures
        backfilled(backfilled(before, provider, start, end, size), provider, start, end, size)
            == backfilled(before, provider, start, end, size),
        backfilled(before, provider, start, end, size).watermark >= before.watermark,
{
    let once = backfilled(before, provider, start, end, size);
    let twice = backfilled(once, provider, start, end, size);
    assert(twice.blocks =~= once.blocks);
}

/// Whether a backfill is refused or fails does not depend on the number of
/// workers, as long as there is one; and the store that it leaves,
/// `backfilled`, is stated without the workers and the order in which they
/// finish.
pub proof fn lemma_workers_do_not_matter(
    provider: SnapshotModel,
    store: StoreModel,
    start: int,
    end: int,
    size: int,
    few: int,
    many: int,
)
    requires
        few > 0,
        many > 0,
    ensures
        refusal(provider, store, start, end, size, few) == refusal(
            provider,
            store,
            start,
            end,
            size,
            many,
        ),
{
}

} // verus!

//! Following a provider's announced heads into a store: what the store
//! holds after each head has been reconciled, and a run of the subscriber
//! against a snapshot that is proved to leave exactly that.

use crate::block::BlockModel;
use crate::error::{ConfigError, PipelineError, RpcError};
use crate::fetcher::{backfilled, ingested, overlaid, untouched};
use crate::retry::RetryPolicy;
use crate::snapshot::{lemma_snapshot_range, ChainSnapshot, SnapshotModel};
use crate::store::{lemma_upserted_run, storable, upserted, BlockStore, StoreModel};
use crate::subscriber::{
    advance_of, descends, Action, ActionModel, Event, EventModel, Phase, Subscriber, SubscriberModel,
};
use vstd::prelude::*;

verus! {

/// Whether the stored chain takes the provider's block at `low`: there is
/// nothing stored below it, or what is stored below it is its parent.
pub open spec fn fits(store: StoreModel, provider: SnapshotModel, low: int) -> bool {
    low == 0 || !store.blocks.contains_key(low - 1) || store.blocks[low - 1].hash == provider.at(
        low,
    ).parent_hash
}

/// The height from which the provider's blocks replace the stored ones:
/// the highest height at or below `low` at which the provider's block fits
/// the stored chain, found by walking down at most `budget` blocks.
pub open spec fn fork_point(store: StoreModel, provider: SnapshotModel, low: int, budget: int) -> Result<
    int,
    PipelineError,
>
    decreases budget,
{
    if fits(store, provider, low) {
        Ok(low)
    } else if budget <= 0 {
        Err(PipelineError::ReconciliationExhausted)
    } else if !provider.has(low - 1) {
        Err(PipelineError::Rpc(RpcError::NotFound))
    } else {
        fork_point(store, provider, low - 1, budget - 1)
    }
}

/// The store after the provider's blocks from `low` to `head` have been
/// written, and the watermark has moved from `mark` to `head` if `head` lies
/// above it and it still stood there.
pub open spec fn committed(
    store: StoreModel,
    provider: SnapshotModel,
    low: int,
    head: int,
    mark: int,
) -> StoreModel {
    StoreModel {
        chain_id: store.chain_id,
        blocks: overlaid(store.blocks, provider, low, head),
        watermark: if head > mark && store.watermark == mark {
            head
        } else {
            store.watermark
        },
    }
}

/// The store with the provider's block written at `height`.
pub open spec fn with_block(store: StoreModel, provider: SnapshotModel, height: int) -> StoreModel {
    StoreModel { blocks: store.blocks.insert(height, provider.at(height)), ..store }
}

/// The store after the heights from `gap` up to just below `low` that it
/// did not hold have been fetched and written one by one, and then the
/// provider's blocks from `low` to `head`; with the fault that ended it, if
/// one did. A fault leaves what was written before it in place, and the
/// watermark where it stood.
pub open spec fn filled(
    store: StoreModel,
    provider: SnapshotModel,
    gap: int,
    low: int,
    head: int,
    mark: int,
) -> (StoreModel, Option<PipelineError>)
    decreases low - gap,
{
    if gap >= low {
        (committed(store, provider, low, head, mark), None)
    } else if store.blocks.contains_key(gap) {
        filled(store, provider, gap + 1, low, head, mark)
    } else if !provider.has(gap) {
        (store, Some(PipelineError::Rpc(RpcError::NotFound)))
    } else {
        filled(with_block(store, provider, gap), provider, gap + 1, low, head, mark)
    }
}

/// The store after the walk down from `low` with `budget` blocks left and
/// what follows it; with the fault that ended it, if one did. A walk that
/// ends on a fault has written nothing.
pub open spec fn walked(
    store: StoreModel,
    provider: SnapshotModel,
    low: int,
    budget: int,
    head: int,
    mark: int,
) -> (StoreModel, Option<PipelineError>) {
    match fork_point(store, provider, low, budget) {
        Ok(fork) => filled(store, provider, mark + 1, fork, head, mark),
        Err(fault) => (store, Some(fault)),
    }
}

/// The store after the announced height `head` has been reconciled. The
/// provider's block at `head` is compared with what is stored below it, and
/// the walk down from there may replace at most `depth` stored blocks below
/// `head`; only when the provider's blocks fit are the heights above the
/// watermark that the store lacks filled in, the provider's blocks written,
/// and the watermark moved to `head`.
pub open spec fn reconciled(store: StoreModel, provider: SnapshotModel, depth: int, head: int) -> (
    StoreModel,
    Option<PipelineError>,
) {
    if head < 0 {
        (store, None)
    } else if !provider.has(head) {
        (store, Some(PipelineError::Rpc(RpcError::NotFound)))
    } else {
        walked(store, provider, head, depth, head, if store.watermark < -1 {
            -1
        } else {
            store.watermark
        })
    }
}

/// The store after `heads` have been reconciled one after the other, up to
/// the first fault.
pub open spec fn followed(store: StoreModel, provider: SnapshotModel, depth: int, heads: Seq<i64>) -> (
    StoreModel,
    Option<PipelineError>,
)
    decreases heads.len(),
{
    if heads.len() == 0 {
        (store, None)
    } else {
        let (next, fault) = followed(store, provider, depth, heads.drop_last());
        if fault is Some {
            (next, fault)
        } else {
            reconciled(next, provider, depth, heads.last() as int)
        }
    }
}

/// Whether the block number `i` of `pending`, which begins at `top` and
/// goes down, is the provider's.
spec fn provided(pending: Seq<BlockModel>, provider: SnapshotModel, top: int, i: int) -> bool {
    provider.has(top - i) && pending[i] == provider.at(top - i)
}

/// Whether the fresh blocks that the subscriber holds are the provider's.
spec fn fresh(state: SubscriberModel, provider: SnapshotModel) -> bool {
    forall|i: int|
        0 <= i < state.pending.len() ==> #[trigger] provided(
            state.pending,
            provider,
            state.target,
            i,
        )
}

/// Whether `action` asks to write the provider's blocks from `low` up to the
/// announced height, and then to move the watermark there from where it
/// stood.
spec fn writes_head(state: SubscriberModel, action: ActionModel, provider: SnapshotModel) -> bool {
    &&& action is Commit
    &&& action->advance == advance_of(state.target, state.mark)
    &&& 1 <= action->records.len() <= state.target + 1
    &&& provider.has(state.target - action->records.len() + 1)
    &&& provider.has(state.target)
    &&& action->records == provider.range(
        state.target - action->records.len() + 1,
        state.target,
    )
}

/// What holds between the subscriber, what it has asked for, the provider
/// and the store while a head is being reconciled.
spec fn coherent(
    state: SubscriberModel,
    action: ActionModel,
    store: StoreModel,
    provider: SnapshotModel,
) -> bool {
    &&& state.wf()
    &&& provider.wf()
    &&& state.chain_id == provider.chain_id
    &&& state.chain_id == store.chain_id
    &&& state.policy == (RetryPolicy { max_attempts: 5, base_delay_ms: 500, max_delay_ms: 30_000 })
    &&& fresh(state, provider)
    &&& match state.phase {
        Phase::Fetching { height, failures } => {
            &&& failures < 5
            &&& action is FetchBlock
            &&& action->FetchBlock_height == height
        },
        Phase::Comparing => action == (ActionModel::LoadStored {
            height: state.target - state.pending.len(),
        }),
        Phase::Probing => action == (ActionModel::LoadStored { height: state.gap }),
        Phase::Filling { failures } => {
            &&& failures < 5
            &&& action is FetchBlock
            &&& action->FetchBlock_height == state.gap
            &&& !store.blocks.contains_key(state.gap)
        },
        Phase::Storing => {
            &&& provider.has(state.gap)
            &&& !store.blocks.contains_key(state.gap)
            &&& action == (ActionModel::Commit {
                records: seq![provider.at(state.gap)],
                advance: None,
            })
        },
        Phase::Committing => writes_head(state, action, provider),
        Phase::Streaming => action == ActionModel::AwaitHead,
        Phase::Failed(fault) => action == ActionModel::Stop(fault),
        Phase::Connecting { .. } => false,
    }
}

/// What the reconciliation comes to from where the subscriber stands.
spec fn expected(
    state: SubscriberModel,
    action: ActionModel,
    store: StoreModel,
    provider: SnapshotModel,
) -> (StoreModel, Option<PipelineError>) {
    match state.phase {
        Phase::Fetching { height, .. } => if !provider.has(height as int) {
            (store, Some(PipelineError::Rpc(RpcError::NotFound)))
        } else {
            walked(store, provider, height as int, state.budget, state.target, state.mark)
        },
        Phase::Comparing => walked(
            store,
            provider,
            state.low(),
            state.budget,
            state.target,
            state.mark,
        ),
        Phase::Probing => filled(
            store,
            provider,
            state.gap,
            state.low(),
            state.target,
            state.mark,
        ),
        Phase::Filling { .. } => if !provider.has(state.gap) {
            (store, Some(PipelineError::Rpc(RpcError::NotFound)))
        } else {
            filled(
                with_block(store, provider, state.gap),
                provider,
                state.gap + 1,
                state.low(),
                state.target,
                state.mark,
            )
        },
        Phase::Storing => filled(
            with_block(store, provider, state.gap),
            provider,
            state.gap + 1,
            state.low(),
            state.target,
            state.mark,
        ),
        Phase::Committing => (
            committed(
                store,
                provider,
                state.target - action->records.len() + 1,
                state.target,
                state.mark,
            ),
            None,
        ),
        Phase::Failed(fault) => (store, Some(fault)),
        _ => (store, None),
    }
}

/// Which part of a reconciliation the subscriber is in: the walk down, the
/// filling, the writing of the fresh blocks, or none.
spec fn stage(state: SubscriberModel) -> int {
    match state.phase {
        Phase::Fetching { .. } => 3,
        Phase::Comparing => 3,
        Phase::Probing => 2,
        Phase::Filling { .. } => 2,
        Phase::Storing => 2,
        Phase::Committing => 1,
        _ => 0,
    }
}

/// How far the subscriber is from the end of that part.
spec fn distance(state: SubscriberModel) -> int {
    match state.phase {
        Phase::Fetching { .. } => 2 * state.budget + 1,
        Phase::Comparing => 2 * state.budget,
        Phase::Probing => state.low() - state.gap,
        Phase::Filling { .. } => state.low() - state.gap,
        Phase::Storing => state.low() - state.gap,
        _ => 0,
    }
}

/// How far the subscriber is from the end of the work at one height.
spec fn rank(state: SubscriberModel) -> int {
    match state.phase {
        Phase::Probing => 2,
        Phase::Filling { .. } => 1,
        _ => 0,
    }
}

/// How many attempts the subscriber has left for the block it waits for.
spec fn tries_left(state: SubscriberModel) -> int {
    match state.phase {
        Phase::Fetching { failures, .. } => 5 - failures,
        Phase::Filling { failures } => 5 - failures,
        _ => 0,
    }
}

/// Whether the subscriber waits for the next head and holds nothing.
pub open spec fn idle(state: SubscriberModel, chain_id: int, depth: int) -> bool {
    &&& state.wf()
    &&& state.phase == Phase::Streaming
    &&& state.chain_id == chain_id
    &&& state.reorg_depth == depth
    &&& state.policy == (RetryPolicy { max_attempts: 5, base_delay_ms: 500, max_delay_ms: 30_000 })
}

/// Whether `next` is nearer to the next head than `state`.
spec fn closer(next: SubscriberModel, state: SubscriberModel) -> bool {
    &&& stage(state) >= 0
    &&& distance(state) >= 0
    &&& rank(state) >= 0
    &&& tries_left(state) >= 0
    &&& next.chain_id == state.chain_id
    &&& next.reorg_depth == state.reorg_depth
    &&& {
        ||| stage(next) < stage(state)
        ||| stage(next) == stage(state) && distance(next) < distance(state)
        ||| stage(next) == stage(state) && distance(next) == distance(state) && rank(next) < rank(
            state,
        )
        ||| stage(next) == stage(state) && distance(next) == distance(state) && rank(next) == rank(
            state,
        ) && tries_left(next) < tries_left(state)
    }
}

/// What the provider answers when asked for the block at `height`.
spec fn answer(provider: SnapshotModel, height: int) -> EventModel {
    if provider.has(height) {
        EventModel::Block(provider.at(height))
    } else {
        EventModel::FetchFailed(RpcError::NotFound)
    }
}

/// What the store answers when asked for the hash at `height`.
spec fn stored_hash(store: StoreModel, height: int) -> EventModel {
    EventModel::Stored(
        if store.blocks.contains_key(height) {
            Some(store.blocks[height].hash)
        } else {
            None
        },
    )
}

/// The fresh blocks in rising order are a range of the provider's blocks.
proof fn lemma_reversed_is_range(pending: Seq<BlockModel>, provider: SnapshotModel, top: int)
    requires
        provider.wf(),
        pending.len() >= 1,
        forall|i: int| 0 <= i < pending.len() ==> #[trigger] provided(pending, provider, top, i),
    ensures
        pending.reverse() == provider.range(top - pending.len() + 1, top),
        provider.has(top - pending.len() + 1),
        provider.has(top),
{
    assert(provided(pending, provider, top, 0));
    assert(provided(pending, provider, top, pending.len() - 1));
    assert(pending.reverse() =~= provider.range(top - pending.len() + 1, top)) by {
        assert forall|i: int| 0 <= i < pending.len() implies pending.reverse()[i] == provider.range(
            top - pending.len() + 1,
            top,
        )[i] by {
            assert(provided(pending, provider, top, pending.len() - 1 - i));
        }
    }
}

/// Going on from a height that needs no filling changes nothing in what the
/// reconciliation comes to.
proof fn lemma_seek_step(
    state: SubscriberModel,
    store: StoreModel,
    provider: SnapshotModel,
    after: int,
)
    requires
        0 <= state.budget <= state.reorg_depth <= i64::MAX,
        descends(state.pending, state.chain_id, state.target),
        provider.wf(),
        state.chain_id == provider.chain_id,
        state.chain_id == store.chain_id,
        state.policy == (RetryPolicy { max_attempts: 5, base_delay_ms: 500, max_delay_ms: 30_000 }),
        fresh(state, provider),
        state.pending.len() >= 1,
        state.low() >= 0,
        state.target <= i64::MAX,
        -1 <= state.mark <= after,
    ensures
        ({
            let (next, wanted) = state.seek(after);
            &&& coherent(next, wanted, store, provider)
            &&& expected(next, wanted, store, provider) == filled(
                store,
                provider,
                after + 1,
                state.low(),
                state.target,
                state.mark,
            )
            &&& stage(next) == 1 || (stage(next) == 2 && rank(next) == 2 && distance(next)
                == state.low() - (after + 1))
            &&& next.chain_id == state.chain_id
            &&& next.reorg_depth == state.reorg_depth
        }),
{
    lemma_reversed_is_range(state.pending, provider, state.target);
}

/// The provider's answer to a fetch on the walk down brings the subscriber
/// nearer to the next head and changes nothing in what the reconciliation
/// comes to.
proof fn lemma_fetch_step(
    state: SubscriberModel,
    action: ActionModel,
    store: StoreModel,
    provider: SnapshotModel,
)
    requires
        coherent(state, action, store, provider),
        state.phase is Fetching,
    ensures
        ({
            let (next, wanted) = state.react(answer(provider, state.phase->height as int));
            &&& coherent(next, wanted, store, provider)
            &&& expected(next, wanted, store, provider) == expected(state, action, store, provider)
            &&& closer(next, state)
        }),
{
    let height = state.phase->height as int;
    if provider.has(height) {
        let block = provider.at(height);
        if state.pending.len() > 0 {
            assert(state.pending.last() == state.pending[state.pending.len() - 1]);
            assert(provided(state.pending, provider, state.target, state.pending.len() - 1));
            assert(provider.blocks[height + 1 - provider.base].parent_hash
                == provider.blocks[height - provider.base].hash);
        }
        assert(state.accepts(height, block));
        let grown = state.pending.push(block);
        assert forall|i: int| 0 <= i < grown.len() implies #[trigger] provided(
            grown,
            provider,
            state.target,
            i,
        ) by {
            if i < state.pending.len() {
                assert(provided(state.pending, provider, state.target, i));
            }
        }
        assert forall|i: int| 0 <= i < grown.len() - 1 implies (#[trigger] grown[i]).parent_hash
            == grown[i + 1].hash by {
            assert(provided(grown, provider, state.target, i));
            assert(provided(grown, provider, state.target, i + 1));
            assert(provider.blocks[state.target - i - provider.base].parent_hash
                == provider.blocks[state.target - i - 1 - provider.base].hash);
        }
        if height == 0 {
            let held = SubscriberModel { pending: grown, ..state };
            lemma_seek_step(held, store, provider, state.mark);
        }
    }
}

/// The store's answer to a comparison brings the subscriber nearer to the
/// next head and changes nothing in what the reconciliation comes to.
proof fn lemma_compare_step(
    state: SubscriberModel,
    action: ActionModel,
    store: StoreModel,
    provider: SnapshotModel,
)
    requires
        coherent(state, action, store, provider),
        state.phase is Comparing,
    ensures
        ({
            let (next, wanted) = state.react(
                stored_hash(store, state.target - state.pending.len()),
            );
            &&& coherent(next, wanted, store, provider)
            &&& expected(next, wanted, store, provider) == expected(state, action, store, provider)
            &&& closer(next, state)
        }),
{
    let low = state.low();
    assert(state.pending.last() == state.pending[state.pending.len() - 1]);
    assert(provided(state.pending, provider, state.target, state.pending.len() - 1));
    assert(state.pending.last() == provider.at(low));
    lemma_seek_step(state, store, provider, state.mark);
}

/// The store's answer on a height that may be missing brings the subscriber
/// nearer to the next head and changes nothing in what the reconciliation
/// comes to.
proof fn lemma_probe_step(
    state: SubscriberModel,
    action: ActionModel,
    store: StoreModel,
    provider: SnapshotModel,
)
    requires
        coherent(state, action, store, provider),
        state.phase is Probing,
    ensures
        ({
            let (next, wanted) = state.react(stored_hash(store, state.gap));
            &&& coherent(next, wanted, store, provider)
            &&& expected(next, wanted, store, provider) == expected(state, action, store, provider)
            &&& closer(next, state)
        }),
{
    lemma_seek_step(state, store, provider, state.gap);
}

/// The provider's answer to the fetch of a missing height brings the
/// subscriber nearer to the next head and changes nothing in what the
/// reconciliation comes to.
proof fn lemma_fill_step(
    state: SubscriberModel,
    action: ActionModel,
    store: StoreModel,
    provider: SnapshotModel,
)
    requires
        coherent(state, action, store, provider),
        state.phase is Filling,
    ensures
        ({
            let (next, wanted) = state.react(answer(provider, state.gap));
            &&& coherent(next, wanted, store, provider)
            &&& expected(next, wanted, store, provider) == expected(state, action, store, provider)
            &&& closer(next, state)
        }),
{
}

/// Once the store has taken the block of a missing height, the subscriber
/// is nearer to the next head, and what the reconciliation comes to has not
/// changed.
proof fn lemma_store_step(
    state: SubscriberModel,
    action: ActionModel,
    store: StoreModel,
    provider: SnapshotModel,
)
    requires
        coherent(state, action, store, provider),
        state.phase is Storing,
    ensures
        ({
            let (next, wanted) = state.react(EventModel::Committed);
            let written = with_block(store, provider, state.gap);
            &&& coherent(next, wanted, written, provider)
            &&& expected(next, wanted, written, provider) == expected(
                state,
                action,
                store,
                provider,
            )
            &&& closer(next, state)
            &&& storable(action->records, store.chain_id)
            &&& upserted(store.blocks, action->records) == written.blocks
        }),
{
    let written = with_block(store, provider, state.gap);
    lemma_seek_step(state, written, provider, state.gap);
    let records = action->records;
    assert(records[0] == provider.at(state.gap));
    assert(provider.blocks[state.gap - provider.base].height == state.gap);
    lemma_upserted_run(store.blocks, records, state.gap);
    assert(upserted(store.blocks, records) =~= written.blocks);
}

/// Once the store has taken the fresh blocks, the subscriber waits for the
/// next head, and the store is what the reconciliation comes to.
proof fn lemma_commit_step(
    state: SubscriberModel,
    action: ActionModel,
    store: StoreModel,
    provider: SnapshotModel,
)
    requires
        coherent(state, action, store, provider),
        state.phase is Committing,
    ensures
        ({
            let (next, wanted) = state.react(EventModel::Committed);
            let low = state.target - action->records.len() + 1;
            let written = committed(store, provider, low, state.target, state.mark);
            &&& coherent(next, wanted, written, provider)
            &&& expected(next, wanted, written, provider) == expected(
                state,
                action,
                store,
                provider,
            )
            &&& closer(next, state)
            &&& storable(action->records, store.chain_id)
            &&& upserted(store.blocks, action->records) == written.blocks
        }),
{
    let low = state.target - action->records.len() + 1;
    let records = action->records;
    lemma_snapshot_range(provider, low, state.target);
    lemma_upserted_run(store.blocks, records, low);
    assert forall|i: int| 0 <= i < records.len() implies (#[trigger] records[i]).height >= 0
        && records[i].chain_id == store.chain_id by {
        assert(records[i] == provider.at(low + i));
    }
    assert forall|h: int| low <= h <= state.target implies upserted(
        store.blocks,
        records,
    ).contains_key(h) && upserted(store.blocks, records)[h] == provider.at(h) by {
        assert(records[h - low] == provider.at(h));
    }
    assert(upserted(store.blocks, records) =~= overlaid(store.blocks, provider, low, state.target));
}

/// Does what the subscriber asks for, against `rpc` and `db`, until it
/// waits for the next head or stops.
fn settle(rpc: &ChainSnapshot, db: &mut BlockStore, sub: &mut Subscriber, action: Action) -> (run:
    Result<(), PipelineError>)
    requires
        coherent(old(sub)@, action@, old(db)@, rpc@),
    ensures
        final(db)@ == expected(old(sub)@, action@, old(db)@, rpc@).0,
        run == match expected(old(sub)@, action@, old(db)@, rpc@).1 {
            Some(fault) => Err::<(), PipelineError>(fault),
            None => Ok(()),
        },
        run is Ok ==> idle(final(sub)@, old(sub)@.chain_id, old(sub)@.reorg_depth),
        final(db)@.chain_id == old(db)@.chain_id,
{
    let ghost provider = rpc@;
    let ghost goal = expected(sub@, action@, db@, rpc@);
    let mut wanted = action;
    loop
        invariant
            provider == rpc@,
            coherent(sub@, wanted@, db@, provider),
            expected(sub@, wanted@, db@, provider) == goal,
            goal == expected(old(sub)@, action@, old(db)@, rpc@),
            sub@.chain_id == old(sub)@.chain_id,
            sub@.reorg_depth == old(sub)@.reorg_depth,
            db@.chain_id == old(db)@.chain_id,
        decreases stage(sub@), distance(sub@), rank(sub@), tries_left(sub@),
    {
        let ghost state = sub@;
        let ghost store = db@;
        let ghost asked = wanted@;
        match wanted {
            Action::AwaitHead => {
                return Ok(());
            },
            Action::Stop(fault) => {
                return Err(fault);
            },
            Action::Connect { .. } => {
                return Ok(());
            },
            Action::Ignore => {
                return Ok(());
            },
            Action::FetchBlock { height, .. } => {
                let event = match rpc.fetch_block(height) {
                    Ok(block) => Event::Block(block),
                    Err(error) => Event::FetchFailed(error),
                };
                proof {
                    assert(event@ == answer(provider, height as int));
                    if state.phase is Fetching {
                        lemma_fetch_step(state, asked, store, provider);
                    } else {
                        lemma_fill_step(state, asked, store, provider);
                    }
                }
                wanted = sub.step(event);
            },
            Action::LoadStored { height } => {
                let event = Event::Stored(
                    match db.get(height) {
                        Some(record) => Some(record.hash),
                        None => None,
                    },
                );
                proof {
                    assert(event@ == stored_hash(store, height as int));
                    if state.phase is Comparing {
                        lemma_compare_step(state, asked, store, provider);
                    } else {
                        lemma_probe_step(state, asked, store, provider);
                    }
                }
                wanted = sub.step(event);
            },
            Action::Commit { records, advance } => {
                proof {
                    if state.phase is Storing {
                        lemma_store_step(state, asked, store, provider);
                    } else {
                        lemma_commit_step(state, asked, store, provider);
                    }
                }
                let event = match db.upsert_blocks(&records) {
                    Ok(()) => {
                        match advance {
                            Some(batch) => {
                                db.advance_watermark(batch);
                            },
                            None => {},
                        }
                        Event::Committed
                    },
                    Err(_) => Event::CommitFailed,
                };
                wanted = sub.step(event);
            },
        }
    }
}

/// Reconciles each of `heads` in turn, as the subscriber says, against the
/// provider `rpc` and the store `db`, and stops at the first fault. The
/// subscriber walks down at most `reorg_depth` blocks from each head.
pub fn subscribe_heads(rpc: &ChainSnapshot, db: &mut BlockStore, reorg_depth: i64, heads: &Vec<i64>) -> (run:
    Result<(), PipelineError>)
    ensures
        reorg_depth < 0 ==> run == Err::<(), PipelineError>(
            PipelineError::Config(ConfigError::NegativeReorgDepth),
        ) && final(db)@ == old(db)@,
        reorg_depth >= 0 && rpc@.chain_id != old(db)@.chain_id ==> run == Err::<(), PipelineError>(
            PipelineError::Config(ConfigError::ChainMismatch),
        ) && final(db)@ == old(db)@,
        reorg_depth >= 0 && rpc@.chain_id == old(db)@.chain_id ==> final(db)@ == followed(
            old(db)@,
            rpc@,
            reorg_depth as int,
            heads@,
        ).0 && run == match followed(old(db)@, rpc@, reorg_depth as int, heads@).1 {
            Some(fault) => Err::<(), PipelineError>(fault),
            None => Ok(()),
        },
{
    let ghost before = db@;
    let ghost provider = rpc@;
    let mut sub = match Subscriber::new(rpc.chain_id(), reorg_depth, RetryPolicy::standard()) {
        Ok(sub) => sub,
        Err(fault) => {
            return Err(PipelineError::Config(fault));
        },
    };
    if rpc.chain_id() != db.chain_id() {
        return Err(PipelineError::Config(ConfigError::ChainMismatch));
    }
    let _ = sub.step(Event::Connected);
    let mut n: usize = 0;
    while n < heads.len()
        invariant
            n <= heads.len(),
            provider == rpc@,
            provider.wf(),
            provider.chain_id == db@.chain_id,
            provider.chain_id == before.chain_id,
            reorg_depth >= 0,
            before == old(db)@,
            idle(sub@, provider.chain_id, reorg_depth as int),
            followed(before, provider, reorg_depth as int, heads@.take(n as int)) == (db@, None::<PipelineError>),
        decreases heads.len() - n,
    {
        let watermark = db.last_synced_block();
        let head = heads[n];
        proof {
            assert(heads@.take(n + 1).drop_last() =~= heads@.take(n as int));
            assert(heads@.take(n + 1).last() == head);
        }
        let action = sub.step(Event::Head { height: head, watermark });
        match settle(rpc, db, &mut sub, action) {
            Ok(()) => {},
            Err(fault) => {
                proof {
                    lemma_followed_stops(
                        before,
                        provider,
                        reorg_depth as int,
                        heads@,
                        (n + 1) as int,
                    );
                }
                return Err(fault);
            },
        }
        n = n + 1;
    }
    assert(heads@.take(n as int) =~= heads@);
    Ok(())
}

/// Once a head has ended on a fault, the heads after it are not reconciled:
/// the store and the fault stay as that head left them.
pub proof fn lemma_followed_stops(
    store: StoreModel,
    provider: SnapshotModel,
    depth: int,
    heads: Seq<i64>,
    n: int,
)
    requires
        0 <= n <= heads.len(),
        followed(store, provider, depth, heads.take(n)).1 is Some,
    ensures
        followed(store, provider, depth, heads) == followed(store, provider, depth, heads.take(n)),
    decreases heads.len() - n,
{
    if n < heads.len() {
        assert(heads.take(n + 1).drop_last() =~= heads.take(n));
        lemma_followed_stops(store, provider, depth, heads, n + 1);
    } else {
        assert(heads.take(n) =~= heads);
    }
}

/// Where the provider's blocks fit the stored chain at `fork` and at no
/// height between `fork` and `low`, a walk down from `low` that may go as
/// far finds `fork`.
pub proof fn lemma_fork_point_found(
    store: StoreModel,
    provider: SnapshotModel,
    low: int,
    budget: int,
    fork: int,
)
    requires
        fork <= low,
        low - fork <= budget,
        provider.has(fork),
        provider.has(low),
        fits(store, provider, fork),
        forall|g: int| fork < g <= low ==> !#[trigger] fits(store, provider, g),
    ensures
        fork_point(store, provider, low, budget) == Ok::<int, PipelineError>(fork),
    decreases low - fork,
{
    if fork < low {
        assert(!fits(store, provider, low));
        lemma_fork_point_found(store, provider, low - 1, budget - 1, fork);
    }
}

/// Where the provider's blocks fit the stored chain at none of the heights
/// that a walk down from `low` may reach, the walk is exhausted.
pub proof fn lemma_fork_point_exhausted(
    store: StoreModel,
    provider: SnapshotModel,
    low: int,
    budget: int,
)
    requires
        budget >= 0,
        provider.has(low - budget),
        provider.has(low),
        forall|g: int| low - budget <= g <= low ==> !#[trigger] fits(store, provider, g),
    ensures
        fork_point(store, provider, low, budget) == Err::<int, PipelineError>(
            PipelineError::ReconciliationExhausted,
        ),
    decreases budget,
{
    assert(!fits(store, provider, low));
    if budget > 0 {
        lemma_fork_point_exhausted(store, provider, low - 1, budget - 1);
    }
}

/// A reorg no deeper than the reorg depth is taken over: where the provider
/// announces `head`, its chain fits the stored one at `fork`, at most
/// `depth` blocks below and not above the height that follows the
/// watermark, and at no height between, the store afterwards holds the
/// provider's blocks from `fork` to `head`, each built on the block below
/// it, and everything else as before. The watermark stands at `head` unless
/// it stood higher.
pub proof fn lemma_reorg_within_depth(
    store: StoreModel,
    provider: SnapshotModel,
    depth: int,
    head: int,
    fork: int,
)
    requires
        provider.wf(),
        store.wf(),
        0 <= fork <= head,
        head - fork <= depth,
        fork <= store.watermark + 1,
        provider.has(fork),
        provider.has(head),
        fits(store, provider, fork),
        forall|g: int| fork < g <= head ==> !#[trigger] fits(store, provider, g),
    ensures
        reconciled(store, provider, depth, head) == (
            committed(store, provider, fork, head, store.watermark),
            None::<PipelineError>,
        ),
        forall|h: int|
            fork <= h <= head ==> #[trigger] ingested(
                committed(store, provider, fork, head, store.watermark),
                provider,
                h,
            ),
        forall|h: int|
            !(fork <= h <= head) ==> #[trigger] untouched(
                committed(store, provider, fork, head, store.watermark),
                store,
                h,
            ),
        committed(store, provider, fork, head, store.watermark).linked(fork, head),
        store.blocks.contains_key(fork - 1) ==> committed(
            store,
            provider,
            fork,
            head,
            store.watermark,
        ).linked(fork - 1, head),
        committed(store, provider, fork, head, store.watermark).watermark == if store.watermark
            < head {
            head
        } else {
            store.watermark
        },
{
    lemma_fork_point_found(store, provider, head, depth, fork);
    let after = committed(store, provider, fork, head, store.watermark);
    assert forall|h: int| fork < h <= head implies (#[trigger] after.blocks[h]).parent_hash
        == after.blocks[h - 1].hash by {
        assert(provider.blocks[h - provider.base].parent_hash == provider.blocks[h - 1
            - provider.base].hash);
    }
    if store.blocks.contains_key(fork - 1) {
        assert(after.blocks[fork].parent_hash == after.blocks[fork - 1].hash);
    }
}

/// A reorg deeper than the reorg depth is not taken over, wherever the
/// watermark stands: where the provider's chain fits the stored one at none
/// of the `depth` heights below the announced `head`, nor at `head`, the
/// reconciliation ends as exhausted and the store is as it was.
pub proof fn lemma_reorg_beyond_depth(
    store: StoreModel,
    provider: SnapshotModel,
    depth: int,
    head: int,
)
    requires
        depth >= 0,
        0 <= head,
        provider.has(head - depth),
        provider.has(head),
        forall|g: int| head - depth <= g <= head ==> !#[trigger] fits(store, provider, g),
    ensures
        reconciled(store, provider, depth, head) == (
            store,
            Some(PipelineError::ReconciliationExhausted),
        ),
{
    lemma_fork_point_exhausted(store, provider, head, depth);
}

/// Whether the store holds nothing but blocks of the provider.
pub open spec fn follows(store: StoreModel, provider: SnapshotModel) -> bool {
    forall|h: int| #[trigger] store.blocks.contains_key(h) ==> ingested(store, provider, h)
}

/// A store that holds nothing but blocks of the provider takes the
/// provider's block at every height.
pub proof fn lemma_fits_on_the_same_chain(store: StoreModel, provider: SnapshotModel, top: int)
    requires
        provider.wf(),
        follows(store, provider),
        provider.has(top),
    ensures
        fits(store, provider, top),
{
    if top > 0 && store.blocks.contains_key(top - 1) {
        assert(ingested(store, provider, top - 1));
        assert(provider.blocks[top - provider.base].parent_hash == provider.blocks[top - 1
            - provider.base].hash);
    }
}

/// On a store that holds nothing but blocks of the provider, the heights
/// from `gap` on that the store lacks are filled in and the provider's
/// blocks from `low` to `head` are written without a fault. The store then
/// still holds nothing but blocks of the provider, among them every height
/// from `gap` and from `low` to `head`, and the watermark stands at `head`
/// unless it stood higher.
pub proof fn lemma_filled_on_the_same_chain(
    store: StoreModel,
    provider: SnapshotModel,
    gap: int,
    low: int,
    head: int,
)
    requires
        provider.wf(),
        follows(store, provider),
        0 <= low <= head,
        provider.has(low),
        provider.has(head),
        gap < low ==> provider.has(gap),
    ensures
        filled(store, provider, gap, low, head, store.watermark).1 is None,
        follows(filled(store, provider, gap, low, head, store.watermark).0, provider),
        forall|h: int|
            (gap <= h <= head || low <= h <= head) ==> #[trigger] filled(
                store,
                provider,
                gap,
                low,
                head,
                store.watermark,
            ).0.blocks.contains_key(h),
        filled(store, provider, gap, low, head, store.watermark).0.watermark == if store.watermark
            < head {
            head
        } else {
            store.watermark
        },
    decreases low - gap,
{
    if gap >= low {
        let after = committed(store, provider, low, head, store.watermark);
        assert forall|h: int| #[trigger] after.blocks.contains_key(h) implies ingested(
            after,
            provider,
            h,
        ) by {
            if !(low <= h <= head) {
                assert(store.blocks.contains_key(h));
            }
        }
    } else if store.blocks.contains_key(gap) {
        lemma_filled_on_the_same_chain(store, provider, gap + 1, low, head);
        lemma_filled_keeps(store, provider, gap + 1, low, head, store.watermark, gap);
    } else {
        let next = with_block(store, provider, gap);
        assert forall|h: int| #[trigger] next.blocks.contains_key(h) implies ingested(
            next,
            provider,
            h,
        ) by {
            if h != gap {
                assert(store.blocks.contains_key(h));
            }
        }
        lemma_filled_on_the_same_chain(next, provider, gap + 1, low, head);
        let after = filled(next, provider, gap + 1, low, head, store.watermark).0;
        assert forall|h: int| (gap <= h <= head || low <= h <= head) implies #[trigger]
            after.blocks.contains_key(h) by {
            if h == gap {
                lemma_filled_keeps(next, provider, gap + 1, low, head, store.watermark, gap);
            }
        }
    }
}

/// Filling and writing take no height from the store.
pub proof fn lemma_filled_keeps(
    store: StoreModel,
    provider: SnapshotModel,
    gap: int,
    low: int,
    head: int,
    mark: int,
    height: int,
)
    requires
        store.blocks.contains_key(height),
    ensures
        filled(store, provider, gap, low, head, mark).0.blocks.contains_key(height),
    decreases low - gap,
{
    if gap >= low {
    } else if store.blocks.contains_key(gap) {
        lemma_filled_keeps(store, provider, gap + 1, low, head, mark, height);
    } else if provider.has(gap) {
        lemma_filled_keeps(
            with_block(store, provider, gap),
            provider,
            gap + 1,
            low,
            head,
            mark,
            height,
        );
    }
}

/// Following the chain that is stored: on a store that holds nothing but
/// blocks of the provider, an announced head that the provider holds is
/// reconciled without a fault. The store then still holds nothing but blocks
/// of the provider, among them every height from the old watermark to the
/// head, and the watermark stands at the head unless it stood higher.
pub proof fn lemma_following_the_provider(
    store: StoreModel,
    provider: SnapshotModel,
    depth: int,
    head: int,
)
    requires
        provider.wf(),
        -1 <= store.watermark,
        follows(store, provider),
        0 <= head,
        provider.has(head),
        store.watermark + 1 < head ==> provider.has(store.watermark + 1),
    ensures
        reconciled(store, provider, depth, head).1 is None,
        follows(reconciled(store, provider, depth, head).0, provider),
        forall|h: int|
            store.watermark < h <= head ==> #[trigger] reconciled(
                store,
                provider,
                depth,
                head,
            ).0.blocks.contains_key(h),
        reconciled(store, provider, depth, head).0.watermark == if store.watermark < head {
            head
        } else {
            store.watermark
        },
{
    lemma_fits_on_the_same_chain(store, provider, head);
    lemma_filled_on_the_same_chain(store, provider, store.watermark + 1, head, head);
}

/// In a store that holds nothing but blocks of the provider, and one at
/// every height from `start` to `end`, each of them but the lowest is built
/// on the block below it.
pub proof fn lemma_same_chain_is_linked(
    store: StoreModel,
    provider: SnapshotModel,
    start: int,
    end: int,
)
    requires
        provider.wf(),
        follows(store, provider),
        forall|h: int| start <= h <= end ==> #[trigger] store.blocks.contains_key(h),
    ensures
        store.linked(start, end),
{
    assert forall|h: int| start < h <= end implies (#[trigger] store.blocks[h]).parent_hash
        == store.blocks[h - 1].hash by {
        assert(store.blocks.contains_key(h));
        assert(store.blocks.contains_key(h - 1));
        assert(ingested(store, provider, h));
        assert(ingested(store, provider, h - 1));
        assert(provider.blocks[h - provider.base].parent_hash == provider.blocks[h - 1
            - provider.base].hash);
    }
}

/// A backfill from the provider into a store that holds nothing but blocks
/// of the provider leaves such a store.
pub proof fn lemma_backfill_follows(
    before: StoreModel,
    provider: SnapshotModel,
    start: int,
    end: int,
    size: int,
)
    requires
        follows(before, provider),
        start <= end ==> provider.has(start) && provider.has(end),
    ensures
        follows(backfilled(before, provider, start, end, size), provider),
{
    let after = backfilled(before, provider, start, end, size);
    assert forall|h: int| #[trigger] after.blocks.contains_key(h) implies ingested(
        after,
        provider,
        h,
    ) by {
        if !(start <= h <= end) {
            assert(before.blocks.contains_key(h));
        }
    }
}

} // verus!

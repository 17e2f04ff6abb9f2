use evm_indexer::batch::Batch;
use evm_indexer::block::BlockRecord;
use evm_indexer::error::{ConfigError, PipelineError, RpcError};
use evm_indexer::reconcile::subscribe_heads;
use evm_indexer::retry::RetryPolicy;
use evm_indexer::snapshot::ChainSnapshot;
use evm_indexer::store::BlockStore;
use evm_indexer::subscriber::{Action, Event, Phase, Subscriber};

fn hash_of(height: i64, branch: u8) -> [u8; 32] {
    let mut h = [branch; 32];
    h[..8].copy_from_slice(&height.to_be_bytes());
    h
}

fn block(height: i64, branch: u8, parent_branch: u8) -> BlockRecord {
    BlockRecord {
        chain_id: 1,
        height,
        hash: hash_of(height, branch),
        parent_hash: hash_of(height - 1, parent_branch),
        timestamp: 1_600_000_000 + height as u64,
        payload: vec![branch, height as u8],
    }
}

/// The chain of branch 1 up to `fork - 1`, and of `branch` from `fork` to `to`.
fn forked(to: i64, fork: i64, branch: u8) -> Vec<BlockRecord> {
    (0..=to)
        .map(|h| {
            if h < fork {
                block(h, 1, 1)
            } else if h == fork {
                block(h, branch, 1)
            } else {
                block(h, branch, branch)
            }
        })
        .collect()
}

fn provider(blocks: Vec<BlockRecord>) -> ChainSnapshot {
    ChainSnapshot::new(1, 0, blocks).unwrap()
}

fn store_with(blocks: &Vec<BlockRecord>, watermark: i64) -> BlockStore {
    let mut db = BlockStore::new(1, watermark + 1).unwrap();
    db.upsert_blocks(blocks).unwrap();
    db
}

fn contents(db: &BlockStore, to: i64) -> Vec<Option<BlockRecord>> {
    (0..=to).map(|h| db.get(h).cloned()).collect()
}

fn assert_linked(db: &BlockStore, from: i64, to: i64) {
    for h in (from + 1)..=to {
        assert_eq!(db.get(h).unwrap().parent_hash, db.get(h - 1).unwrap().hash, "height {}", h);
    }
}

#[test]
fn next_head_on_the_stored_chain_is_appended() {
    let rpc = provider(forked(11, 0, 1));
    let mut db = store_with(&forked(10, 0, 1), 10);
    assert_eq!(subscribe_heads(&rpc, &mut db, 5, &vec![11]), Ok(()));
    assert_eq!(db.last_synced_block(), 11);
    assert_eq!(contents(&db, 12), {
        let mut all: Vec<Option<BlockRecord>> = forked(11, 0, 1).into_iter().map(Some).collect();
        all.push(None);
        all
    });
}

#[test]
fn competing_chain_within_the_depth_is_taken_over() {
    for k in 1..=5 {
        let new = forked(21, 21 - k, 2);
        let rpc = provider(new.clone());
        let mut db = store_with(&forked(20, 0, 1), 20);
        assert_eq!(subscribe_heads(&rpc, &mut db, 5, &vec![21]), Ok(()), "depth {}", k);
        let stored: Vec<Option<BlockRecord>> = new.into_iter().map(Some).collect();
        assert_eq!(contents(&db, 21), stored);
        assert_eq!(db.last_synced_block(), 21);
        assert_linked(&db, 0, 21);
    }
}

#[test]
fn competing_head_at_the_watermark_leaves_the_watermark() {
    let new = forked(20, 17, 3);
    let rpc = provider(new.clone());
    let mut db = store_with(&forked(20, 0, 1), 20);
    assert_eq!(subscribe_heads(&rpc, &mut db, 12, &vec![20]), Ok(()));
    let stored: Vec<Option<BlockRecord>> = new.into_iter().map(Some).collect();
    assert_eq!(contents(&db, 20), stored);
    assert_eq!(db.last_synced_block(), 20);
    assert_linked(&db, 0, 20);
}

#[test]
fn competing_chain_deeper_than_the_depth_is_not_accepted() {
    let rpc = provider(forked(21, 10, 2));
    let mut db = store_with(&forked(20, 0, 1), 20);
    let before = contents(&db, 22);
    assert_eq!(
        subscribe_heads(&rpc, &mut db, 5, &vec![21]),
        Err(PipelineError::ReconciliationExhausted)
    );
    assert_eq!(contents(&db, 22), before);
    assert_eq!(db.last_synced_block(), 20);
}

#[test]
fn depth_is_counted_in_blocks_walked_down() {
    let new = forked(21, 16, 2);
    let rpc = provider(new.clone());
    let mut exact = store_with(&forked(20, 0, 1), 20);
    assert_eq!(subscribe_heads(&rpc, &mut exact, 5, &vec![21]), Ok(()));
    let mut short = store_with(&forked(20, 0, 1), 20);
    assert_eq!(
        subscribe_heads(&rpc, &mut short, 4, &vec![21]),
        Err(PipelineError::ReconciliationExhausted)
    );
    let mut none = store_with(&forked(20, 0, 1), 20);
    assert_eq!(
        subscribe_heads(&provider(forked(21, 21, 2)), &mut none, 0, &vec![21]),
        Ok(())
    );
    assert_eq!(none.last_synced_block(), 21);
    let mut zero = store_with(&forked(20, 0, 1), 20);
    assert_eq!(
        subscribe_heads(&provider(forked(21, 20, 2)), &mut zero, 0, &vec![21]),
        Err(PipelineError::ReconciliationExhausted)
    );
}

#[test]
fn heads_after_a_fault_are_not_reconciled() {
    let rpc = provider(forked(23, 10, 2));
    let mut db = store_with(&forked(20, 0, 1), 20);
    let before = contents(&db, 24);
    assert_eq!(
        subscribe_heads(&rpc, &mut db, 5, &vec![21, 22, 23]),
        Err(PipelineError::ReconciliationExhausted)
    );
    assert_eq!(contents(&db, 24), before);
}

#[test]
fn missed_heights_are_filled_in_before_the_head() {
    let rpc = provider(forked(30, 0, 1));
    let mut db = store_with(&forked(20, 0, 1), 20);
    assert_eq!(subscribe_heads(&rpc, &mut db, 5, &vec![25]), Ok(()));
    assert_eq!(db.last_synced_block(), 25);
    assert_eq!(db.get(26), None);
    assert_linked(&db, 0, 25);
    assert_eq!(subscribe_heads(&rpc, &mut db, 5, &vec![26, 27, 30]), Ok(()));
    assert_eq!(db.last_synced_block(), 30);
    assert_linked(&db, 0, 30);
}

#[test]
fn first_heads_of_an_empty_store() {
    let rpc = provider(forked(3, 0, 1));
    let mut db = BlockStore::new(1, 0).unwrap();
    assert_eq!(subscribe_heads(&rpc, &mut db, 5, &vec![0, 1, 3]), Ok(()));
    assert_eq!(db.last_synced_block(), 3);
    assert_linked(&db, 0, 3);
    assert_eq!(subscribe_heads(&rpc, &mut db, 5, &vec![]), Ok(()));
    assert_eq!(db.last_synced_block(), 3);
}

#[test]
fn repeated_and_older_heads_leave_the_watermark() {
    let rpc = provider(forked(20, 0, 1));
    let mut db = store_with(&forked(20, 0, 1), 20);
    let before = contents(&db, 21);
    assert_eq!(subscribe_heads(&rpc, &mut db, 5, &vec![20, 15, 20, -3]), Ok(()));
    assert_eq!(contents(&db, 21), before);
    assert_eq!(db.last_synced_block(), 20);
}

#[test]
fn head_that_the_provider_lacks_is_a_fault() {
    let rpc = provider(forked(20, 0, 1));
    let mut db = store_with(&forked(20, 0, 1), 20);
    assert_eq!(
        subscribe_heads(&rpc, &mut db, 5, &vec![22]),
        Err(PipelineError::Rpc(RpcError::NotFound))
    );
    assert_eq!(db.last_synced_block(), 20);
}

#[test]
fn subscription_is_refused_on_a_wrong_configuration() {
    let rpc = provider(forked(20, 0, 1));
    let mut db = store_with(&forked(20, 0, 1), 20);
    assert_eq!(
        subscribe_heads(&rpc, &mut db, -1, &vec![21]),
        Err(PipelineError::Config(ConfigError::NegativeReorgDepth))
    );
    let mut other = BlockStore::new(2, 0).unwrap();
    assert_eq!(
        subscribe_heads(&rpc, &mut other, 5, &vec![0]),
        Err(PipelineError::Config(ConfigError::ChainMismatch))
    );
    assert_eq!(other.get(0), None);
}

#[test]
fn subscriber_connects_with_backoff_and_gives_up() {
    let mut sub = Subscriber::new(1, 5, RetryPolicy::standard()).unwrap();
    assert_eq!(sub.phase(), Phase::Connecting { failures: 0 });
    assert_eq!(sub.step(Event::Head { height: 5, watermark: 4 }), Action::Ignore);
    assert_eq!(sub.step(Event::ConnectFailed(RpcError::Unavailable)), Action::Connect { after_ms: 500 });
    assert_eq!(sub.step(Event::ConnectFailed(RpcError::Unavailable)), Action::Connect { after_ms: 1_000 });
    assert_eq!(sub.step(Event::StreamEnded(RpcError::Unavailable)), Action::Connect { after_ms: 2_000 });
    assert_eq!(sub.step(Event::ConnectFailed(RpcError::Unavailable)), Action::Connect { after_ms: 4_000 });
    assert_eq!(sub.phase(), Phase::Connecting { failures: 4 });
    assert_eq!(
        sub.step(Event::ConnectFailed(RpcError::Unavailable)),
        Action::Stop(PipelineError::Rpc(RpcError::Unavailable))
    );
    assert_eq!(sub.phase(), Phase::Failed(PipelineError::Rpc(RpcError::Unavailable)));
    assert_eq!(sub.step(Event::Connected), Action::Stop(PipelineError::Rpc(RpcError::Unavailable)));
    assert_eq!(Subscriber::new(1, -1, RetryPolicy::standard()).err(), Some(ConfigError::NegativeReorgDepth));
}

#[test]
fn subscriber_walks_down_and_commits_lowest_first() {
    let mut sub = Subscriber::new(1, 2, RetryPolicy::standard()).unwrap();
    assert_eq!(sub.step(Event::Connected), Action::AwaitHead);
    assert_eq!(sub.phase(), Phase::Streaming);
    assert_eq!(sub.step(Event::Head { height: -1, watermark: 9 }), Action::AwaitHead);
    assert_eq!(
        sub.step(Event::Head { height: 10, watermark: 9 }),
        Action::FetchBlock { height: 10, after_ms: 0 }
    );
    assert_eq!(sub.step(Event::Committed), Action::Ignore);
    assert_eq!(sub.step(Event::Block(block(10, 2, 2))), Action::LoadStored { height: 9 });
    assert_eq!(sub.phase(), Phase::Comparing);
    assert_eq!(
        sub.step(Event::Stored(Some(hash_of(9, 1)))),
        Action::FetchBlock { height: 9, after_ms: 0 }
    );
    assert_eq!(sub.step(Event::Block(block(9, 2, 1))), Action::LoadStored { height: 8 });
    assert_eq!(
        sub.step(Event::Stored(Some(hash_of(8, 1)))),
        Action::Commit {
            records: vec![block(9, 2, 1), block(10, 2, 2)],
            advance: Some(Batch { start: 10, end: 10 })
        }
    );
    assert_eq!(sub.phase(), Phase::Committing);
    assert_eq!(sub.step(Event::Committed), Action::AwaitHead);
    assert_eq!(sub.phase(), Phase::Streaming);
}

#[test]
fn subscriber_stops_when_the_depth_is_used_up() {
    let mut sub = Subscriber::new(1, 1, RetryPolicy::standard()).unwrap();
    sub.step(Event::Connected);
    sub.step(Event::Head { height: 10, watermark: 9 });
    sub.step(Event::Block(block(10, 2, 2)));
    assert_eq!(
        sub.step(Event::Stored(Some(hash_of(9, 1)))),
        Action::FetchBlock { height: 9, after_ms: 0 }
    );
    assert_eq!(sub.step(Event::Block(block(9, 2, 2))), Action::LoadStored { height: 8 });
    assert_eq!(
        sub.step(Event::Stored(Some(hash_of(8, 1)))),
        Action::Stop(PipelineError::ReconciliationExhausted)
    );
    assert_eq!(sub.phase(), Phase::Failed(PipelineError::ReconciliationExhausted));
}

#[test]
fn subscriber_refuses_a_block_that_was_not_asked_for() {
    let mut sub = Subscriber::new(1, 3, RetryPolicy::standard()).unwrap();
    sub.step(Event::Connected);
    sub.step(Event::Head { height: 10, watermark: 9 });
    assert_eq!(
        sub.step(Event::Block(block(11, 1, 1))),
        Action::FetchBlock { height: 10, after_ms: 500 }
    );
    let foreign = BlockRecord { chain_id: 2, ..block(10, 1, 1) };
    assert_eq!(sub.step(Event::Block(foreign)), Action::FetchBlock { height: 10, after_ms: 1_000 });
    assert_eq!(
        sub.step(Event::FetchFailed(RpcError::NotFound)),
        Action::FetchBlock { height: 10, after_ms: 2_000 }
    );
    assert_eq!(sub.phase(), Phase::Fetching { height: 10, failures: 3 });
    assert_eq!(sub.step(Event::Block(block(10, 2, 2))), Action::LoadStored { height: 9 });
    sub.step(Event::Stored(Some(hash_of(9, 1))));
    assert_eq!(
        sub.step(Event::Block(block(9, 3, 1))),
        Action::FetchBlock { height: 9, after_ms: 500 }
    );
    assert_eq!(sub.step(Event::Block(block(9, 2, 1))), Action::LoadStored { height: 8 });
}

#[test]
fn subscriber_fills_a_gap_height_by_height() {
    let mut sub = Subscriber::new(1, 3, RetryPolicy::standard()).unwrap();
    sub.step(Event::Connected);
    assert_eq!(
        sub.step(Event::Head { height: 7, watermark: 4 }),
        Action::FetchBlock { height: 7, after_ms: 0 }
    );
    assert_eq!(sub.step(Event::Block(block(7, 1, 1))), Action::LoadStored { height: 6 });
    assert_eq!(sub.step(Event::Stored(None)), Action::LoadStored { height: 5 });
    assert_eq!(sub.phase(), Phase::Probing);
    assert_eq!(sub.step(Event::Stored(None)), Action::FetchBlock { height: 5, after_ms: 0 });
    assert_eq!(sub.phase(), Phase::Filling { failures: 0 });
    assert_eq!(
        sub.step(Event::FetchFailed(RpcError::Unavailable)),
        Action::FetchBlock { height: 5, after_ms: 500 }
    );
    assert_eq!(
        sub.step(Event::Block(block(6, 1, 1))),
        Action::FetchBlock { height: 5, after_ms: 1_000 }
    );
    assert_eq!(
        sub.step(Event::Block(block(5, 1, 1))),
        Action::Commit { records: vec![block(5, 1, 1)], advance: None }
    );
    assert_eq!(sub.phase(), Phase::Storing);
    assert_eq!(sub.step(Event::Committed), Action::LoadStored { height: 6 });
    assert_eq!(
        sub.step(Event::Stored(Some(hash_of(6, 1)))),
        Action::Commit {
            records: vec![block(7, 1, 1)],
            advance: Some(Batch { start: 5, end: 7 })
        }
    );
    assert_eq!(sub.phase(), Phase::Committing);
    assert_eq!(sub.step(Event::Committed), Action::AwaitHead);
    assert_eq!(sub.phase(), Phase::Streaming);
}

#[test]
fn subscriber_gives_up_a_missing_height_after_the_last_attempt() {
    let mut sub = Subscriber::new(1, 3, RetryPolicy::standard()).unwrap();
    sub.step(Event::Connected);
    sub.step(Event::Head { height: 7, watermark: 5 });
    sub.step(Event::Block(block(7, 1, 1)));
    assert_eq!(sub.step(Event::Stored(None)), Action::LoadStored { height: 6 });
    assert_eq!(sub.step(Event::Stored(None)), Action::FetchBlock { height: 6, after_ms: 0 });
    for wait in [500, 1_000, 2_000, 4_000] {
        assert_eq!(
            sub.step(Event::FetchFailed(RpcError::NotFound)),
            Action::FetchBlock { height: 6, after_ms: wait }
        );
    }
    assert_eq!(
        sub.step(Event::FetchFailed(RpcError::NotFound)),
        Action::Stop(PipelineError::Rpc(RpcError::NotFound))
    );
    assert_eq!(sub.phase(), Phase::Failed(PipelineError::Rpc(RpcError::NotFound)));
}

#[test]
fn subscriber_stops_when_a_missing_height_is_refused() {
    let mut sub = Subscriber::new(1, 3, RetryPolicy::standard()).unwrap();
    sub.step(Event::Connected);
    sub.step(Event::Head { height: 7, watermark: 5 });
    sub.step(Event::Block(block(7, 1, 1)));
    sub.step(Event::Stored(None));
    sub.step(Event::Stored(None));
    assert_eq!(
        sub.step(Event::Block(block(6, 1, 1))),
        Action::Commit { records: vec![block(6, 1, 1)], advance: None }
    );
    assert_eq!(sub.step(Event::Stored(None)), Action::Ignore);
    assert_eq!(sub.step(Event::CommitFailed), Action::Stop(PipelineError::Persistence));
}

#[test]
fn subscriber_commits_the_first_block_without_comparing() {
    let mut sub = Subscriber::new(1, 3, RetryPolicy::standard()).unwrap();
    sub.step(Event::Connected);
    assert_eq!(
        sub.step(Event::Head { height: 0, watermark: -1 }),
        Action::FetchBlock { height: 0, after_ms: 0 }
    );
    assert_eq!(
        sub.step(Event::Block(block(0, 1, 1))),
        Action::Commit {
            records: vec![block(0, 1, 1)],
            advance: Some(Batch { start: 0, end: 0 })
        }
    );
    assert_eq!(
        sub.step(Event::CommitFailed),
        Action::Stop(PipelineError::Persistence)
    );
}

#[test]
fn subscriber_reconnects_when_the_stream_ends() {
    let mut sub = Subscriber::new(1, 3, RetryPolicy::standard()).unwrap();
    sub.step(Event::Connected);
    assert_eq!(sub.step(Event::StreamEnded(RpcError::Unavailable)), Action::Connect { after_ms: 500 });
    assert_eq!(sub.phase(), Phase::Connecting { failures: 1 });
    assert_eq!(sub.step(Event::Connected), Action::AwaitHead);
}

#[test]
fn deep_divergence_above_the_watermark_is_not_accepted() {
    for watermark in [10, 14, 18, 19, 20] {
        let rpc = provider(forked(21, 15, 2));
        let mut db = store_with(&forked(20, 0, 1), watermark);
        let before = contents(&db, 22);
        assert_eq!(
            subscribe_heads(&rpc, &mut db, 5, &vec![21, 21]),
            Err(PipelineError::ReconciliationExhausted),
            "watermark {}",
            watermark
        );
        assert_eq!(contents(&db, 22), before);
        assert_eq!(db.last_synced_block(), watermark);
    }
}

#[test]
fn divergence_within_the_depth_above_the_watermark_is_taken_over() {
    let new = forked(21, 17, 2);
    let rpc = provider(new.clone());
    let mut db = store_with(&forked(20, 0, 1), 10);
    assert_eq!(subscribe_heads(&rpc, &mut db, 5, &vec![21]), Ok(()));
    let stored: Vec<Option<BlockRecord>> = new.into_iter().map(Some).collect();
    assert_eq!(contents(&db, 21), stored);
    assert_eq!(db.last_synced_block(), 21);
    assert_linked(&db, 0, 21);
}

#[test]
fn only_the_heights_that_the_store_lacks_are_filled_in() {
    let rpc = provider(forked(15, 0, 1));
    let mut held = forked(10, 0, 1);
    held.push(BlockRecord { payload: vec![0xaa], ..block(13, 1, 1) });
    let mut db = store_with(&held, 10);
    assert_eq!(subscribe_heads(&rpc, &mut db, 5, &vec![15]), Ok(()));
    assert_eq!(db.last_synced_block(), 15);
    assert_eq!(db.get(11), Some(&block(11, 1, 1)));
    assert_eq!(db.get(12), Some(&block(12, 1, 1)));
    assert_eq!(db.get(13).unwrap().payload, vec![0xaa]);
    assert_eq!(db.get(14), Some(&block(14, 1, 1)));
    assert_eq!(db.get(15), Some(&block(15, 1, 1)));
    assert_linked(&db, 0, 15);
}

#[test]
fn missing_height_that_the_provider_lacks_is_a_fault() {
    let rpc = ChainSnapshot::new(1, 13, (13..=15).map(|h| block(h, 1, 1)).collect()).unwrap();
    let mut db = store_with(&forked(10, 0, 1), 10);
    assert_eq!(
        subscribe_heads(&rpc, &mut db, 5, &vec![15]),
        Err(PipelineError::Rpc(RpcError::NotFound))
    );
    assert_eq!(db.last_synced_block(), 10);
    assert_eq!(db.get(11), None);
    assert_eq!(db.get(15), None);
}

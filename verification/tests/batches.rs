use evm_indexer::backfill::{BackfillPool, Slot};
use evm_indexer::batch::{next_batch, Batch};
use evm_indexer::error::{ConfigError, PipelineError, RpcError};
use evm_indexer::retry::{RetryDecision, RetryPolicy};

#[test]
fn next_batch_takes_full_batches_then_the_rest() {
    assert_eq!(next_batch(100, 105, 2), Some(Batch { start: 101, end: 102 }));
    assert_eq!(next_batch(102, 105, 2), Some(Batch { start: 103, end: 104 }));
    assert_eq!(next_batch(104, 105, 2), Some(Batch { start: 105, end: 105 }));
    assert_eq!(next_batch(105, 105, 2), None);
}

#[test]
fn next_batch_from_the_first_height() {
    assert_eq!(next_batch(-1, 9, 10), Some(Batch { start: 0, end: 9 }));
    assert_eq!(next_batch(-1, 9, 11), Some(Batch { start: 0, end: 9 }));
    assert_eq!(next_batch(-1, 9, 9), Some(Batch { start: 0, end: 8 }));
    assert_eq!(next_batch(-1, 0, 1), Some(Batch { start: 0, end: 0 }));
}

#[test]
fn next_batch_refuses_what_is_no_range() {
    assert_eq!(next_batch(7, 3, 2), None);
    assert_eq!(next_batch(-2, 3, 2), None);
    assert_eq!(next_batch(0, 3, 0), None);
    assert_eq!(next_batch(i64::MAX, i64::MAX, 1), None);
}

#[test]
fn next_batch_at_the_limits_of_the_height_type() {
    assert_eq!(
        next_batch(-1, i64::MAX, usize::MAX),
        Some(Batch { start: 0, end: i64::MAX })
    );
    assert_eq!(
        next_batch(i64::MAX - 1, i64::MAX, 5),
        Some(Batch { start: i64::MAX, end: i64::MAX })
    );
    assert_eq!(next_batch(-1, i64::MAX, 1), Some(Batch { start: 0, end: 0 }));
}

#[test]
fn standard_policy_waits_twice_as_long_each_time() {
    let p = RetryPolicy::standard();
    assert_eq!(p, RetryPolicy { max_attempts: 5, base_delay_ms: 500, max_delay_ms: 30_000 });
    assert_eq!(p.delay_ms(0), 500);
    assert_eq!(p.delay_ms(1), 500);
    assert_eq!(p.delay_ms(2), 1_000);
    assert_eq!(p.delay_ms(3), 2_000);
    assert_eq!(p.delay_ms(4), 4_000);
    assert_eq!(p.delay_ms(6), 16_000);
    assert_eq!(p.delay_ms(7), 30_000);
    assert_eq!(p.delay_ms(u32::MAX), 30_000);
}

#[test]
fn backoff_is_capped_and_survives_large_values() {
    let p = RetryPolicy { max_attempts: 3, base_delay_ms: u64::MAX - 1, max_delay_ms: u64::MAX };
    assert_eq!(p.delay_ms(1), u64::MAX - 1);
    assert_eq!(p.delay_ms(2), u64::MAX);
    let q = RetryPolicy { max_attempts: 3, base_delay_ms: 700, max_delay_ms: 100 };
    assert_eq!(q.delay_ms(1), 100);
    let z = RetryPolicy { max_attempts: 3, base_delay_ms: 0, max_delay_ms: 100 };
    assert_eq!(z.delay_ms(9), 0);
}

#[test]
fn policy_gives_up_after_the_last_attempt() {
    let p = RetryPolicy::standard();
    assert_eq!(p.decide(1), RetryDecision::RetryAfter(500));
    assert_eq!(p.decide(4), RetryDecision::RetryAfter(4_000));
    assert_eq!(p.decide(5), RetryDecision::GiveUp);
    assert_eq!(p.decide(6), RetryDecision::GiveUp);
    let none = RetryPolicy { max_attempts: 0, base_delay_ms: 1, max_delay_ms: 1 };
    assert_eq!(none.decide(1), RetryDecision::GiveUp);
}

#[test]
fn pool_refuses_a_wrong_configuration() {
    let p = RetryPolicy::standard();
    assert_eq!(BackfillPool::new(-1, 5, 2, 2, p).err(), Some(ConfigError::NegativeHeight));
    assert_eq!(BackfillPool::new(0, 5, 0, 2, p).err(), Some(ConfigError::ZeroBatchSize));
    assert_eq!(BackfillPool::new(0, 5, 2, 0, p).err(), Some(ConfigError::ZeroWorkers));
    assert_eq!(BackfillPool::new(-1, 5, 0, 0, p).err(), Some(ConfigError::NegativeHeight));
    assert_eq!(BackfillPool::new(0, 5, 0, 0, p).err(), Some(ConfigError::ZeroBatchSize));
    assert!(BackfillPool::new(0, 5, 1, 1, p).is_ok());
}

#[test]
fn pool_hands_out_batches_in_rising_order() {
    let mut pool = BackfillPool::new(101, 105, 2, 2, RetryPolicy::standard()).unwrap();
    assert_eq!(pool.worker_count(), 2);
    assert_eq!(pool.frontier(), 100);
    assert!(!pool.is_done());
    assert_eq!(pool.take(0), Some(Batch { start: 101, end: 102 }));
    assert_eq!(pool.take(0), None);
    assert_eq!(pool.take(2), None);
    assert_eq!(pool.take(1), Some(Batch { start: 103, end: 104 }));
    assert_eq!(
        pool.slot(1),
        Slot::Busy { index: 1, batch: Batch { start: 103, end: 104 }, failures: 0 }
    );
    assert_eq!(pool.slot(7), Slot::Idle);
}

#[test]
fn batch_finished_early_waits_for_the_one_before_it() {
    let mut pool = BackfillPool::new(101, 105, 2, 2, RetryPolicy::standard()).unwrap();
    pool.take(0);
    pool.take(1);
    assert_eq!(pool.on_persisted(1), vec![]);
    assert_eq!(pool.frontier(), 100);
    assert_eq!(pool.take(1), Some(Batch { start: 105, end: 105 }));
    assert_eq!(pool.on_persisted(1), vec![]);
    assert_eq!(pool.frontier(), 100);
    assert!(!pool.is_done());
    assert_eq!(
        pool.on_persisted(0),
        vec![
            Batch { start: 101, end: 102 },
            Batch { start: 103, end: 104 },
            Batch { start: 105, end: 105 }
        ]
    );
    assert_eq!(pool.frontier(), 105);
    assert!(pool.is_done());
    assert_eq!(pool.take(0), None);
}

#[test]
fn batches_finished_in_order_settle_one_by_one() {
    let mut pool = BackfillPool::new(0, 3, 3, 1, RetryPolicy::standard()).unwrap();
    assert_eq!(pool.frontier(), -1);
    assert_eq!(pool.take(0), Some(Batch { start: 0, end: 2 }));
    assert_eq!(pool.on_persisted(0), vec![Batch { start: 0, end: 2 }]);
    assert_eq!(pool.frontier(), 2);
    assert_eq!(pool.take(0), Some(Batch { start: 3, end: 3 }));
    assert_eq!(pool.on_persisted(0), vec![Batch { start: 3, end: 3 }]);
    assert_eq!(pool.on_persisted(0), vec![]);
    assert!(pool.is_done());
}

#[test]
fn pool_over_no_height_is_done_at_once() {
    let mut pool = BackfillPool::new(10, 9, 4, 3, RetryPolicy::standard()).unwrap();
    assert!(pool.is_done());
    assert_eq!(pool.frontier(), 9);
    assert_eq!(pool.take(0), None);
    let mut far = BackfillPool::new(10, 2, 4, 3, RetryPolicy::standard()).unwrap();
    assert!(far.is_done());
    assert_eq!(far.frontier(), 9);
    assert_eq!(far.take(1), None);
}

#[test]
fn failed_fetch_is_retried_until_the_attempts_are_used_up() {
    let mut pool = BackfillPool::new(0, 9, 5, 2, RetryPolicy::standard()).unwrap();
    pool.take(0);
    assert_eq!(pool.on_fetch_failed(0, RpcError::Unavailable), RetryDecision::RetryAfter(500));
    assert_eq!(pool.on_fetch_failed(0, RpcError::NotFound), RetryDecision::RetryAfter(1_000));
    assert_eq!(pool.on_fetch_failed(0, RpcError::Unavailable), RetryDecision::RetryAfter(2_000));
    assert_eq!(
        pool.slot(0),
        Slot::Busy { index: 0, batch: Batch { start: 0, end: 4 }, failures: 3 }
    );
    assert_eq!(pool.failure(), None);
    assert_eq!(pool.on_fetch_failed(0, RpcError::Unavailable), RetryDecision::RetryAfter(4_000));
    assert_eq!(pool.on_fetch_failed(0, RpcError::MalformedResponse), RetryDecision::GiveUp);
    assert_eq!(pool.failure(), Some(PipelineError::Rpc(RpcError::MalformedResponse)));
    assert_eq!(pool.take(1), None);
    assert!(!pool.is_done());
    assert_eq!(pool.frontier(), -1);
}

#[test]
fn worker_without_a_batch_has_nothing_to_report() {
    let mut pool = BackfillPool::new(0, 9, 5, 2, RetryPolicy::standard()).unwrap();
    assert_eq!(pool.on_fetch_failed(1, RpcError::Unavailable), RetryDecision::GiveUp);
    assert_eq!(pool.on_fetch_failed(9, RpcError::Unavailable), RetryDecision::GiveUp);
    assert_eq!(pool.failure(), None);
    pool.on_persist_failed(0);
    assert_eq!(pool.failure(), None);
    assert_eq!(pool.on_persisted(0), vec![]);
    assert_eq!(pool.take(0), Some(Batch { start: 0, end: 4 }));
}

#[test]
fn refused_write_stops_the_pool() {
    let mut pool = BackfillPool::new(0, 9, 5, 2, RetryPolicy::standard()).unwrap();
    pool.take(0);
    pool.take(1);
    pool.on_persist_failed(1);
    assert_eq!(pool.failure(), Some(PipelineError::Persistence));
    assert_eq!(pool.on_fetch_failed(0, RpcError::Unavailable), RetryDecision::RetryAfter(500));
    assert_eq!(pool.failure(), Some(PipelineError::Persistence));
    assert_eq!(pool.on_persisted(0), vec![Batch { start: 0, end: 4 }]);
    assert_eq!(pool.take(0), None);
    assert!(!pool.is_done());
}

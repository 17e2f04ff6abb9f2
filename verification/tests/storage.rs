use evm_indexer::batch::Batch;
use evm_indexer::block::{check_range, same_hash, BlockRecord};
use evm_indexer::error::{ConfigError, PipelineError, RpcError};
use evm_indexer::snapshot::ChainSnapshot;
use evm_indexer::store::BlockStore;

fn hash_of(height: i64, branch: u8) -> [u8; 32] {
    let mut h = [branch; 32];
    h[..8].copy_from_slice(&height.to_be_bytes());
    h
}

fn block(chain_id: i64, height: i64, branch: u8, parent_branch: u8) -> BlockRecord {
    BlockRecord {
        chain_id,
        height,
        hash: hash_of(height, branch),
        parent_hash: hash_of(height - 1, parent_branch),
        timestamp: 1_600_000_000 + height as u64,
        payload: vec![branch, height as u8],
    }
}

fn run(chain_id: i64, from: i64, to: i64, branch: u8) -> Vec<BlockRecord> {
    (from..=to).map(|h| block(chain_id, h, branch, branch)).collect()
}

#[test]
fn hashes_are_compared_byte_by_byte() {
    let a = [7u8; 32];
    let mut b = [7u8; 32];
    assert!(same_hash(&a, &b));
    b[31] = 8;
    assert!(!same_hash(&a, &b));
    b[31] = 7;
    b[0] = 0;
    assert!(!same_hash(&a, &b));
}

#[test]
fn duplicate_holds_the_same_values() {
    let b = block(1, 42, 3, 3);
    let c = b.duplicate();
    assert_eq!(b, c);
    let empty = BlockRecord { payload: vec![], ..block(1, 0, 0, 0) };
    assert_eq!(empty.duplicate(), empty);
}

#[test]
fn block_is_built_on_the_block_whose_hash_it_names() {
    let parent = block(1, 9, 1, 1);
    let child = block(1, 10, 1, 1);
    let stranger = block(1, 10, 1, 2);
    assert!(child.builds_on(&parent));
    assert!(!stranger.builds_on(&parent));
    assert!(!parent.builds_on(&child));
}

#[test]
fn range_answer_is_accepted_only_whole() {
    let full = run(1, 5, 8, 1);
    assert_eq!(check_range(1, 5, 8, &full), Ok(()));
    assert_eq!(check_range(1, 5, 9, &full), Err(RpcError::MalformedResponse));
    assert_eq!(check_range(1, 4, 8, &full), Err(RpcError::MalformedResponse));
    assert_eq!(check_range(1, 6, 9, &full), Err(RpcError::MalformedResponse));
    assert_eq!(check_range(2, 5, 8, &full), Err(RpcError::MalformedResponse));
    let mut gap = run(1, 5, 8, 1);
    gap.remove(1);
    assert_eq!(check_range(1, 5, 8, &gap), Err(RpcError::MalformedResponse));
    assert_eq!(check_range(1, 5, 7, &gap), Err(RpcError::MalformedResponse));
    let mut broken = run(1, 5, 8, 1);
    broken[2] = block(1, 7, 1, 9);
    assert_eq!(check_range(1, 5, 8, &broken), Err(RpcError::MalformedResponse));
    let mut swapped = run(1, 5, 8, 1);
    swapped.swap(0, 1);
    assert_eq!(check_range(1, 5, 8, &swapped), Err(RpcError::MalformedResponse));
}

#[test]
fn range_answer_for_no_height_is_refused() {
    assert_eq!(check_range(1, 5, 4, &vec![]), Err(RpcError::MalformedResponse));
    assert_eq!(check_range(1, 5, 5, &vec![]), Err(RpcError::MalformedResponse));
    assert_eq!(check_range(1, 5, 5, &run(1, 5, 5, 0)), Ok(()));
    assert_eq!(check_range(1, i64::MAX, i64::MIN, &vec![]), Err(RpcError::MalformedResponse));
    assert_eq!(check_range(1, i64::MIN, i64::MAX, &vec![]), Err(RpcError::MalformedResponse));
}

#[test]
fn new_store_is_empty_and_stands_below_its_first_block() {
    let store = BlockStore::new(1, 100).unwrap();
    assert_eq!(store.chain_id(), 1);
    assert_eq!(store.last_synced_block(), 99);
    assert_eq!(store.get(100), None);
    let first = BlockStore::new(5, 0).unwrap();
    assert_eq!(first.last_synced_block(), -1);
    assert_eq!(BlockStore::new(1, -1).err(), Some(ConfigError::NegativeHeight));
}

#[test]
fn upsert_overwrites_and_never_duplicates() {
    let mut store = BlockStore::new(1, 0).unwrap();
    assert_eq!(store.upsert_blocks(&run(1, 0, 4, 1)), Ok(()));
    assert_eq!(store.get(3), Some(&block(1, 3, 1, 1)));
    assert_eq!(store.upsert_blocks(&vec![block(1, 3, 2, 1)]), Ok(()));
    assert_eq!(store.get(3), Some(&block(1, 3, 2, 1)));
    assert_eq!(store.get(2), Some(&block(1, 2, 1, 1)));
    assert_eq!(store.get(4), Some(&block(1, 4, 1, 1)));
    assert_eq!(store.get(5), None);
    assert_eq!(store.get(-1), None);
    assert_eq!(store.last_synced_block(), -1);
}

#[test]
fn later_record_of_one_call_wins() {
    let mut store = BlockStore::new(1, 0).unwrap();
    let records = vec![block(1, 7, 1, 1), block(1, 8, 1, 1), block(1, 7, 2, 2)];
    assert_eq!(store.upsert_blocks(&records), Ok(()));
    assert_eq!(store.get(7), Some(&block(1, 7, 2, 2)));
    assert_eq!(store.get(8), Some(&block(1, 8, 1, 1)));
    assert_eq!(store.upsert_blocks(&vec![]), Ok(()));
    assert_eq!(store.get(7), Some(&block(1, 7, 2, 2)));
}

#[test]
fn upsert_is_all_or_nothing() {
    let mut store = BlockStore::new(1, 0).unwrap();
    store.upsert_blocks(&run(1, 0, 2, 1)).unwrap();
    let foreign = vec![block(1, 3, 1, 1), block(2, 4, 1, 1)];
    assert_eq!(store.upsert_blocks(&foreign), Err(PipelineError::Persistence));
    assert_eq!(store.get(3), None);
    let negative = vec![block(1, 1, 5, 5), block(1, -1, 1, 1)];
    assert_eq!(store.upsert_blocks(&negative), Err(PipelineError::Persistence));
    assert_eq!(store.get(1), Some(&block(1, 1, 1, 1)));
    assert_eq!(store.get(-1), None);
}

#[test]
fn watermark_moves_only_from_just_below_the_batch() {
    let mut store = BlockStore::new(1, 101).unwrap();
    assert!(!store.advance_watermark(Batch { start: 103, end: 104 }));
    assert_eq!(store.last_synced_block(), 100);
    assert!(store.advance_watermark(Batch { start: 101, end: 102 }));
    assert_eq!(store.last_synced_block(), 102);
    assert!(!store.advance_watermark(Batch { start: 101, end: 102 }));
    assert!(!store.advance_watermark(Batch { start: 102, end: 110 }));
    assert_eq!(store.last_synced_block(), 102);
    assert!(store.advance_watermark(Batch { start: 103, end: 104 }));
    assert_eq!(store.last_synced_block(), 104);
    assert!(!store.advance_watermark(Batch { start: 105, end: 104 }));
    assert_eq!(store.last_synced_block(), 104);
}

#[test]
fn watermark_moves_from_below_the_first_height() {
    let mut store = BlockStore::new(1, 0).unwrap();
    assert!(!store.advance_watermark(Batch { start: -1, end: 3 }));
    assert!(store.advance_watermark(Batch { start: 0, end: 0 }));
    assert_eq!(store.last_synced_block(), 0);
}

#[test]
fn snapshot_takes_only_a_linked_run_of_one_chain() {
    assert!(ChainSnapshot::new(1, 5, run(1, 5, 9, 1)).is_some());
    assert!(ChainSnapshot::new(1, 5, vec![]).is_some());
    assert!(ChainSnapshot::new(1, 0, run(1, 0, 0, 1)).is_some());
    assert!(ChainSnapshot::new(1, -1, vec![]).is_none());
    assert!(ChainSnapshot::new(1, 4, run(1, 5, 9, 1)).is_none());
    assert!(ChainSnapshot::new(2, 5, run(1, 5, 9, 1)).is_none());
    let mut broken = run(1, 5, 9, 1);
    broken[3] = block(1, 8, 1, 2);
    assert!(ChainSnapshot::new(1, 5, broken).is_none());
    assert!(ChainSnapshot::new(1, i64::MAX, run(1, i64::MAX, i64::MAX, 1)).is_some());
    let mut over = run(1, i64::MAX, i64::MAX, 1);
    over.push(block(1, i64::MIN, 1, 1));
    assert!(ChainSnapshot::new(1, i64::MAX, over).is_none());
}

#[test]
fn snapshot_answers_point_and_range_queries() {
    let s = ChainSnapshot::new(1, 5, run(1, 5, 9, 1)).unwrap();
    assert_eq!(s.chain_id(), 1);
    assert_eq!(s.last_block(), Ok(9));
    assert!(s.has(5) && s.has(9) && !s.has(4) && !s.has(10) && !s.has(-1));
    assert_eq!(s.fetch_block(7), Ok(block(1, 7, 1, 1)));
    assert_eq!(s.fetch_block(10), Err(RpcError::NotFound));
    assert_eq!(s.fetch_block(4), Err(RpcError::NotFound));
    assert_eq!(s.fetch_range(6, 8), Ok(run(1, 6, 8, 1)));
    assert_eq!(s.fetch_range(5, 9), Ok(run(1, 5, 9, 1)));
    assert_eq!(s.fetch_range(9, 9), Ok(run(1, 9, 9, 1)));
    assert_eq!(s.fetch_range(8, 10), Err(RpcError::NotFound));
    assert_eq!(s.fetch_range(4, 6), Err(RpcError::NotFound));
    assert_eq!(s.fetch_range(8, 7), Ok(vec![]));
}

#[test]
fn empty_snapshot_has_no_head() {
    let s = ChainSnapshot::new(1, 5, vec![]).unwrap();
    assert_eq!(s.last_block(), Err(RpcError::NotFound));
    assert!(!s.has(5));
    assert_eq!(s.fetch_block(5), Err(RpcError::NotFound));
    assert_eq!(s.fetch_range(5, 5), Err(RpcError::NotFound));
}

//! The persisted side of ingestion, held in memory: the blocks of one chain
//! by height, and the chain's watermark.

use crate::batch::Batch;
use crate::block::{models, BlockModel, BlockRecord};
use crate::error::{ConfigError, PipelineError};
use std::collections::HashMap;
use vstd::prelude::*;

verus! {

broadcast use vstd::std_specs::hash::group_hash_axioms;

/// The blocks of one chain, at most one for each height, and the highest
/// height up to which the chain is known to be ingested without a gap.
pub struct BlockStore {
    chain_id: i64,
    blocks: HashMap<i64, BlockRecord>,
    watermark: i64,
}

/// What a `BlockStore` holds, as plain values.
pub struct StoreModel {
    pub chain_id: int,
    pub blocks: Map<int, BlockModel>,
    pub watermark: int,
}

impl StoreModel {
    /// Every block is filed under its own height, none is below zero or of
    /// another chain, and the watermark is a height or, before the first
    /// block, one below zero.
    pub open spec fn wf(self) -> bool {
        &&& self.watermark >= -1
        &&& forall|h: int| #[trigger]
            self.blocks.contains_key(h) ==> h >= 0 && self.blocks[h].height == h
                && self.blocks[h].chain_id == self.chain_id
    }

    /// Whether the store has a block at every height from `start` to `end`,
    /// each but the first built on the stored block below it.
    pub open spec fn linked(self, start: int, end: int) -> bool {
        &&& forall|h: int| start <= h <= end ==> #[trigger] self.blocks.contains_key(h)
        &&& forall|h: int|
            start < h <= end ==> (#[trigger] self.blocks[h]).parent_hash == self.blocks[h - 1].hash
    }
}

/// The blocks after `records` have been written over `blocks` one by one, in
/// their order: a later record replaces an earlier one of the same height.
pub open spec fn upserted(blocks: Map<int, BlockModel>, records: Seq<BlockModel>) -> Map<
    int,
    BlockModel,
>
    decreases records.len(),
{
    if records.len() == 0 {
        blocks
    } else {
        upserted(blocks, records.drop_last()).insert(records.last().height, records.last())
    }
}

/// Whether the store of chain `chain_id` takes all of `records`.
pub open spec fn storable(records: Seq<BlockModel>, chain_id: int) -> bool {
    forall|i: int|
        0 <= i < records.len() ==> (#[trigger] records[i]).height >= 0 && records[i].chain_id
            == chain_id
}

/// The watermark after a batch has asked to move it: it moves to the batch's
/// end only from just below the batch's start.
pub open spec fn advanced(watermark: int, batch: Batch) -> int {
    if batch.wf() && watermark == batch.start - 1 {
        batch.end as int
    } else {
        watermark
    }
}

/// Writing a run of blocks at consecutive heights from `start` replaces what
/// those heights held and leaves every other height alone.
pub proof fn lemma_upserted_run(blocks: Map<int, BlockModel>, records: Seq<BlockModel>, start: int)
    requires
        forall|i: int| 0 <= i < records.len() ==> (#[trigger] records[i]).height == start + i,
    ensures
        forall|h: int|
            start <= h < start + records.len() ==> #[trigger] upserted(
                blocks,
                records,
            ).contains_key(h) && upserted(blocks, records)[h] == records[h - start],
        forall|h: int|
            !(start <= h < start + records.len()) ==> (#[trigger] upserted(
                blocks,
                records,
            ).contains_key(h)) == blocks.contains_key(h) && (blocks.contains_key(h) ==> upserted(
                blocks,
                records,
            )[h] == blocks[h]),
    decreases records.len(),
{
    if records.len() > 0 {
        let front = records.drop_last();
        assert forall|i: int| 0 <= i < front.len() implies (#[trigger] front[i]).height == start
            + i by {
            assert(front[i] == records[i]);
        }
        lemma_upserted_run(blocks, front, start);
        assert forall|h: int| start <= h < start + records.len() implies #[trigger] upserted(
            blocks,
            records,
        ).contains_key(h) && upserted(blocks, records)[h] == records[h - start] by {
            if h < start + front.len() {
                assert(upserted(blocks, front).contains_key(h));
                assert(front[h - start] == records[h - start]);
            }
        }
        assert forall|h: int| !(start <= h < start + records.len()) implies (#[trigger] upserted(
            blocks,
            records,
        ).contains_key(h)) == blocks.contains_key(h) && (blocks.contains_key(h) ==> upserted(
            blocks,
            records,
        )[h] == blocks[h]) by {
            assert(upserted(blocks, front).contains_key(h) == blocks.contains_key(h));
        }
    }
}

spec fn model_of(blocks: Map<i64, BlockRecord>) -> Map<int, BlockModel> {
    Map::new(
        |h: int| i64::MIN <= h <= i64::MAX && blocks.contains_key(h as i64),
        |h: int| blocks[h as i64]@,
    )
}

proof fn lemma_model_insert(blocks: Map<i64, BlockRecord>, record: BlockRecord)
    ensures
        model_of(blocks.insert(record.height, record)) == model_of(blocks).insert(
            record.height as int,
            record@,
        ),
{
    assert(model_of(blocks.insert(record.height, record)) =~= model_of(blocks).insert(
        record.height as int,
        record@,
    ));
}

impl View for BlockStore {
    type V = StoreModel;

    closed spec fn view(&self) -> StoreModel {
        StoreModel {
            chain_id: self.chain_id as int,
            blocks: model_of(self.blocks@),
            watermark: self.watermark as int,
        }
    }
}

impl BlockStore {
    #[verifier::type_invariant]
    spec fn inv(&self) -> bool {
        &&& self.watermark >= -1
        &&& forall|k: i64| #[trigger]
            self.blocks@.contains_key(k) ==> k >= 0 && self.blocks@[k].height == k
                && self.blocks@[k].chain_id == self.chain_id
    }

    /// An empty store for chain `chain_id` whose ingestion begins at `initial_block`.
    pub fn new(chain_id: i64, initial_block: i64) -> (made: Result<BlockStore, ConfigError>)
        ensures
            made is Ok <==> initial_block >= 0,
            match made {
                Ok(store) => store@ == (StoreModel {
                    chain_id: chain_id as int,
                    blocks: Map::empty(),
                    watermark: initial_block - 1,
                }),
                Err(e) => e == ConfigError::NegativeHeight,
            },
    {
        if initial_block < 0 {
            return Err(ConfigError::NegativeHeight);
        }
        let store = BlockStore { chain_id, blocks: HashMap::new(), watermark: initial_block - 1 };
        assert(store@.blocks =~= Map::empty());
        Ok(store)
    }

    pub fn chain_id(&self) -> (id: i64)
        ensures
            id == self@.chain_id,
    {
        self.chain_id
    }

    /// The watermark. A store always answers well-formed.
    pub fn last_synced_block(&self) -> (height: i64)
        ensures
            height == self@.watermark,
            self@.wf(),
    {
        proof {
            use_type_invariant(self);
        }
        self.watermark
    }

    /// The block stored at `height`, if there is one.
    pub fn get(&self, height: i64) -> (found: Option<&BlockRecord>)
        ensures
            found is Some <==> self@.blocks.contains_key(height as int),
            found is Some ==> found->0@ == self@.blocks[height as int],
    {
        self.blocks.get(&height)
    }

    /// Writes `records` in their order, each over what its height held
    /// before. Either all of them are written or none is.
    pub fn upsert_blocks(&mut self, records: &Vec<BlockRecord>) -> (written: Result<
        (),
        PipelineError,
    >)
        ensures
            written is Ok <==> storable(models(records@), old(self)@.chain_id),
            written is Ok ==> final(self)@ == (StoreModel {
                blocks: upserted(old(self)@.blocks, models(records@)),
                ..old(self)@
            }),
            written is Err ==> written->Err_0 == PipelineError::Persistence,
            written is Err ==> final(self)@ == old(self)@,
    {
        proof {
            use_type_invariant(&*self);
        }
        let ghost recs = models(records@);
        let mut i: usize = 0;
        while i < records.len()
            invariant
                i <= records.len(),
                recs == models(records@),
                *self == *old(self),
                forall|j: int|
                    0 <= j < i ==> (#[trigger] recs[j]).height >= 0 && recs[j].chain_id
                        == self.chain_id,
            decreases records.len() - i,
        {
            assert(recs[i as int] == records[i as int]@);
            if records[i].height < 0 || records[i].chain_id != self.chain_id {
                return Err(PipelineError::Persistence);
            }
            i = i + 1;
        }
        let mut emptied = BlockStore {
            chain_id: self.chain_id,
            blocks: HashMap::new(),
            watermark: self.watermark,
        };
        std::mem::swap(self, &mut emptied);
        let BlockStore { chain_id, blocks, watermark } = emptied;
        let mut blocks = blocks;
        i = 0;
        while i < records.len()
            invariant
                i <= records.len(),
                recs == models(records@),
                storable(recs, chain_id as int),
                chain_id == old(self).chain_id,
                watermark == old(self).watermark,
                watermark >= -1,
                forall|k: i64| #[trigger]
                    blocks@.contains_key(k) ==> k >= 0 && blocks@[k].height == k
                        && blocks@[k].chain_id == chain_id,
                model_of(blocks@) == upserted(old(self)@.blocks, recs.take(i as int)),
            decreases records.len() - i,
        {
            let copy = records[i].duplicate();
            assert(recs[i as int] == records[i as int]@);
            proof {
                lemma_model_insert(blocks@, copy);
                assert(recs.take(i + 1).drop_last() =~= recs.take(i as int));
            }
            blocks.insert(copy.height, copy);
            i = i + 1;
        }
        *self = BlockStore { chain_id, blocks, watermark };
        assert(recs.take(records.len() as int) =~= recs);
        Ok(())
    }

    /// Moves the watermark to the end of `batch`, but only from the height
    /// just below the batch's start: a batch that was finished before an
    /// earlier one leaves the watermark where it is.
    pub fn advance_watermark(&mut self, batch: Batch) -> (moved: bool)
        ensures
            moved == (batch.wf() && old(self)@.watermark == batch.start - 1),
            final(self)@ == (StoreModel {
                watermark: advanced(old(self)@.watermark, batch),
                ..old(self)@
            }),
    {
        proof {
            use_type_invariant(&*self);
        }
        if batch.start >= 0 && batch.start <= batch.end && self.watermark == batch.start - 1 {
            self.watermark = batch.end;
            true
        } else {
            false
        }
    }
}

} // verus!

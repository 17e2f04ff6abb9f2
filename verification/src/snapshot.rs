//! A provider's chain as it stood at one moment, held in memory and asked
//! the way a provider is asked.

use crate::block::{check_range, covers, models, BlockModel, BlockRecord};
use crate::error::RpcError;
use vstd::prelude::*;

verus! {

/// The blocks of one chain at the heights from `base` upwards, one for each
/// height, each built on the one before it.
pub struct ChainSnapshot {
    chain_id: i64,
    base: i64,
    blocks: Vec<BlockRecord>,
}

/// What a `ChainSnapshot` holds, as plain values.
pub struct SnapshotModel {
    pub chain_id: int,
    pub base: int,
    pub blocks: Seq<BlockModel>,
}

impl SnapshotModel {
    /// The highest height that the snapshot holds; one below `base` if it
    /// holds none.
    pub open spec fn head(self) -> int {
        self.base + self.blocks.len() - 1
    }

    /// Whether the snapshot holds a block at `height`.
    pub open spec fn has(self, height: int) -> bool {
        self.base <= height <= self.head()
    }

    /// The block at `height`.
    pub open spec fn at(self, height: int) -> BlockModel {
        self.blocks[height - self.base]
    }

    /// The blocks at the heights from `start` to `end`.
    pub open spec fn range(self, start: int, end: int) -> Seq<BlockModel> {
        self.blocks.subrange(start - self.base, end - self.base + 1)
    }

    /// The blocks stand at consecutive heights from `base`, none beyond the
    /// highest height there is, all of one chain, each built on the one
    /// before it.
    pub open spec fn wf(self) -> bool {
        &&& self.base >= 0
        &&& self.head() <= i64::MAX
        &&& forall|i: int|
            0 <= i < self.blocks.len() ==> (#[trigger] self.blocks[i]).height == self.base + i
                && self.blocks[i].chain_id == self.chain_id
        &&& forall|i: int|
            0 < i < self.blocks.len() ==> (#[trigger] self.blocks[i]).parent_hash == self.blocks[i
                - 1].hash
    }
}

impl View for ChainSnapshot {
    type V = SnapshotModel;

    closed spec fn view(&self) -> SnapshotModel {
        SnapshotModel {
            chain_id: self.chain_id as int,
            base: self.base as int,
            blocks: models(self.blocks@),
        }
    }
}

impl ChainSnapshot {
    #[verifier::type_invariant]
    spec fn inv(&self) -> bool {
        self@.wf()
    }

    /// The snapshot of chain `chain_id` that holds `blocks` from height
    /// `base` upwards, if they are such a run of blocks.
    pub fn new(chain_id: i64, base: i64, blocks: Vec<BlockRecord>) -> (made: Option<ChainSnapshot>)
        ensures
            made is Some <==> (SnapshotModel {
                chain_id: chain_id as int,
                base: base as int,
                blocks: models(blocks@),
            }).wf(),
            made is Some ==> made->0@ == (SnapshotModel {
                chain_id: chain_id as int,
                base: base as int,
                blocks: models(blocks@),
            }),
    {
        let ghost model = SnapshotModel {
            chain_id: chain_id as int,
            base: base as int,
            blocks: models(blocks@),
        };
        if base < 0 {
            return None;
        }
        if blocks.len() == 0 {
            return Some(ChainSnapshot { chain_id, base, blocks });
        }
        let head: i128 = (base as i128) + (blocks.len() as i128) - 1;
        if head > (i64::MAX as i128) {
            return None;
        }
        match check_range(chain_id, base, head as i64, &blocks) {
            Ok(()) => Some(ChainSnapshot { chain_id, base, blocks }),
            Err(_) => {
                assert(!covers(model.blocks, chain_id as int, base as int, head as int));
                None
            },
        }
    }

    /// The chain that the snapshot is of. A snapshot always answers
    /// well-formed.
    pub fn chain_id(&self) -> (id: i64)
        ensures
            id == self@.chain_id,
            self@.wf(),
    {
        proof {
            use_type_invariant(self);
        }
        self.chain_id
    }

    /// The provider's current head.
    pub fn last_block(&self) -> (head: Result<i64, RpcError>)
        ensures
            head is Ok <==> self@.blocks.len() > 0,
            head is Ok ==> head->Ok_0 == self@.head(),
            head is Err ==> head->Err_0 == RpcError::NotFound,
    {
        proof {
            use_type_invariant(self);
        }
        if self.blocks.len() == 0 {
            Err(RpcError::NotFound)
        } else {
            Ok(((self.base as i128) + (self.blocks.len() as i128) - 1) as i64)
        }
    }

    /// Whether the snapshot holds a block at `height`.
    pub fn has(&self, height: i64) -> (held: bool)
        ensures
            held == self@.has(height as int),
    {
        proof {
            use_type_invariant(self);
        }
        height >= self.base && (height as i128) - (self.base as i128) < (self.blocks.len() as i128)
    }

    /// The block at `height`.
    pub fn fetch_block(&self, height: i64) -> (fetched: Result<BlockRecord, RpcError>)
        ensures
            fetched is Ok <==> self@.has(height as int),
            fetched is Ok ==> fetched->Ok_0@ == self@.at(height as int),
            fetched is Err ==> fetched->Err_0 == RpcError::NotFound,
    {
        proof {
            use_type_invariant(self);
        }
        if !self.has(height) {
            return Err(RpcError::NotFound);
        }
        let offset: i64 = height - self.base;
        assert(self@.blocks.len() == self.blocks@.len());
        assert(0 <= offset < self.blocks.len());
        let i: usize = offset as usize;
        assert(models(self.blocks@)[i as int] == self.blocks@[i as int]@);
        Ok(self.blocks[i].duplicate())
    }

    /// The blocks at every height from `start` to `end`, in rising order, or
    /// none at all: a range that reaches outside the snapshot is not answered
    /// in part. A range that holds no height is answered with no block.
    pub fn fetch_range(&self, start: i64, end: i64) -> (fetched: Result<Vec<BlockRecord>, RpcError>)
        ensures
            fetched is Ok <==> end < start || (self@.has(start as int) && self@.has(end as int)),
            fetched is Ok ==> models(fetched->Ok_0@) == if end < start {
                Seq::empty()
            } else {
                self@.range(start as int, end as int)
            },
            fetched is Err ==> fetched->Err_0 == RpcError::NotFound,
    {
        proof {
            use_type_invariant(self);
        }
        let mut out: Vec<BlockRecord> = Vec::new();
        if end < start {
            assert(models(out@) =~= Seq::empty());
            return Ok(out);
        }
        if !self.has(start) || !self.has(end) {
            return Err(RpcError::NotFound);
        }
        let low: i64 = start - self.base;
        let high: i64 = end - self.base;
        assert(self@.blocks.len() == self.blocks@.len());
        assert(0 <= low <= high < self.blocks.len());
        let from: usize = low as usize;
        let to: usize = high as usize;
        let mut i: usize = from;
        while i <= to
            invariant
                from <= i <= to + 1,
                to < self.blocks.len(),
                models(out@) =~= models(self.blocks@).subrange(from as int, i as int),
            decreases to + 1 - i,
        {
            let copy = self.blocks[i].duplicate();
            let ghost before = models(out@);
            out.push(copy);
            assert(models(out@) =~= before.push(copy@));
            assert(models(self.blocks@)[i as int] == self.blocks@[i as int]@);
            assert(models(out@) =~= models(self.blocks@).subrange(from as int, i + 1));
            i = i + 1;
        }
        Ok(out)
    }
}

/// In a snapshot every block but the lowest is built on the block below it,
/// and a range of it is an answer that `check_range` accepts.
pub proof fn lemma_snapshot_range(snapshot: SnapshotModel, start: int, end: int)
    requires
        snapshot.wf(),
        start <= end,
        snapshot.has(start),
        snapshot.has(end),
    ensures
        covers(snapshot.range(start, end), snapshot.chain_id, start, end),
        forall|h: int|
            start <= h <= end ==> #[trigger] snapshot.range(start, end)[h - start] == snapshot.at(h),
        forall|h: int|
            start < h <= end ==> (#[trigger] snapshot.at(h)).parent_hash == snapshot.at(h - 1).hash,
{
    let part = snapshot.range(start, end);
    assert forall|i: int| 0 < i < part.len() implies crate::block::builds_on(
        #[trigger] part[i],
        part[i - 1],
    ) by {
        assert(part[i] == snapshot.blocks[start - snapshot.base + i]);
        assert(part[i - 1] == snapshot.blocks[start - snapshot.base + i - 1]);
    }
}

} // verus!

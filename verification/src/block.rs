//! The ingested unit: one block of one chain.

use crate::error::RpcError;
use vstd::prelude::*;

verus! {

/// One block as it is stored: where it stands, what it is called, what it
/// was built on, and what it carries.
#[derive(Debug, Clone, PartialEq, Eq)]
pub struct BlockRecord {
    pub chain_id: i64,
    pub height: i64,
    pub hash: [u8; 32],
    pub parent_hash: [u8; 32],
    pub timestamp: u64,
    pub payload: Vec<u8>,
}

/// What a `BlockRecord` holds, as plain values.
pub struct BlockModel {
    pub chain_id: int,
    pub height: int,
    pub hash: Seq<u8>,
    pub parent_hash: Seq<u8>,
    pub timestamp: int,
    pub payload: Seq<u8>,
}

impl View for BlockRecord {
    type V = BlockModel;

    open spec fn view(&self) -> BlockModel {
        BlockModel {
            chain_id: self.chain_id as int,
            height: self.height as int,
            hash: self.hash@,
            parent_hash: self.parent_hash@,
            timestamp: self.timestamp as int,
            payload: self.payload@,
        }
    }
}

/// The models of a run of records.
pub open spec fn models(records: Seq<BlockRecord>) -> Seq<BlockModel> {
    Seq::new(records.len(), |i: int| records[i]@)
}

/// Whether `child` was built directly on `parent`.
pub open spec fn builds_on(child: BlockModel, parent: BlockModel) -> bool {
    child.parent_hash == parent.hash
}

/// Whether `records` are the blocks of chain `chain_id` at the heights from
/// `start` to `end`, one for each height in rising order, each built on the
/// one before it.
pub open spec fn covers(records: Seq<BlockModel>, chain_id: int, start: int, end: int) -> bool {
    &&& start <= end
    &&& records.len() == end - start + 1
    &&& forall|i: int|
        0 <= i < records.len() ==> (#[trigger] records[i]).height == start + i && records[i].chain_id
            == chain_id
    &&& forall|i: int|
        0 < i < records.len() ==> builds_on(#[trigger] records[i], records[i - 1])
}

/// Whether two hashes are the same thirty-two bytes.
pub fn same_hash(a: &[u8; 32], b: &[u8; 32]) -> (same: bool)
    ensures
        same == (a@ == b@),
{
    let mut i: usize = 0;
    while i < 32
        invariant
            i <= 32,
            forall|j: int| 0 <= j < i ==> a@[j] == b@[j],
        decreases 32 - i,
    {
        if a[i] != b[i] {
            return false;
        }
        i = i + 1;
    }
    assert(a@ =~= b@);
    true
}

impl BlockRecord {
    /// A second record that holds the same values.
    pub fn duplicate(&self) -> (copy: BlockRecord)
        ensures
            copy@ == self@,
    {
        let mut payload: Vec<u8> = Vec::new();
        let mut i: usize = 0;
        while i < self.payload.len()
            invariant
                i <= self.payload.len(),
                payload@ == self.payload@.subrange(0, i as int),
            decreases self.payload.len() - i,
        {
            payload.push(self.payload[i]);
            assert(payload@ =~= self.payload@.subrange(0, i + 1));
            i = i + 1;
        }
        assert(payload@ =~= self.payload@);
        BlockRecord {
            chain_id: self.chain_id,
            height: self.height,
            hash: self.hash,
            parent_hash: self.parent_hash,
            timestamp: self.timestamp,
            payload,
        }
    }

    /// Whether this block was built directly on `parent`.
    pub fn builds_on(&self, parent: &BlockRecord) -> (linked: bool)
        ensures
            linked == builds_on(self@, parent@),
    {
        same_hash(&self.parent_hash, &parent.hash)
    }
}

/// Accepts the answer to a range query only if it holds every height asked
/// for: a silent gap, a foreign block or a broken link makes the whole answer
/// malformed.
pub fn check_range(chain_id: i64, start: i64, end: i64, records: &Vec<BlockRecord>) -> (checked:
    Result<(), RpcError>)
    ensures
        checked is Ok <==> covers(models(records@), chain_id as int, start as int, end as int),
        checked is Err ==> checked->Err_0 == RpcError::MalformedResponse,
{
    let ghost recs = models(records@);
    if end < start {
        return Err(RpcError::MalformedResponse);
    }
    let span: i128 = (end as i128) - (start as i128) + 1;
    if (records.len() as u128) != (span as u128) {
        return Err(RpcError::MalformedResponse);
    }
    let mut i: usize = 0;
    while i < records.len()
        invariant
            i <= records.len(),
            recs == models(records@),
            records.len() == end - start + 1,
            forall|j: int|
                0 <= j < i ==> (#[trigger] recs[j]).height == start + j && recs[j].chain_id
                    == chain_id,
            forall|j: int| 0 < j < i ==> builds_on(#[trigger] recs[j], recs[j - 1]),
        decreases records.len() - i,
    {
        let r = &records[i];
        assert(recs[i as int] == r@);
        let expected: i128 = (start as i128) + (i as i128);
        if r.chain_id != chain_id || (r.height as i128) != expected {
            return Err(RpcError::MalformedResponse);
        }
        if i > 0 {
            assert(recs[i - 1] == records[i - 1]@);
            if !r.builds_on(&records[i - 1]) {
                return Err(RpcError::MalformedResponse);
            }
        }
        i = i + 1;
    }
    Ok(())
}

} // verus!

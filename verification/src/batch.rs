//! How a range of heights is cut into consecutive batches.

use vstd::prelude::*;

verus! {

/// The heights from `start` to `end`, both included.
#[derive(Debug, Clone, Copy, PartialEq, Eq, Structural)]
pub struct Batch {
    pub start: i64,
    pub end: i64,
}

impl Batch {
    /// A batch holds at least one height, and none below zero.
    pub open spec fn wf(&self) -> bool {
        0 <= self.start <= self.end
    }

    pub open spec fn contains(&self, height: int) -> bool {
        self.start <= height <= self.end
    }

    /// The number of heights in the batch.
    pub open spec fn len(&self) -> int {
        self.end - self.start + 1
    }
}

/// Where the batch that begins just above `after` ends, in a range that ends
/// at `last`: `size` heights further, or at `last` if that comes first. For
/// `after >= last` there is no such batch and the result is `after`.
pub open spec fn step(after: int, last: int, size: int) -> int {
    if after >= last {
        after
    } else if last - after <= size {
        last
    } else {
        after + size
    }
}

/// The last height of the first `k` batches of the range from `first` to
/// `last`, cut into batches of `size` heights.
pub open spec fn boundary(first: int, last: int, size: int, k: nat) -> int
    decreases k,
{
    if k == 0 {
        first - 1
    } else {
        step(boundary(first, last, size, (k - 1) as nat), last, size)
    }
}

/// The batch number `k`, counted from zero, of the range from `first` to `last`.
pub open spec fn nth_batch(first: int, last: int, size: int, k: nat) -> (int, int) {
    (boundary(first, last, size, k) + 1, boundary(first, last, size, k + 1))
}

/// Whether `height` lies in the batch number `k` of the range from `first` to `last`.
pub open spec fn in_batch(first: int, last: int, size: int, k: nat, height: int) -> bool {
    boundary(first, last, size, k) < height <= boundary(first, last, size, k + 1)
}

/// The batch that begins just above `after`, if the range reaches further.
pub fn next_batch(after: i64, last: i64, size: usize) -> (next: Option<Batch>)
    ensures
        next is Some <==> -1 <= after < last && size > 0,
        next is Some ==> next->0.start == after + 1 && next->0.end == step(
            after as int,
            last as int,
            size as int,
        ),
{
    if after < -1 || after >= last || size == 0 {
        return None;
    }
    let room: i64 = last - 1 - after;
    let end: i64 = if (room as u64) < (size as u64) {
        last
    } else {
        after + (size as i64)
    };
    Some(Batch { start: after + 1, end })
}

/// Boundaries never move down, and never pass the end of the range.
pub proof fn lemma_boundary_step(first: int, last: int, size: int, k: nat)
    requires
        size > 0,
    ensures
        boundary(first, last, size, k) <= boundary(first, last, size, k + 1),
        boundary(first, last, size, k + 1) == step(boundary(first, last, size, k), last, size),
        first - 1 <= boundary(first, last, size, k),
        first <= last + 1 ==> boundary(first, last, size, k) <= last,
        boundary(first, last, size, k) < last ==> boundary(first, last, size, k) >= first - 1 + k,
        boundary(first, last, size, k + 1) - boundary(first, last, size, k) <= size,
    decreases k,
{
    if k > 0 {
        lemma_boundary_step(first, last, size, (k - 1) as nat);
    }
}

/// Later boundaries are not below earlier ones.
pub proof fn lemma_boundary_monotone(first: int, last: int, size: int, i: nat, j: nat)
    requires
        size > 0,
        i <= j,
    ensures
        boundary(first, last, size, i) <= boundary(first, last, size, j),
    decreases j - i,
{
    if i < j {
        lemma_boundary_monotone(first, last, size, i, (j - 1) as nat);
        lemma_boundary_step(first, last, size, (j - 1) as nat);
    }
}

/// Once a boundary has reached the end of the range, so have all later ones.
pub proof fn lemma_boundary_settles(first: int, last: int, size: int, i: nat, j: nat)
    requires
        size > 0,
        i <= j,
        boundary(first, last, size, i) >= last,
    ensures
        boundary(first, last, size, j) == boundary(first, last, size, i),
    decreases j - i,
{
    if i < j {
        lemma_boundary_settles(first, last, size, i, (j - 1) as nat);
        lemma_boundary_step(first, last, size, (j - 1) as nat);
    }
}

/// The batches leave no gap and do not overlap: every height of the range
/// lies in the batch of exactly one number.
pub proof fn lemma_batches_partition(first: int, last: int, size: int, height: int) -> (k: nat)
    requires
        size > 0,
        first <= height <= last,
    ensures
        in_batch(first, last, size, k, height),
        forall|j: nat| #[trigger] in_batch(first, last, size, j, height) ==> j == k,
{
    lemma_boundary_step(first, last, size, (height - first + 1) as nat);
    let k = lemma_batch_of(first, last, size, height, (height - first + 1) as nat);
    assert forall|j: nat| #[trigger] in_batch(first, last, size, j, height) implies j == k by {
        if j < k {
            lemma_boundary_monotone(first, last, size, j + 1, k);
        } else if j > k {
            lemma_boundary_monotone(first, last, size, k + 1, j);
        }
    }
    k
}

/// Among the first `bound` batches, one holds `height`, provided that their
/// last boundary has reached it.
proof fn lemma_batch_of(first: int, last: int, size: int, height: int, bound: nat) -> (k: nat)
    requires
        size > 0,
        first <= height <= last,
        boundary(first, last, size, bound) >= height,
    ensures
        k < bound,
        boundary(first, last, size, k) < height <= boundary(first, last, size, k + 1),
    decreases bound,
{
    if bound == 0 {
        0
    } else if boundary(first, last, size, (bound - 1) as nat) < height {
        (bound - 1) as nat
    } else {
        lemma_batch_of(first, last, size, height, (bound - 1) as nat)
    }
}

} // verus!

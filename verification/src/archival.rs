use vstd::prelude::*;
use vstd::seq_lib::to_multiset_insert;

verus! {

/// A batch height: the position of a batch in the archive.
pub type BatchHeight = u64;

/// Errors associated with inserting a batch record into archival storage.
#[derive(Debug, Clone)]
pub enum ArchivalManagerInsertBatchRecordError {
    DuplicateBatchHeight(u64),
    SerializeFailed,
    DbError(String),
}

/// The heights are in ascending order.
pub open spec fn ascending(s: Seq<BatchHeight>) -> bool {
    forall|i: int, j: int| 0 <= i <= j < s.len() ==> s[i] <= s[j]
}

/// The batch heights held in memory, in ascending order (the order in which
/// records are scanned). The result holds exactly the given heights, each as
/// many times as it was given.
pub fn sorted_batch_heights(heights: &Vec<BatchHeight>) -> (r: Vec<BatchHeight>)
    ensures
        ascending(r@),
        r@.to_multiset() == heights@.to_multiset(),
        r@.len() == heights@.len(),
{
    let mut out: Vec<BatchHeight> = Vec::new();
    let mut i: usize = 0;
    assert(out@ =~= heights@.take(0));
    while i < heights.len()
        invariant
            i <= heights.len(),
            ascending(out@),
            out@.to_multiset() == heights@.take(i as int).to_multiset(),
            out@.len() == i,
        decreases heights.len() - i,
    {
        let h = heights[i];
        // Find the first position holding a larger height.
        let mut pos: usize = 0;
        while pos < out.len() && out[pos] <= h
            invariant
                pos <= out.len(),
                forall|k: int| 0 <= k < pos ==> out@[k] <= h,
            decreases out.len() - pos,
        {
            pos = pos + 1;
        }
        proof {
            to_multiset_insert(out@, pos as int, h);
            assert(heights@.take(i as int + 1) == heights@.take(i as int).push(h));
            vstd::seq_lib::to_multiset_build(heights@.take(i as int), h);
            let t = out@.insert(pos as int, h);
            assert forall|a: int, b: int| 0 <= a <= b < t.len() implies t[a] <= t[b] by {
                if a < pos as int && b < pos as int {
                    assert(t[a] == out@[a] && t[b] == out@[b]);
                } else if a < pos as int && b == pos as int {
                    assert(t[a] == out@[a]);
                } else if a < pos as int {
                    assert(t[a] == out@[a] && t[b] == out@[b - 1]);
                } else if a == pos as int && b > a {
                    assert(t[b] == out@[b - 1]);
                    assert(pos < out.len());
                    assert(out@[pos as int] > h);
                } else if a > pos as int {
                    assert(t[a] == out@[a - 1] && t[b] == out@[b - 1]);
                }
            }
        }
        out.insert(pos, h);
        i = i + 1;
    }
    assert(heights@.take(heights.len() as int) == heights@);
    out
}

} // verus!

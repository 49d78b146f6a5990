//! A textbook recursive binary search over a sorted slice.

use vstd::prelude::*;

verus! {

/// The slice is sorted in non-decreasing order.
pub open spec fn sorted(s: Seq<i32>) -> bool {
    forall|i: int, j: int| 0 <= i <= j < s.len() ==> s[i] <= s[j]
}

/// Finds `target` in the sorted collection `col` and returns its index and
/// value, or `None` when the collection does not hold it.
pub fn bin_search(col: &[i32], target: i32) -> (r: Option<(usize, i32)>)
    requires
        sorted(col@),
        col@.len() >= 1,
        col@.len() < usize::MAX / 2,
        col@[0] <= target,
    ensures
        match r {
            Some(found) => found.0 < col@.len() && col@[found.0 as int] == target && found.1
                == target,
            None => forall|j: int| 0 <= j < col@.len() ==> col@[j] != target,
        },
{
    let start: usize = 0;
    let end: usize = col.len() - 1;
    search(col, target, start, end)
}

/// The recursive halving step: looks for `target` within the inclusive
/// index window `[start, end]`.
fn search(col: &[i32], target: i32, start: usize, end: usize) -> (r: Option<(usize, i32)>)
    requires
        sorted(col@),
        end < col@.len(),
        start as int <= end + 1,
        col@.len() < usize::MAX / 2,
        forall|j: int| 0 <= j < col@.len() && !(start <= j <= end) ==> col@[j] != target,
        start == 0 ==> col@.len() >= 1 && col@[0] <= target,
        start > 0 ==> col@[start - 1] < target,
    ensures
        match r {
            Some(found) => found.0 < col@.len() && col@[found.0 as int] == target && found.1
                == target,
            None => forall|j: int| 0 <= j < col@.len() ==> col@[j] != target,
        },
    decreases end + 1 - start,
{
    if start > end {
        return None;
    }
    let middle = (start + end) / 2;
    let middle_item = col[middle];
    if middle_item == target {
        return Some((middle, middle_item));
    }
    if middle_item < target {
        search(col, target, middle + 1, end)
    } else {
        proof {
            assert(middle >= 1) by {
                if middle == 0 {
                    assert(start == 0);
                    assert(col@[0] <= target);
                    assert(false);
                }
            }
            assert forall|j: int|
                0 <= j < col@.len() && !(start <= j <= middle - 1) implies col@[j] != target by {
                if start <= j <= end {
                    assert(middle <= j <= end);
                    assert(col@[middle as int] <= col@[j]);
                }
            }
        }
        search(col, target, start, middle - 1)
    }
}

} // verus!

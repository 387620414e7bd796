//! The columns that elimination leaves without a pivot.

use vstd::prelude::*;
use crate::gf2::{has_col, strictly_increasing};

verus! {

/// The columns below `cols` that do not occur in `pivots`, in growing order.
pub fn free_columns(pivots: &Vec<usize>, cols: usize) -> (free: Vec<usize>)
    requires
        strictly_increasing(pivots@),
        forall|i: int| 0 <= i < pivots@.len() ==> (#[trigger] pivots@[i]) < cols,
    ensures
        strictly_increasing(free@),
        forall|j: int| has_col(free@, j) <==> (0 <= j < cols && !has_col(pivots@, j)),
        free@.len() + pivots@.len() == cols,
{
    let mut free: Vec<usize> = Vec::new();
    let mut next: usize = 0;
    let mut c: usize = 0;
    while c < cols
        invariant
            c <= cols,
            next <= pivots@.len(),
            strictly_increasing(pivots@),
            forall|i: int| 0 <= i < pivots@.len() ==> (#[trigger] pivots@[i]) < cols,
            forall|i: int| 0 <= i < next ==> (#[trigger] pivots@[i]) < c,
            forall|i: int| next <= i < pivots@.len() ==> (#[trigger] pivots@[i]) >= c,
            free@.len() + next == c,
            strictly_increasing(free@),
            forall|k: int| 0 <= k < free@.len() ==> (#[trigger] free@[k]) < c,
            forall|j: int| has_col(free@, j) <==> (0 <= j < c && !has_col(pivots@, j)),
        decreases cols - c,
    {
        if next < pivots.len() && pivots[next] == c {
            proof {
                assert(has_col(pivots@, c as int));
                assert forall|i: int| next + 1 <= i < pivots@.len() implies
                    (#[trigger] pivots@[i]) >= c + 1 by {
                    assert(pivots@[next as int] < pivots@[i]);
                }
                assert forall|j: int| has_col(free@, j) <==> (0 <= j < c + 1
                    && !has_col(pivots@, j)) by {}
            }
            next += 1;
        } else {
            let ghost before = free@;
            free.push(c);
            proof {
                assert(!has_col(pivots@, c as int)) by {
                    if has_col(pivots@, c as int) {
                        let i = choose|i: int| 0 <= i < pivots@.len() && #[trigger] pivots@[i] == c;
                        if next < pivots@.len() {
                            if i > next {
                                assert(pivots@[next as int] < pivots@[i]);
                            }
                        }
                    }
                }
                assert(free@[before.len() as int] == c);
                assert forall|j: int| has_col(free@, j) <==> (0 <= j < c + 1
                    && !has_col(pivots@, j)) by {
                    if has_col(free@, j) {
                        let k = choose|k: int| 0 <= k < free@.len() && #[trigger] free@[k] == j;
                        if k < before.len() {
                            assert(before[k] == j);
                            assert(has_col(before, j));
                        }
                    }
                    if 0 <= j < c + 1 && !has_col(pivots@, j) {
                        if j < c {
                            assert(has_col(before, j));
                            let k = choose|k: int| 0 <= k < before.len() && #[trigger] before[k] == j;
                            assert(free@[k] == j);
                        }
                    }
                }
            }
        }
        c += 1;
    }
    proof {
        if next < pivots@.len() {
            assert(pivots@[next as int] >= cols);
        }
    }
    free
}

} // verus!

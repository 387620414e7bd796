//! Sorting lists of vertex indices.

use vstd::prelude::*;
use crate::gf2::strictly_increasing;

verus! {

/// Sorts a list of distinct indices into growing order, by insertion.
pub fn sort_ids(v: &mut Vec<usize>)
    requires
        old(v)@.no_duplicates(),
    ensures
        final(v)@.len() == old(v)@.len(),
        strictly_increasing(final(v)@),
        forall|x: usize| final(v)@.contains(x) <==> old(v)@.contains(x),
{
    let n = v.len();
    let mut i: usize = 0;
    while i < n
        invariant
            i <= n,
            n == v@.len(),
            n == old(v)@.len(),
            v@.no_duplicates(),
            forall|x: usize| v@.contains(x) <==> old(v)@.contains(x),
            forall|a: int, b: int| 0 <= a < b < i ==> v@[a] < v@[b],
        decreases n - i,
    {
        let mut j: usize = i;
        while j > 0 && v[j - 1] > v[j]
            invariant
                j <= i < n,
                n == v@.len(),
                n == old(v)@.len(),
                v@.no_duplicates(),
                forall|x: usize| v@.contains(x) <==> old(v)@.contains(x),
                forall|a: int, b: int| 0 <= a < b <= i && a != j && b != j ==> v@[a] < v@[b],
                forall|b: int| j < b <= i ==> v@[j as int] < v@[b],
            decreases j,
        {
            let ghost before = v@;
            v.swap(j - 1, j);
            proof {
                assert forall|x: usize| v@.contains(x) <==> before.contains(x) by {
                    if v@.contains(x) {
                        let t = choose|t: int| 0 <= t < v@.len() && v@[t] == x;
                        if t == j - 1 {
                            assert(before[j as int] == x);
                        } else if t == j {
                            assert(before[j - 1] == x);
                        } else {
                            assert(before[t] == x);
                        }
                    }
                    if before.contains(x) {
                        let t = choose|t: int| 0 <= t < before.len() && before[t] == x;
                        if t == j - 1 {
                            assert(v@[j as int] == x);
                        } else if t == j {
                            assert(v@[j - 1] == x);
                        } else {
                            assert(v@[t] == x);
                        }
                    }
                }
                assert forall|a: int, b: int|
                    0 <= a < v@.len() && 0 <= b < v@.len() && a != b implies v@[a] != v@[b] by {
                    let a0 = if a == j - 1 { j as int } else if a == j { j - 1 } else { a };
                    let b0 = if b == j - 1 { j as int } else if b == j { j - 1 } else { b };
                    assert(v@[a] == before[a0]);
                    assert(v@[b] == before[b0]);
                }
            }
            j -= 1;
        }
        proof {
            assert forall|a: int, b: int| 0 <= a < b < i + 1 implies v@[a] < v@[b] by {
                if a == j {
                } else if b == j {
                    if j > 0 {
                        if a == j - 1 {
                            assert(v@[j - 1] != v@[j as int]);
                        } else {
                            assert(v@[a] < v@[j - 1]);
                            assert(v@[j - 1] != v@[j as int]);
                        }
                    }
                } else {
                }
            }
        }
        i += 1;
    }
}

} // verus!

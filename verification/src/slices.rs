//! What std's slices do that the matrix types rely on.

use vstd::prelude::*;

verus! {

/// `<[Elem]>::swap` exchanges the elements at `a` and `b` and leaves the others
/// in place. It panics where an index is out of bounds, so both are asked
/// to be in bounds.
pub assume_specification<Elem>[ <[Elem]>::swap ](s: &mut [Elem], a: usize, b: usize)
    requires
        a < old(s)@.len(),
        b < old(s)@.len(),
    ensures
        final(s)@ == old(s)@.update(a as int, old(s)@[b as int]).update(
            b as int,
            old(s)@[a as int],
        ),
;

} // verus!

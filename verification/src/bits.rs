//! Rows of bits, packed into machine words by the `bitvec` crate.
//!
//! Nothing here is proved: each function hands its arguments to `bitvec`,
//! and its contract states what `bitvec` documents of the call.

use bitvec::order::Lsb0;
use bitvec::vec::BitVec;
use vstd::prelude::*;

verus! {

/// A row of bits in a `BitVec<usize, Lsb0>`.
#[verifier::external_body]
#[derive(Debug)]
pub struct BitRow {
    bits: BitVec<usize, Lsb0>,
}

/// The bits that a row holds, first to last.
pub uninterp spec fn bits_of(r: BitRow) -> Seq<bool>;

/// The most bits that a row can be asked to hold: `bitvec` cannot encode a
/// greater length.
pub open spec fn max_bits() -> nat {
    (usize::MAX / 8) as nat
}

/// `BitVec::repeat(false, n)`: a row of `n` zero bits. `bitvec` panics
/// where `n` is more than `usize::MAX >> 3`.
#[verifier::external_body]
pub(crate) fn zero_bits(n: usize) -> (r: BitRow)
    requires
        n <= max_bits(),
    ensures
        bits_of(r) == Seq::new(n as nat, |k: int| false),
{
    BitRow { bits: BitVec::repeat(false, n) }
}

/// `bits[i]`: the bit at `i`. Indexing panics where `i` is out of bounds.
#[verifier::external_body]
pub(crate) fn get_bit(r: &BitRow, i: usize) -> (b: bool)
    requires
        i < bits_of(*r).len(),
    ensures
        b == bits_of(*r)[i as int],
{
    r.bits[i]
}

/// `BitSlice::set`: writes `b` at `i` and leaves the other bits. It panics
/// where `i` is out of bounds.
#[verifier::external_body]
pub(crate) fn set_bit(r: &mut BitRow, i: usize, b: bool)
    requires
        i < bits_of(*old(r)).len(),
    ensures
        bits_of(*final(r)) == bits_of(*old(r)).update(i as int, b),
{
    r.bits.set(i, b);
}

/// `dst ^= src` on bit vectors: each bit of `dst` that has a partner in
/// `src` becomes the exclusive or of the two; the bits of `dst` beyond the
/// length of `src` stay, and the length of `dst` stays.
#[verifier::external_body]
pub(crate) fn xor_bits(dst: &mut BitRow, src: &BitRow)
    ensures
        bits_of(*final(dst)) == Seq::new(
            bits_of(*old(dst)).len(),
            |k: int| bits_of(*old(dst))[k] != (k < bits_of(*src).len() && bits_of(*src)[k]),
        ),
{
    dst.bits ^= &src.bits;
}

/// `BitVec::extend_from_bitslice`: appends the bits of `src` to `dst`.
/// `bitvec` panics where the new length is more than `usize::MAX >> 3`.
#[verifier::external_body]
pub(crate) fn append_bits(dst: &mut BitRow, src: &BitRow)
    requires
        bits_of(*old(dst)).len() + bits_of(*src).len() <= max_bits(),
    ensures
        bits_of(*final(dst)) == bits_of(*old(dst)) + bits_of(*src),
{
    dst.bits.extend_from_bitslice(&src.bits);
}

/// `a == b` on bit vectors: the two have the same length and the same bit
/// at each index.
#[verifier::external_body]
pub(crate) fn same_bits(a: &BitRow, b: &BitRow) -> (r: bool)
    ensures
        r == (bits_of(*a) == bits_of(*b)),
{
    a.bits == b.bits
}

/// `BitVec::clone`: a row with the same bits.
#[verifier::external_body]
pub(crate) fn copy_bits(r: &BitRow) -> (c: BitRow)
    ensures
        bits_of(c) == bits_of(*r),
{
    BitRow { bits: r.bits.clone() }
}

} // verus!

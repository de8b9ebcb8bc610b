//! The per-draw-call coverage bitmap.
//!
//! The rasterizer marks each pixel it has composited in a bit vector of
//! the `bit-vec` crate, one bit per pixel.  The type is opaque here:
//! what it holds is named by [`bits`], and the three operations the
//! rasterizer uses are trusted wrappers whose contracts speak over that
//! name.

use vstd::prelude::*;

verus! {

#[verifier::external_type_specification]
#[verifier::external_body]
#[verifier::reject_recursive_types(B)]
pub struct ExBitVec<B>(bit_vec::BitVec<B>);

/// What a bit vector holds: its bits in index order.
pub uninterp spec fn bits(v: bit_vec::BitVec<u32>) -> Seq<bool>;

/// Relies on bit_vec::BitVec::from_elem: a vector of `len` copies of
/// `bit`.
#[verifier::external_body]
pub(crate) fn bits_new(len: usize, bit: bool) -> (r: bit_vec::BitVec<u32>)
    ensures
        bits(r) == Seq::new(len as nat, |i: int| bit),
{
    bit_vec::BitVec::from_elem(len, bit)
}

/// Relies on bit_vec::BitVec::get: the bit at `i`, or `None` past the
/// end.
#[verifier::external_body]
pub(crate) fn bits_get(v: &bit_vec::BitVec<u32>, i: usize) -> (r: Option<bool>)
    ensures
        r == if (i as nat) < bits(*v).len() {
            Some(bits(*v)[i as int])
        } else {
            None::<bool>
        },
{
    v.get(i)
}

/// Relies on bit_vec::BitVec::set, which panics past the end, so the
/// bound is required.  The write touches one bit and nothing else.
#[verifier::external_body]
pub(crate) fn bits_set(v: &mut bit_vec::BitVec<u32>, i: usize, x: bool)
    requires
        (i as nat) < bits(*old(v)).len(),
    ensures
        bits(*final(v)) == bits(*old(v)).update(i as int, x),
{
    v.set(i, x)
}

} // verus!

//! The bit vector that holds an image's pixels.
//!
//! The vector itself comes from the `bit-vec` crate. What it holds is named
//! by [`bit_seq`]; the functions below call the crate and state, over that
//! name, what each call does. These statements are taken from the crate's
//! source and are not proved here.

use bit_vec::BitVec;
use vstd::prelude::*;
use crate::packing::{pack_bits, unpack_bytes};

verus! {

#[verifier::external_type_specification]
#[verifier::external_body]
#[verifier::reject_recursive_types(B)]
pub struct ExBitVec<B>(BitVec<B>);

/// The bits that a bit vector holds, in index order.
pub uninterp spec fn bit_seq(v: BitVec<u32>) -> Seq<bool>;

/// Calls `BitVec::from_elem`: a vector of `nbits` bits, each equal to `bit`.
#[verifier::external_body]
pub(crate) fn bits_from_elem(nbits: usize, bit: bool) -> (v: BitVec<u32>)
    ensures
        bit_seq(v) == Seq::new(nbits as nat, |i: int| bit),
{
    BitVec::from_elem(nbits, bit)
}

/// Calls `BitVec::get`: the bit at index `i`, or `None` when `i` is not
/// below the vector's length.
#[verifier::external_body]
pub(crate) fn bits_get(v: &BitVec<u32>, i: usize) -> (r: Option<bool>)
    ensures
        r == if i < bit_seq(*v).len() {
            Some(bit_seq(*v)[i as int])
        } else {
            None
        },
{
    v.get(i)
}

/// Calls `BitVec::set`: the bit at index `i` becomes `x`, every other bit
/// stays. The crate panics only for an index that is not below the length;
/// such an index is excluded, and for the others the call returns normally.
#[verifier::external_body]
pub(crate) fn bits_set(v: &mut BitVec<u32>, i: usize, x: bool)
    requires
        i < bit_seq(*old(v)).len(),
    ensures
        bit_seq(*final(v)) == bit_seq(*old(v)).update(i as int, x),
    no_unwind
{
    v.set(i, x)
}

/// Calls `BitVec::to_bytes`: the bits packed eight to a byte, most
/// significant bit first, the last byte filled up with unset bits.
#[verifier::external_body]
pub(crate) fn bits_to_bytes(v: &BitVec<u32>) -> (bytes: Vec<u8>)
    ensures
        bytes@ == pack_bits(bit_seq(*v)),
{
    v.to_bytes()
}

/// Calls `BitVec::from_bytes`: eight bits per byte, most significant bit
/// first. The crate panics when the number of bits does not fit in `usize`,
/// so such a length is excluded.
#[verifier::external_body]
pub(crate) fn bits_from_bytes(bytes: &Vec<u8>) -> (v: BitVec<u32>)
    requires
        8 * bytes@.len() <= usize::MAX,
    ensures
        bit_seq(v) == unpack_bytes(bytes@),
{
    BitVec::from_bytes(bytes.as_slice())
}

/// Calls `BitVec::clone`: a vector that holds the same bits.
#[verifier::external_body]
pub(crate) fn bits_clone(v: &BitVec<u32>) -> (copy: BitVec<u32>)
    ensures
        bit_seq(copy) == bit_seq(*v),
{
    v.clone()
}

} // verus!

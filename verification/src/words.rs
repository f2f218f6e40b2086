//! 32-bit words: their bits, their population count, and how four bytes
//! form a big-endian word.
//!
//! The population count is taken from the standard library; this module
//! states what it returns.

use vstd::prelude::*;
use crate::packing::{byte_bit, count_true, unpack_bytes};

verus! {

/// Bit `j` of word `w`, counted from the most significant end.
pub open spec fn word_bit(w: u32, j: u32) -> bool {
    w & (0x8000_0000u32 >> j) != 0
}

/// The 32 bits of `w`, most significant first.
pub open spec fn word_bits(w: u32) -> Seq<bool> {
    Seq::new(32, |j: int| word_bit(w, j as u32))
}

/// Number of set bits in `w`.
pub open spec fn ones(w: u32) -> nat {
    count_true(word_bits(w))
}

/// The word whose bytes, from the most significant down, are `b0` to `b3`.
pub open spec fn be_word(b0: u8, b1: u8, b2: u8, b3: u8) -> u32 {
    ((b0 as u32) << 24) | ((b1 as u32) << 16) | ((b2 as u32) << 8) | (b3 as u32)
}

/// `u32::count_ones` returns the number of ones in the binary
/// representation of its argument.
pub assume_specification[ u32::count_ones ](w: u32) -> (n: u32)
    ensures
        n == ones(w),
;

/// Builds a word from its four bytes in big-endian order: the first byte
/// becomes the most significant one.
pub fn word_from_be_bytes(b0: u8, b1: u8, b2: u8, b3: u8) -> (w: u32)
    ensures
        w == be_word(b0, b1, b2, b3),
{
    ((b0 as u32) << 24) | ((b1 as u32) << 16) | ((b2 as u32) << 8) | (b3 as u32)
}

/// Each bit of a big-endian word is the corresponding bit of one of its
/// bytes.
pub proof fn lemma_be_word_bit(b0: u8, b1: u8, b2: u8, b3: u8, j: u8)
    requires
        j < 8,
    ensures
        word_bit(be_word(b0, b1, b2, b3), j as u32) == byte_bit(b0, j),
        word_bit(be_word(b0, b1, b2, b3), (j + 8) as u32) == byte_bit(b1, j),
        word_bit(be_word(b0, b1, b2, b3), (j + 16) as u32) == byte_bit(b2, j),
        word_bit(be_word(b0, b1, b2, b3), (j + 24) as u32) == byte_bit(b3, j),
{
    let w = be_word(b0, b1, b2, b3);
    let j0 = j as u32;
    let j1 = (j + 8) as u32;
    let j2 = (j + 16) as u32;
    let j3 = (j + 24) as u32;
    assert({
        &&& (w & (0x8000_0000u32 >> j0) != 0) == (b0 & (0x80u8 >> j) != 0)
        &&& (w & (0x8000_0000u32 >> j1) != 0) == (b1 & (0x80u8 >> j) != 0)
        &&& (w & (0x8000_0000u32 >> j2) != 0) == (b2 & (0x80u8 >> j) != 0)
        &&& (w & (0x8000_0000u32 >> j3) != 0) == (b3 & (0x80u8 >> j) != 0)
    }) by (bit_vector)
        requires
            j < 8,
            j0 == j as u32,
            j1 == j0 + 8,
            j2 == j0 + 16,
            j3 == j0 + 24,
            w == ((b0 as u32) << 24) | ((b1 as u32) << 16) | ((b2 as u32) << 8) | (b3 as u32),
    ;
}

/// Four bytes hold the bits of the big-endian word that they form.
pub proof fn lemma_be_word_bits(b0: u8, b1: u8, b2: u8, b3: u8)
    ensures
        unpack_bytes(seq![b0, b1, b2, b3]) == word_bits(be_word(b0, b1, b2, b3)),
{
    let bytes = seq![b0, b1, b2, b3];
    let l = unpack_bytes(bytes);
    let r = word_bits(be_word(b0, b1, b2, b3));
    assert(l.len() == r.len());
    assert forall|i: int| 0 <= i < 32 implies l[i] == r[i] by {
        let j = (i % 8) as u8;
        lemma_be_word_bit(b0, b1, b2, b3, j);
        if i < 8 {
            assert(i as u32 == j as u32);
        } else if i < 16 {
            assert(i as u32 == (j + 8) as u32);
        } else if i < 24 {
            assert(i as u32 == (j + 16) as u32);
        } else {
            assert(i as u32 == (j + 24) as u32);
        }
    }
    assert(l =~= r);
}

} // verus!

//! Boolean algebra between images of equal size.
//!
//! Every operation exports the stored bits as packed bytes, combines the
//! bytes pairwise and builds the result from the combined bytes. The result
//! therefore always holds a whole number of bytes: the canvas first, then
//! fill bits.

use vstd::prelude::*;
use crate::image::{lemma_index_bound, BinaryImage, Raster};
use crate::packing::{
    bit_at, byte_bit, byte_len, count_true, lemma_bitwise_per_bit, lemma_count_bound,
    lemma_count_concat, lemma_count_zero, lemma_pack_bit, lemma_pack_unpack, lemma_unpack_concat,
    lemma_unpack_pack, lemma_unpack_zero, pack_bits, round_up8, unpack_bytes,
};
use crate::words::{be_word, lemma_be_word_bits, ones, word_from_be_bytes};

verus! {

impl Raster {
    /// The raster of the same dimensions whose stored bits, canvas and fill
    /// alike, are `f` of the bits of `self` and `other` at the same position.
    /// A position behind the stored bits of an operand reads as unset.
    pub open spec fn combine(self, other: Raster, f: spec_fn(bool, bool) -> bool) -> Raster {
        Raster {
            width: self.width,
            height: self.height,
            bits: Seq::new(
                round_up8(self.cells() as int) as nat,
                |i: int| f(bit_at(self.bits, i), bit_at(other.bits, i)),
            ),
        }
    }

    /// Exclusive or, bit by bit.
    pub open spec fn xor(self, other: Raster) -> Raster {
        self.combine(other, |p: bool, q: bool| p != q)
    }

    /// Inclusive or, bit by bit.
    pub open spec fn or(self, other: Raster) -> Raster {
        self.combine(other, |p: bool, q: bool| p || q)
    }

    /// Conjunction, bit by bit.
    pub open spec fn and(self, other: Raster) -> Raster {
        self.combine(other, |p: bool, q: bool| p && q)
    }

    /// The complement, bit by bit; the fill bits are complemented as well.
    pub open spec fn complement(self) -> Raster {
        Raster {
            width: self.width,
            height: self.height,
            bits: Seq::new(round_up8(self.cells() as int) as nat, |i: int| !bit_at(self.bits, i)),
        }
    }
}

/// The stored bits of a well-formed raster fill exactly as many bytes as its
/// canvas needs.
pub proof fn lemma_packed_len(a: Raster)
    requires
        a.wf(),
    ensures
        pack_bits(a.bits).len() == byte_len(a.cells() as int),
        round_up8(a.bits.len() as int) == round_up8(a.cells() as int),
{
}

/// When every byte of `bytes` combines the packed bytes of `a` and `b` in a
/// way that acts as `f` on each bit, `bytes` holds `a.combine(b, f)`.
proof fn lemma_combined_bytes(a: Raster, b: Raster, bytes: Seq<u8>, f: spec_fn(bool, bool) -> bool)
    requires
        a.wf(),
        b.wf(),
        a.same_size(b),
        bytes.len() == byte_len(a.cells() as int),
        forall|k: int, j: u8|
            0 <= k < bytes.len() && j < 8 ==> #[trigger] byte_bit(bytes[k], j) == f(
                byte_bit(pack_bits(a.bits)[k], j),
                byte_bit(pack_bits(b.bits)[k], j),
            ),
    ensures
        unpack_bytes(bytes) == a.combine(b, f).bits,
{
    lemma_packed_len(a);
    lemma_packed_len(b);
    let r = a.combine(b, f).bits;
    assert(unpack_bytes(bytes).len() == r.len());
    assert forall|i: int| 0 <= i < r.len() implies unpack_bytes(bytes)[i] == r[i] by {
        lemma_pack_bit(a.bits, i);
        lemma_pack_bit(b.bits, i);
        assert(byte_bit(bytes[i / 8], (i % 8) as u8) == f(
            byte_bit(pack_bits(a.bits)[i / 8], (i % 8) as u8),
            byte_bit(pack_bits(b.bits)[i / 8], (i % 8) as u8),
        ));
    }
    assert(unpack_bytes(bytes) =~= r);
}

/// Exclusive or of two bytes.
fn xor_bytes(a: u8, b: u8) -> (c: u8)
    ensures
        c == a ^ b,
{
    a ^ b
}

/// Inclusive or of two bytes.
fn or_bytes(a: u8, b: u8) -> (c: u8)
    ensures
        c == a | b,
{
    a | b
}

/// Conjunction of two bytes.
fn and_bytes(a: u8, b: u8) -> (c: u8)
    ensures
        c == a & b,
{
    a & b
}

impl BinaryImage {
    /// Combines two images of equal size byte by byte: each byte of the
    /// result's packed bits is `combinator` applied to the bytes of `self`
    /// and `other` at the same position.
    pub fn operation<F: Fn(u8, u8) -> u8>(&self, other: &BinaryImage, combinator: F) -> (image:
        BinaryImage)
        requires
            self@.same_size(other@),
            forall|a: u8, b: u8| call_requires(combinator, (a, b)),
        ensures
            image@.wf(),
            image@.same_size(self@),
            image@.bits.len() == round_up8(self@.cells() as int),
            pack_bits(image@.bits).len() == byte_len(self@.cells() as int),
            forall|k: int|
                0 <= k < byte_len(self@.cells() as int) ==> call_ensures(
                    combinator,
                    (pack_bits(self@.bits)[k], pack_bits(other@.bits)[k]),
                    #[trigger] pack_bits(image@.bits)[k],
                ),
    {
        self.validity();
        other.validity();
        let mut bytes = self.to_packed();
        let theirs = other.to_packed();
        let ghost ours = bytes@;
        let n = bytes.len();
        let mut k: usize = 0;
        while k < n
            invariant
                k <= n,
                n == bytes@.len(),
                n == ours.len(),
                n == theirs@.len(),
                forall|a: u8, b: u8| call_requires(combinator, (a, b)),
                forall|i: int|
                    0 <= i < k ==> call_ensures(combinator, (ours[i], theirs@[i]), #[trigger] bytes@[i]),
                forall|i: int| k <= i < n ==> bytes@[i] == ours[i],
            decreases n - k,
        {
            let c = combinator(bytes[k], theirs[k]);
            bytes.set(k, c);
            k += 1;
        }
        proof {
            lemma_pack_unpack(bytes@);
        }
        BinaryImage::from_packed(&bytes, self.width(), self.height())
    }

    /// The image with every stored bit complemented.
    pub fn negative(&self) -> (image: BinaryImage)
        ensures
            image@ == self@.complement(),
            image@.wf(),
    {
        self.validity();
        let mut bytes = self.to_packed();
        let ghost ours = bytes@;
        let n = bytes.len();
        let mut k: usize = 0;
        while k < n
            invariant
                k <= n,
                n == bytes@.len(),
                n == ours.len(),
                forall|i: int| 0 <= i < k ==> #[trigger] bytes@[i] == !ours[i],
                forall|i: int| k <= i < n ==> bytes@[i] == ours[i],
            decreases n - k,
        {
            let c = !bytes[k];
            bytes.set(k, c);
            k += 1;
        }
        proof {
            let r = self@.complement().bits;
            assert forall|i: int| 0 <= i < r.len() implies unpack_bytes(bytes@)[i] == r[i] by {
                lemma_pack_bit(self@.bits, i);
                lemma_bitwise_per_bit(ours[i / 8], 0, (i % 8) as u8);
            }
            assert(unpack_bytes(bytes@) =~= r);
        }
        BinaryImage::from_packed(&bytes, self.width(), self.height())
    }

    /// The pixels in which the two images differ.
    pub fn diff(&self, other: &BinaryImage) -> (image: BinaryImage)
        requires
            self@.same_size(other@),
        ensures
            image@ == self@.xor(other@),
            image@.wf(),
    {
        self.validity();
        other.validity();
        let image = self.operation(other, xor_bytes);
        proof {
            let bytes = pack_bits(image@.bits);
            assert forall|k: int, j: u8| 0 <= k < bytes.len() && j < 8 implies #[trigger] byte_bit(
                bytes[k],
                j,
            ) == (byte_bit(pack_bits(self@.bits)[k], j) != byte_bit(pack_bits(other@.bits)[k], j)) by {
                lemma_bitwise_per_bit(pack_bits(self@.bits)[k], pack_bits(other@.bits)[k], j);
            }
            lemma_combined_bytes(self@, other@, bytes, |p: bool, q: bool| p != q);
            lemma_repacked(image@.bits);
        }
        image
    }

    /// The pixels set in either image.
    pub fn union(&self, other: &BinaryImage) -> (image: BinaryImage)
        requires
            self@.same_size(other@),
        ensures
            image@ == self@.or(other@),
            image@.wf(),
    {
        self.validity();
        other.validity();
        let image = self.operation(other, or_bytes);
        proof {
            let bytes = pack_bits(image@.bits);
            assert forall|k: int, j: u8| 0 <= k < bytes.len() && j < 8 implies #[trigger] byte_bit(
                bytes[k],
                j,
            ) == (byte_bit(pack_bits(self@.bits)[k], j) || byte_bit(pack_bits(other@.bits)[k], j)) by {
                lemma_bitwise_per_bit(pack_bits(self@.bits)[k], pack_bits(other@.bits)[k], j);
            }
            lemma_combined_bytes(self@, other@, bytes, |p: bool, q: bool| p || q);
            lemma_repacked(image@.bits);
        }
        image
    }

    /// The pixels set in both images.
    pub fn intersect(&self, other: &BinaryImage) -> (image: BinaryImage)
        requires
            self@.same_size(other@),
        ensures
            image@ == self@.and(other@),
            image@.wf(),
    {
        self.validity();
        other.validity();
        let image = self.operation(other, and_bytes);
        proof {
            let bytes = pack_bits(image@.bits);
            assert forall|k: int, j: u8| 0 <= k < bytes.len() && j < 8 implies #[trigger] byte_bit(
                bytes[k],
                j,
            ) == (byte_bit(pack_bits(self@.bits)[k], j) && byte_bit(pack_bits(other@.bits)[k], j)) by {
                lemma_bitwise_per_bit(pack_bits(self@.bits)[k], pack_bits(other@.bits)[k], j);
            }
            lemma_combined_bytes(self@, other@, bytes, |p: bool, q: bool| p && q);
            lemma_repacked(image@.bits);
        }
        image
    }

    /// Number of set bits in `i`.
    pub fn popcount(i: u32) -> (n: u32)
        ensures
            n == ones(i),
    {
        i.count_ones()
    }

    /// Number of stored bits in which the two images differ: the number of
    /// set bits of `self.diff(other)`, counted over all its stored bits.
    ///
    /// The exclusive or of the packed bytes is padded with zero bytes to a
    /// whole number of 32-bit words, and the population counts of the
    /// big-endian words are added up.
    pub fn diff_and_count(&self, other: &BinaryImage) -> (count: usize)
        requires
            self@.same_size(other@),
        ensures
            count == count_true(self@.xor(other@).bits),
    {
        self.validity();
        other.validity();
        let mut bytes = self.to_packed();
        let theirs = other.to_packed();
        let ghost ours = bytes@;
        let n = bytes.len();
        let mut k: usize = 0;
        while k < n
            invariant
                k <= n,
                n == bytes@.len(),
                n == ours.len(),
                n == theirs@.len(),
                forall|i: int| 0 <= i < k ==> #[trigger] bytes@[i] == ours[i] ^ theirs@[i],
                forall|i: int| k <= i < n ==> bytes@[i] == ours[i],
            decreases n - k,
        {
            let c = bytes[k] ^ theirs[k];
            bytes.set(k, c);
            k += 1;
        }
        let ghost mixed = bytes@;
        proof {
            assert forall|k: int, j: u8| 0 <= k < mixed.len() && j < 8 implies #[trigger] byte_bit(
                mixed[k],
                j,
            ) == (byte_bit(pack_bits(self@.bits)[k], j) != byte_bit(pack_bits(other@.bits)[k], j)) by {
                lemma_bitwise_per_bit(pack_bits(self@.bits)[k], pack_bits(other@.bits)[k], j);
            }
            lemma_combined_bytes(self@, other@, mixed, |p: bool, q: bool| p != q);
            assert(bytes@ =~= mixed + Seq::<u8>::empty());
        }
        while bytes.len() % 4 != 0
            invariant
                n == mixed.len(),
                8 * n <= usize::MAX,
                n <= bytes@.len() <= 4 * ((n + 3) / 4),
                bytes@ == mixed + Seq::new((bytes@.len() - n) as nat, |i: int| 0u8),
            decreases 4 * ((n + 3) / 4) - bytes@.len(),
        {
            bytes.push(0);
            proof {
                assert(bytes@ =~= mixed + Seq::new((bytes@.len() - n) as nat, |i: int| 0u8));
            }
        }
        let ghost padded = bytes@;
        proof {
            let zeros = Seq::new((padded.len() - n) as nat, |i: int| 0u8);
            lemma_unpack_concat(mixed, zeros);
            lemma_unpack_zero(zeros);
            lemma_count_concat(unpack_bytes(mixed), unpack_bytes(zeros));
            lemma_count_bound(unpack_bytes(mixed));
            assert(padded.subrange(0, 0) =~= Seq::<u8>::empty());
            assert(unpack_bytes(Seq::<u8>::empty()) =~= Seq::<bool>::empty());
        }
        let m = bytes.len();
        let mut count: usize = 0;
        let mut ii: usize = 0;
        while ii < m
            invariant
                ii <= m,
                ii % 4 == 0,
                m % 4 == 0,
                m == padded.len(),
                bytes@ == padded,
                count_true(unpack_bytes(padded)) <= usize::MAX,
                count == count_true(unpack_bytes(padded.subrange(0, ii as int))),
            decreases m - ii,
        {
            let word = word_from_be_bytes(bytes[ii], bytes[ii + 1], bytes[ii + 2], bytes[ii + 3]);
            let ones_in_word = Self::popcount(word);
            proof {
                lemma_count_next_word(padded, ii as int);
            }
            count += ones_in_word as usize;
            ii += 4;
        }
        proof {
            assert(padded.subrange(0, m as int) =~= padded);
        }
        count
    }
}

/// Counting one more group of four bytes adds the population count of the
/// big-endian word that they form, and never passes the count of all bytes.
proof fn lemma_count_next_word(bytes: Seq<u8>, at: int)
    requires
        0 <= at,
        at + 4 <= bytes.len(),
    ensures
        count_true(unpack_bytes(bytes.subrange(0, at + 4))) == count_true(
            unpack_bytes(bytes.subrange(0, at)),
        ) + ones(be_word(bytes[at], bytes[at + 1], bytes[at + 2], bytes[at + 3])),
        count_true(unpack_bytes(bytes.subrange(0, at + 4))) <= count_true(unpack_bytes(bytes)),
{
    let done = bytes.subrange(0, at);
    let group = bytes.subrange(at, at + 4);
    let upto = bytes.subrange(0, at + 4);
    let rest = bytes.subrange(at + 4, bytes.len() as int);
    assert(group =~= seq![bytes[at], bytes[at + 1], bytes[at + 2], bytes[at + 3]]);
    lemma_be_word_bits(bytes[at], bytes[at + 1], bytes[at + 2], bytes[at + 3]);
    assert(upto =~= done + group);
    assert(bytes =~= upto + rest);
    lemma_unpack_concat(done, group);
    lemma_count_concat(unpack_bytes(done), unpack_bytes(group));
    lemma_unpack_concat(upto, rest);
    lemma_count_concat(unpack_bytes(upto), unpack_bytes(rest));
}

/// Bits that fill a whole number of bytes are what their packed bytes hold.
pub proof fn lemma_repacked(s: Seq<bool>)
    requires
        s.len() % 8 == 0,
    ensures
        unpack_bytes(pack_bits(s)) == s,
{
    lemma_unpack_pack(s);
    assert(unpack_bytes(pack_bits(s)) =~= s);
}

/// The difference of two images does not depend on their order.
pub proof fn law_diff_commutes(a: Raster, b: Raster)
    requires
        a.same_size(b),
    ensures
        a.xor(b) == b.xor(a),
{
    assert(a.xor(b).bits =~= b.xor(a).bits);
}

/// The difference of an image with itself has no set bit.
pub proof fn law_diff_self_is_blank(a: Raster)
    ensures
        a.xor(a).same_size(a),
        forall|i: int| 0 <= i < a.xor(a).bits.len() ==> !a.xor(a).bits[i],
        count_true(a.xor(a).bits) == 0,
{
    lemma_count_zero(a.xor(a).bits);
}

/// The union of an image with itself has the pixels of the image.
pub proof fn law_union_self(a: Raster)
    requires
        a.wf(),
    ensures
        a.or(a).same_pixels(a),
{
    assert forall|x: int, y: int| a.on_canvas(x, y) implies a.or(a).pixel(x, y) == a.pixel(
        x,
        y,
    ) by {
        lemma_index_bound(a.width, a.height, x, y);
    }
}

/// The intersection of an image with itself has the pixels of the image.
pub proof fn law_intersect_self(a: Raster)
    requires
        a.wf(),
    ensures
        a.and(a).same_pixels(a),
{
    assert forall|x: int, y: int| a.on_canvas(x, y) implies a.and(a).pixel(x, y) == a.pixel(
        x,
        y,
    ) by {
        lemma_index_bound(a.width, a.height, x, y);
    }
}

/// Complementing an image twice gives back its pixels.
pub proof fn law_double_negative(a: Raster)
    requires
        a.wf(),
    ensures
        a.complement().complement().same_pixels(a),
{
    assert forall|x: int, y: int| a.on_canvas(x, y) implies a.complement().complement().pixel(
        x,
        y,
    ) == a.pixel(x, y) by {
        lemma_index_bound(a.width, a.height, x, y);
    }
}

/// In a raster whose fill bits are unset, the set bits are the set pixels.
pub proof fn lemma_tidy_count(a: Raster)
    requires
        a.wf(),
        a.tidy(),
    ensures
        count_true(a.bits) == a.area(),
{
    let fill = a.bits.subrange(a.cells() as int, a.bits.len() as int);
    assert(a.bits =~= a.canvas() + fill);
    lemma_count_concat(a.canvas(), fill);
    lemma_count_zero(fill);
}

/// For images whose fill bits are unset, the set bits of the difference are
/// the pixels in which the two images differ.
pub proof fn law_count_is_differing_pixels(a: Raster, b: Raster)
    requires
        a.wf(),
        b.wf(),
        a.same_size(b),
        a.tidy(),
        b.tidy(),
    ensures
        a.xor(b).tidy(),
        count_true(a.xor(b).bits) == a.xor(b).area(),
        forall|x: int, y: int|
            a.on_canvas(x, y) ==> a.xor(b).pixel(x, y) == (a.pixel(x, y) != b.pixel(x, y)),
{
    lemma_tidy_count(a.xor(b));
    assert forall|x: int, y: int| a.on_canvas(x, y) implies a.xor(b).pixel(x, y) == (a.pixel(x, y)
        != b.pixel(x, y)) by {
        lemma_index_bound(a.width, a.height, x, y);
    }
}

} // verus!

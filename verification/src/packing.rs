//! The correspondence between a sequence of bits and its packed bytes.
//!
//! Bits are packed eight to a byte, the first bit of each group in the most
//! significant position. A trailing group of fewer than eight bits is filled
//! up with zero bits.

use vstd::prelude::*;

verus! {

/// Number of bytes needed to hold `n` bits.
pub open spec fn byte_len(n: int) -> int {
    (n + 7) / 8
}

/// `n` rounded up to the next multiple of eight.
pub open spec fn round_up8(n: int) -> int {
    8 * byte_len(n)
}

/// The bit at position `i` of `s`, reading positions outside `s` as unset.
pub open spec fn bit_at(s: Seq<bool>, i: int) -> bool {
    0 <= i < s.len() && s[i]
}

/// Bit `j` of byte `b`, counted from the most significant end.
pub open spec fn byte_bit(b: u8, j: u8) -> bool {
    b & (0x80u8 >> j) != 0
}

/// The byte with exactly the bit `j` (counted from the most significant end)
/// set when `on` holds, and no bit set otherwise.
pub open spec fn bit_mask(on: bool, j: u8) -> u8 {
    if on {
        0x80u8 >> j
    } else {
        0u8
    }
}

/// The byte that holds bits `8k .. 8k + 8` of `s`.
pub open spec fn pack_byte(s: Seq<bool>, k: int) -> u8 {
    bit_mask(bit_at(s, 8 * k), 0) | bit_mask(bit_at(s, 8 * k + 1), 1) | bit_mask(
        bit_at(s, 8 * k + 2),
        2,
    ) | bit_mask(bit_at(s, 8 * k + 3), 3) | bit_mask(bit_at(s, 8 * k + 4), 4) | bit_mask(
        bit_at(s, 8 * k + 5),
        5,
    ) | bit_mask(bit_at(s, 8 * k + 6), 6) | bit_mask(bit_at(s, 8 * k + 7), 7)
}

/// The bytes that hold the bits of `s`.
pub open spec fn pack_bits(s: Seq<bool>) -> Seq<u8> {
    Seq::new(byte_len(s.len() as int) as nat, |k: int| pack_byte(s, k))
}

/// The bits held by `bytes`, eight per byte.
pub open spec fn unpack_bytes(bytes: Seq<u8>) -> Seq<bool> {
    Seq::new(8 * bytes.len(), |i: int| byte_bit(bytes[i / 8], (i % 8) as u8))
}

/// A byte assembled from eight bits holds each of them at its position.
pub proof fn lemma_assembled_bits(
    b0: bool,
    b1: bool,
    b2: bool,
    b3: bool,
    b4: bool,
    b5: bool,
    b6: bool,
    b7: bool,
)
    ensures
        ({
            let b = bit_mask(b0, 0) | bit_mask(b1, 1) | bit_mask(b2, 2) | bit_mask(b3, 3)
                | bit_mask(b4, 4) | bit_mask(b5, 5) | bit_mask(b6, 6) | bit_mask(b7, 7);
            &&& byte_bit(b, 0) == b0
            &&& byte_bit(b, 1) == b1
            &&& byte_bit(b, 2) == b2
            &&& byte_bit(b, 3) == b3
            &&& byte_bit(b, 4) == b4
            &&& byte_bit(b, 5) == b5
            &&& byte_bit(b, 6) == b6
            &&& byte_bit(b, 7) == b7
        }),
{
    let m0 = bit_mask(b0, 0);
    let m1 = bit_mask(b1, 1);
    let m2 = bit_mask(b2, 2);
    let m3 = bit_mask(b3, 3);
    let m4 = bit_mask(b4, 4);
    let m5 = bit_mask(b5, 5);
    let m6 = bit_mask(b6, 6);
    let m7 = bit_mask(b7, 7);
    assert(0x80u8 >> 0u8 == 0x80u8 && 0x80u8 >> 1u8 == 0x40u8 && 0x80u8 >> 2u8 == 0x20u8 && 0x80u8
        >> 3u8 == 0x10u8 && 0x80u8 >> 4u8 == 0x08u8 && 0x80u8 >> 5u8 == 0x04u8 && 0x80u8 >> 6u8
        == 0x02u8 && 0x80u8 >> 7u8 == 0x01u8) by (bit_vector);
    let b = m0 | m1 | m2 | m3 | m4 | m5 | m6 | m7;
    assert({
        &&& (b & 0x80u8 != 0) == (m0 != 0)
        &&& (b & 0x40u8 != 0) == (m1 != 0)
        &&& (b & 0x20u8 != 0) == (m2 != 0)
        &&& (b & 0x10u8 != 0) == (m3 != 0)
        &&& (b & 0x08u8 != 0) == (m4 != 0)
        &&& (b & 0x04u8 != 0) == (m5 != 0)
        &&& (b & 0x02u8 != 0) == (m6 != 0)
        &&& (b & 0x01u8 != 0) == (m7 != 0)
    }) by (bit_vector)
        requires
            b == m0 | m1 | m2 | m3 | m4 | m5 | m6 | m7,
            m0 == 0 || m0 == 0x80u8,
            m1 == 0 || m1 == 0x40u8,
            m2 == 0 || m2 == 0x20u8,
            m3 == 0 || m3 == 0x10u8,
            m4 == 0 || m4 == 0x08u8,
            m5 == 0 || m5 == 0x04u8,
            m6 == 0 || m6 == 0x02u8,
            m7 == 0 || m7 == 0x01u8,
    ;
}

/// Packing keeps every bit: bit `i` of the packed bytes is bit `i` of `s`,
/// and the fill bits behind the end of `s` are unset.
pub proof fn lemma_pack_bit(s: Seq<bool>, i: int)
    requires
        0 <= i < round_up8(s.len() as int),
    ensures
        0 <= i / 8 < pack_bits(s).len(),
        byte_bit(pack_bits(s)[i / 8], (i % 8) as u8) == bit_at(s, i),
{
    let k = i / 8;
    lemma_assembled_bits(
        bit_at(s, 8 * k),
        bit_at(s, 8 * k + 1),
        bit_at(s, 8 * k + 2),
        bit_at(s, 8 * k + 3),
        bit_at(s, 8 * k + 4),
        bit_at(s, 8 * k + 5),
        bit_at(s, 8 * k + 6),
        bit_at(s, 8 * k + 7),
    );
}

/// Unpacking the packed bytes of `s` gives `s` followed by unset fill bits.
pub proof fn lemma_unpack_pack(s: Seq<bool>)
    ensures
        unpack_bytes(pack_bits(s)).len() == round_up8(s.len() as int),
        forall|i: int|
            0 <= i < round_up8(s.len() as int) ==> #[trigger] unpack_bytes(pack_bits(s))[i]
                == bit_at(s, i),
{
    assert forall|i: int| 0 <= i < round_up8(s.len() as int) implies #[trigger] unpack_bytes(
        pack_bits(s),
    )[i] == bit_at(s, i) by {
        lemma_pack_bit(s, i);
    }
}

/// The bits of a byte, put back at their positions, give the byte.
pub proof fn lemma_byte_reassembled(b: u8)
    ensures
        b == bit_mask(byte_bit(b, 0), 0) | bit_mask(byte_bit(b, 1), 1) | bit_mask(byte_bit(b, 2), 2)
            | bit_mask(byte_bit(b, 3), 3) | bit_mask(byte_bit(b, 4), 4) | bit_mask(
            byte_bit(b, 5),
            5,
        ) | bit_mask(byte_bit(b, 6), 6) | bit_mask(byte_bit(b, 7), 7),
{
    assert(b == (if b & (0x80u8 >> 0u8) != 0 {
        0x80u8 >> 0u8
    } else {
        0u8
    }) | (if b & (0x80u8 >> 1u8) != 0 {
        0x80u8 >> 1u8
    } else {
        0u8
    }) | (if b & (0x80u8 >> 2u8) != 0 {
        0x80u8 >> 2u8
    } else {
        0u8
    }) | (if b & (0x80u8 >> 3u8) != 0 {
        0x80u8 >> 3u8
    } else {
        0u8
    }) | (if b & (0x80u8 >> 4u8) != 0 {
        0x80u8 >> 4u8
    } else {
        0u8
    }) | (if b & (0x80u8 >> 5u8) != 0 {
        0x80u8 >> 5u8
    } else {
        0u8
    }) | (if b & (0x80u8 >> 6u8) != 0 {
        0x80u8 >> 6u8
    } else {
        0u8
    }) | (if b & (0x80u8 >> 7u8) != 0 {
        0x80u8 >> 7u8
    } else {
        0u8
    })) by (bit_vector);
}

/// Packing the bits held by `bytes` gives `bytes` back.
pub proof fn lemma_pack_unpack(bytes: Seq<u8>)
    ensures
        pack_bits(unpack_bytes(bytes)) == bytes,
{
    let s = unpack_bytes(bytes);
    assert(pack_bits(s).len() == bytes.len());
    assert forall|k: int| 0 <= k < bytes.len() implies pack_bits(s)[k] == bytes[k] by {
        lemma_byte_reassembled(bytes[k]);
        assert(bit_at(s, 8 * k) == byte_bit(bytes[k], 0));
        assert(bit_at(s, 8 * k + 1) == byte_bit(bytes[k], 1));
        assert(bit_at(s, 8 * k + 2) == byte_bit(bytes[k], 2));
        assert(bit_at(s, 8 * k + 3) == byte_bit(bytes[k], 3));
        assert(bit_at(s, 8 * k + 4) == byte_bit(bytes[k], 4));
        assert(bit_at(s, 8 * k + 5) == byte_bit(bytes[k], 5));
        assert(bit_at(s, 8 * k + 6) == byte_bit(bytes[k], 6));
        assert(bit_at(s, 8 * k + 7) == byte_bit(bytes[k], 7));
    }
    assert(pack_bits(s) =~= bytes);
}

/// How the bitwise operators on bytes act on each bit.
pub proof fn lemma_bitwise_per_bit(a: u8, b: u8, j: u8)
    requires
        j < 8,
    ensures
        byte_bit(a ^ b, j) == (byte_bit(a, j) != byte_bit(b, j)),
        byte_bit(a | b, j) == (byte_bit(a, j) || byte_bit(b, j)),
        byte_bit(a & b, j) == (byte_bit(a, j) && byte_bit(b, j)),
        byte_bit(!a, j) == !byte_bit(a, j),
{
    assert({
        &&& ((a ^ b) & (0x80u8 >> j) != 0) == ((a & (0x80u8 >> j) != 0) != (b & (0x80u8 >> j) != 0))
        &&& ((a | b) & (0x80u8 >> j) != 0) == ((a & (0x80u8 >> j) != 0) || (b & (0x80u8 >> j) != 0))
        &&& ((a & b) & (0x80u8 >> j) != 0) == ((a & (0x80u8 >> j) != 0) && (b & (0x80u8 >> j) != 0))
        &&& ((!a) & (0x80u8 >> j) != 0) == !(a & (0x80u8 >> j) != 0)
    }) by (bit_vector)
        requires
            j < 8,
    ;
}

/// Number of set bits in `s`.
pub open spec fn count_true(s: Seq<bool>) -> nat
    decreases s.len(),
{
    if s.len() == 0 {
        0
    } else {
        count_true(s.drop_last()) + if s.last() {
            1nat
        } else {
            0nat
        }
    }
}

/// A sequence holds at most as many set bits as it has bits.
pub proof fn lemma_count_bound(s: Seq<bool>)
    ensures
        count_true(s) <= s.len(),
    decreases s.len(),
{
    if s.len() > 0 {
        lemma_count_bound(s.drop_last());
    }
}

/// The set bits of a concatenation are those of its two parts.
pub proof fn lemma_count_concat(a: Seq<bool>, b: Seq<bool>)
    ensures
        count_true(a + b) == count_true(a) + count_true(b),
    decreases b.len(),
{
    if b.len() == 0 {
        assert(a + b =~= a);
    } else {
        assert((a + b).drop_last() =~= a + b.drop_last());
        lemma_count_concat(a, b.drop_last());
    }
}

/// A sequence without a set bit counts zero, and only such a sequence does.
pub proof fn lemma_count_zero(s: Seq<bool>)
    ensures
        count_true(s) == 0 <==> (forall|i: int| 0 <= i < s.len() ==> !s[i]),
    decreases s.len(),
{
    if s.len() > 0 {
        lemma_count_zero(s.drop_last());
        if count_true(s) == 0 {
            assert forall|i: int| 0 <= i < s.len() implies !s[i] by {
                if i < s.len() - 1 {
                    assert(s.drop_last()[i] == s[i]);
                }
            }
        }
        if forall|i: int| 0 <= i < s.len() ==> !s[i] {
            assert forall|i: int| 0 <= i < s.drop_last().len() implies !s.drop_last()[i] by {
                assert(s.drop_last()[i] == s[i]);
            }
        }
    }
}

/// The bits held by a concatenation of bytes are the bits of the first part
/// followed by those of the second.
pub proof fn lemma_unpack_concat(a: Seq<u8>, b: Seq<u8>)
    ensures
        unpack_bytes(a + b) == unpack_bytes(a) + unpack_bytes(b),
{
    let l = unpack_bytes(a + b);
    let r = unpack_bytes(a) + unpack_bytes(b);
    assert(l.len() == r.len());
    assert forall|i: int| 0 <= i < l.len() implies l[i] == r[i] by {
        if i >= 8 * a.len() {
            let d = i - 8 * a.len();
            assert(d / 8 == i / 8 - a.len());
            assert(d % 8 == i % 8);
            assert((a + b)[i / 8] == b[d / 8]);
        }
    }
    assert(l =~= r);
}

/// Bytes that are all zero hold no set bit.
pub proof fn lemma_unpack_zero(bytes: Seq<u8>)
    requires
        forall|k: int| 0 <= k < bytes.len() ==> bytes[k] == 0,
    ensures
        count_true(unpack_bytes(bytes)) == 0,
{
    let s = unpack_bytes(bytes);
    assert forall|i: int| 0 <= i < s.len() implies !s[i] by {
        let j = (i % 8) as u8;
        assert(0u8 & (0x80u8 >> j) == 0) by (bit_vector);
    }
    lemma_count_zero(s);
}

/// Setting an unset bit adds one to the count.
pub proof fn lemma_count_set(s: Seq<bool>, i: int)
    requires
        0 <= i < s.len(),
        !s[i],
    ensures
        count_true(s.update(i, true)) == count_true(s) + 1,
    decreases s.len(),
{
    let t = s.update(i, true);
    if i == s.len() - 1 {
        assert(t.drop_last() =~= s.drop_last());
    } else {
        assert(t.drop_last() =~= s.drop_last().update(i, true));
        lemma_count_set(s.drop_last(), i);
    }
}

} // verus!

//! A readable rendering of bytes as the characters `0` and `1`.
//!
//! Each byte becomes eight characters, least significant bit first.

use vstd::prelude::*;

verus! {

/// The character `0`.
pub const ZERO_CHAR: u8 = 48;

/// The character `1`.
pub const ONE_CHAR: u8 = 49;

/// Whether bit `k` of `byte` is set, counting from the least significant bit.
pub open spec fn bit_is_set(byte: u8, k: int) -> bool {
    (byte as int / pow2_int(k)) % 2 == 1
}

/// Two to the power `k`, for the eight bit positions of a byte.
pub open spec fn pow2_int(k: int) -> int {
    if k <= 0 {
        1
    } else if k == 1 {
        2
    } else if k == 2 {
        4
    } else if k == 3 {
        8
    } else if k == 4 {
        16
    } else if k == 5 {
        32
    } else if k == 6 {
        64
    } else if k == 7 {
        128
    } else {
        256
    }
}

/// The character that renders bit `k` of `byte`.
pub open spec fn bit_char(byte: u8, k: int) -> u8 {
    if bit_is_set(byte, k) {
        ONE_CHAR
    } else {
        ZERO_CHAR
    }
}

/// The rendering of `bytes`: eight characters per byte.
pub open spec fn rendered(bytes: Seq<u8>) -> Seq<u8> {
    Seq::new((8 * bytes.len()) as nat, |p: int| bit_char(bytes[p / 8], p % 8))
}

/// Whether the first `8 * (bits.len() / 8)` characters are all `0` or `1`.
pub open spec fn well_rendered(bits: Seq<u8>) -> bool {
    forall|p: int|
        0 <= p < 8 * (bits.len() / 8) ==> bits[p] == ZERO_CHAR || #[trigger] bits[p] == ONE_CHAR
}

/// The byte spelled by the eight characters that start at `start`.
pub open spec fn spelled_byte(bits: Seq<u8>, start: int) -> int {
    spelled_upto(bits, start, 8)
}

/// The value of the first `k` characters that start at `start`.
pub open spec fn spelled_upto(bits: Seq<u8>, start: int, k: int) -> int
    decreases k,
{
    if k <= 0 {
        0
    } else {
        spelled_upto(bits, start, k - 1) + if bits[start + k - 1] == ONE_CHAR {
            pow2_int(k - 1)
        } else {
            0
        }
    }
}

/// The bytes spelled by a rendering; characters after the last full group of
/// eight are ignored.
pub open spec fn spelled(bits: Seq<u8>) -> Seq<int> {
    Seq::new((bits.len() / 8) as nat, |i: int| spelled_byte(bits, 8 * i))
}

proof fn lemma_bit_mask(byte: u8, k: u8)
    requires
        k < 8,
    ensures
        (byte & (1u8 << k) != 0) == bit_is_set(byte, k as int),
{
    assert(k < 8 ==> ((byte & (1u8 << k) != 0) == ((byte >> k) & 1 == 1))) by (bit_vector);
    assert(k < 8 ==> (byte >> k) & 1 == (byte >> k) % 2) by (bit_vector);
    assert(byte >> 0u8 == byte / 1) by (bit_vector);
    assert(byte >> 1u8 == byte / 2) by (bit_vector);
    assert(byte >> 2u8 == byte / 4) by (bit_vector);
    assert(byte >> 3u8 == byte / 8) by (bit_vector);
    assert(byte >> 4u8 == byte / 16) by (bit_vector);
    assert(byte >> 5u8 == byte / 32) by (bit_vector);
    assert(byte >> 6u8 == byte / 64) by (bit_vector);
    assert(byte >> 7u8 == byte / 128) by (bit_vector);
}

/// Renders bytes as a readable list of the characters `0` and `1`.
pub fn bytes_to_unicode_bits(bytes: &[u8]) -> (ret: Vec<u8>)
    ensures
        ret@ == rendered(bytes@),
{
    let mut ret: Vec<u8> = Vec::new();
    let mut i: usize = 0;
    while i < bytes.len()
        invariant
            i <= bytes.len(),
            ret@.len() == 8 * i,
            forall|p: int| 0 <= p < 8 * i ==> #[trigger] ret@[p] == bit_char(bytes@[p / 8], p % 8),
        decreases bytes.len() - i,
    {
        let byte: u8 = bytes[i];
        let mut offset: u8 = 0;
        while offset < 8
            invariant
                i < bytes.len(),
                byte == bytes@[i as int],
                offset <= 8,
                ret@.len() == 8 * i + offset,
                forall|p: int|
                    0 <= p < 8 * i + offset ==> #[trigger] ret@[p] == bit_char(
                        bytes@[p / 8],
                        p % 8,
                    ),
            decreases 8 - offset,
        {
            proof {
                lemma_bit_mask(byte, offset);
            }
            if byte & (1u8 << offset) == 0 {
                ret.push(ZERO_CHAR);
            } else {
                ret.push(ONE_CHAR);
            }
            offset = offset + 1;
        }
        i = i + 1;
    }
    assert(ret@ =~= rendered(bytes@));
    ret
}

/// Reads a rendering back into bytes.
///
/// Characters after the last full group of eight are ignored. The result is
/// `None` exactly when one of the others is neither `0` nor `1`.
pub fn unicode_bits_to_bytes(bits: &[u8]) -> (ret: Option<Vec<u8>>)
    ensures
        ret is Some <==> well_rendered(bits@),
        ret is Some ==> ret->0@.map_values(|b: u8| b as int) == spelled(bits@),
{
    let groups: usize = bits.len() / 8;
    let mut ret: Vec<u8> = Vec::new();
    let mut g: usize = 0;
    while g < groups
        invariant
            groups == bits.len() / 8,
            g <= groups,
            ret@.len() == g,
            forall|p: int|
                0 <= p < 8 * g ==> bits@[p] == ZERO_CHAR || #[trigger] bits@[p] == ONE_CHAR,
            forall|i: int| 0 <= i < g ==> #[trigger] ret@[i] as int == spelled_byte(bits@, 8 * i),
        decreases groups - g,
    {
        let mut byte: u8 = 0;
        let mut k: u8 = 0;
        while k < 8
            invariant
                groups == bits.len() / 8,
                g < groups,
                k <= 8,
                byte as int == spelled_upto(bits@, 8 * g, k as int),
                (byte as int) < pow2_int(k as int),
                forall|p: int|
                    0 <= p < 8 * g + k ==> bits@[p] == ZERO_CHAR || #[trigger] bits@[p] == ONE_CHAR,
            decreases 8 - k,
        {
            let c: u8 = bits[g * 8 + k as usize];
            if c == ONE_CHAR {
                let mask: u8 = 1u8 << k;
                proof {
                    let b = byte;
                    assert(k < 8 ==> (1u8 << k) == if k == 0 {
                        1u8
                    } else if k == 1 {
                        2u8
                    } else if k == 2 {
                        4u8
                    } else if k == 3 {
                        8u8
                    } else if k == 4 {
                        16u8
                    } else if k == 5 {
                        32u8
                    } else if k == 6 {
                        64u8
                    } else {
                        128u8
                    }) by (bit_vector);
                    assert(k < 8 && b < (1u8 << k) ==> (b | (1u8 << k)) == b + (1u8 << k))
                        by (bit_vector);
                }
                byte = byte | mask;
            } else if c != ZERO_CHAR {
                assert(!well_rendered(bits@)) by {
                    let p = 8 * g + k;
                    assert(0 <= p < 8 * (bits@.len() / 8));
                    assert(bits@[p] != ZERO_CHAR && bits@[p] != ONE_CHAR);
                }
                return None;
            }
            k = k + 1;
        }
        ret.push(byte);
        g = g + 1;
    }
    assert(ret@.map_values(|b: u8| b as int) =~= spelled(bits@));
    Some(ret)
}

/// A byte is the sum of the powers of two of its set bits.
proof fn lemma_byte_is_sum_of_bits(b: u8)
    ensures
        b as int == (if bit_is_set(b, 0) { 1int } else { 0 }) + (if bit_is_set(b, 1) { 2int } else { 0 })
            + (if bit_is_set(b, 2) { 4int } else { 0 }) + (if bit_is_set(b, 3) { 8int } else { 0 })
            + (if bit_is_set(b, 4) { 16int } else { 0 }) + (if bit_is_set(b, 5) { 32int } else { 0 })
            + (if bit_is_set(b, 6) { 64int } else { 0 }) + (if bit_is_set(b, 7) { 128int } else { 0 }),
{
    lemma_bit_mask(b, 0);
    lemma_bit_mask(b, 1);
    lemma_bit_mask(b, 2);
    lemma_bit_mask(b, 3);
    lemma_bit_mask(b, 4);
    lemma_bit_mask(b, 5);
    lemma_bit_mask(b, 6);
    lemma_bit_mask(b, 7);
    assert(b == (b & (1u8 << 0u8)) + (b & (1u8 << 1u8)) + (b & (1u8 << 2u8)) + (b & (1u8 << 3u8)) + (b & (
        1u8 << 4u8)) + (b & (1u8 << 5u8)) + (b & (1u8 << 6u8)) + (b & (1u8 << 7u8))) by (bit_vector);
    assert((b & (1u8 << 0u8)) == 0 || (b & (1u8 << 0u8)) == 1) by (bit_vector);
    assert((b & (1u8 << 1u8)) == 0 || (b & (1u8 << 1u8)) == 2) by (bit_vector);
    assert((b & (1u8 << 2u8)) == 0 || (b & (1u8 << 2u8)) == 4) by (bit_vector);
    assert((b & (1u8 << 3u8)) == 0 || (b & (1u8 << 3u8)) == 8) by (bit_vector);
    assert((b & (1u8 << 4u8)) == 0 || (b & (1u8 << 4u8)) == 16) by (bit_vector);
    assert((b & (1u8 << 5u8)) == 0 || (b & (1u8 << 5u8)) == 32) by (bit_vector);
    assert((b & (1u8 << 6u8)) == 0 || (b & (1u8 << 6u8)) == 64) by (bit_vector);
    assert((b & (1u8 << 7u8)) == 0 || (b & (1u8 << 7u8)) == 128) by (bit_vector);
}

/// The value spelled by the rendering of a byte is the byte.
proof fn lemma_spelled_rendered_byte(bytes: Seq<u8>, i: int)
    requires
        0 <= i < bytes.len(),
    ensures
        spelled_byte(rendered(bytes), 8 * i) == bytes[i] as int,
{
    let bits = rendered(bytes);
    let b = bytes[i];
    assert forall|k: int| 0 <= k < 8 implies #[trigger] bits[8 * i + k] == bit_char(b, k) by {
        assert((8 * i + k) / 8 == i);
        assert((8 * i + k) % 8 == k);
    }
    let s = 8 * i;
    assert(spelled_upto(bits, s, 0) == 0);
    assert(spelled_upto(bits, s, 1) == spelled_upto(bits, s, 0) + if bit_is_set(b, 0) { 1int } else { 0 }) by {
        assert(bits[s + 0] == bit_char(b, 0));
    }
    assert(spelled_upto(bits, s, 2) == spelled_upto(bits, s, 1) + if bit_is_set(b, 1) { 2int } else { 0 }) by {
        assert(bits[s + 1] == bit_char(b, 1));
    }
    assert(spelled_upto(bits, s, 3) == spelled_upto(bits, s, 2) + if bit_is_set(b, 2) { 4int } else { 0 }) by {
        assert(bits[s + 2] == bit_char(b, 2));
    }
    assert(spelled_upto(bits, s, 4) == spelled_upto(bits, s, 3) + if bit_is_set(b, 3) { 8int } else { 0 }) by {
        assert(bits[s + 3] == bit_char(b, 3));
    }
    assert(spelled_upto(bits, s, 5) == spelled_upto(bits, s, 4) + if bit_is_set(b, 4) { 16int } else { 0 }) by {
        assert(bits[s + 4] == bit_char(b, 4));
    }
    assert(spelled_upto(bits, s, 6) == spelled_upto(bits, s, 5) + if bit_is_set(b, 5) { 32int } else { 0 }) by {
        assert(bits[s + 5] == bit_char(b, 5));
    }
    assert(spelled_upto(bits, s, 7) == spelled_upto(bits, s, 6) + if bit_is_set(b, 6) { 64int } else { 0 }) by {
        assert(bits[s + 6] == bit_char(b, 6));
    }
    assert(spelled_upto(bits, s, 8) == spelled_upto(bits, s, 7) + if bit_is_set(b, 7) { 128int } else { 0 }) by {
        assert(bits[s + 7] == bit_char(b, 7));
    }
    lemma_byte_is_sum_of_bits(b);
}

/// Reading back the rendering of any bytes gives those bytes.
pub proof fn lemma_render_round_trip(bytes: Seq<u8>)
    ensures
        well_rendered(rendered(bytes)),
        spelled(rendered(bytes)) == bytes.map_values(|b: u8| b as int),
{
    let bits = rendered(bytes);
    assert(bits.len() / 8 == bytes.len());
    assert forall|i: int| 0 <= i < bytes.len() implies #[trigger] spelled(bits)[i] == bytes[i] as int by {
        lemma_spelled_rendered_byte(bytes, i);
    }
    assert(spelled(bits) =~= bytes.map_values(|b: u8| b as int));
}

} // verus!

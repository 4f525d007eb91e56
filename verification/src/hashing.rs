//! The name digest.
//!
//! A record's name is digested to a cheap 64-bit key: the first eight
//! name bytes, zero-padded when the name is shorter, are loaded as one
//! little-endian word, multiplied by a fixed odd constant and rotated
//! left by a fixed distance. The digest deliberately reads no byte past
//! the eighth: two names sharing an eight-byte prefix collide, and the
//! table disambiguates them by a full-name comparison. A digest of 0 is
//! remapped to 1, so that 0 can serve as the "empty slot" sentinel.

use vstd::prelude::*;

verus! {

/// The fixed odd multiplier of the digest.
pub const HASH_SEED: u64 = 0x517c_c1b7_2722_0a95;

/// Little-endian composition of eight bytes into one 64-bit word.
pub open spec fn le8(b0: u8, b1: u8, b2: u8, b3: u8, b4: u8, b5: u8, b6: u8, b7: u8) -> u64 {
    (b0 as u64) | ((b1 as u64) << 8) | ((b2 as u64) << 16) | ((b3 as u64) << 24) | ((b4 as u64)
        << 32) | ((b5 as u64) << 40) | ((b6 as u64) << 48) | ((b7 as u64) << 56)
}

/// The byte of `name` at `i`, or 0 past its end.
pub open spec fn byte_or_zero(name: Seq<u8>, i: int) -> u8 {
    if 0 <= i < name.len() {
        name[i]
    } else {
        0
    }
}

/// The first eight bytes of a name, zero-padded, as a little-endian word.
pub open spec fn name_word(name: Seq<u8>) -> u64 {
    le8(
        byte_or_zero(name, 0),
        byte_or_zero(name, 1),
        byte_or_zero(name, 2),
        byte_or_zero(name, 3),
        byte_or_zero(name, 4),
        byte_or_zero(name, 5),
        byte_or_zero(name, 6),
        byte_or_zero(name, 7),
    )
}

/// Rotation of a 64-bit word left by 17 bits.
pub open spec fn rotl17(x: u64) -> u64 {
    (x << 17) | (x >> 47)
}

/// The digest of a full name.
pub open spec fn hash_of(name: Seq<u8>) -> u64 {
    let h = rotl17(vstd::wrapping::u64_specs::wrapping_mul(name_word(name), HASH_SEED));
    if h == 0 {
        1
    } else {
        h
    }
}

/// Two names that agree on their first eight bytes share the digest,
/// however they differ afterwards. Colliding names stay distinct in the
/// aggregate because the table matches slots on the full name bytes.
pub proof fn lemma_hash_prefix_collision(a: Seq<u8>, b: Seq<u8>)
    requires
        a.len() >= 8,
        b.len() >= 8,
        a.take(8) == b.take(8),
    ensures
        hash_of(a) == hash_of(b),
{
    assert forall|i: int| 0 <= i < 8 implies byte_or_zero(a, i) == byte_or_zero(b, i) by {
        assert(a.take(8)[i] == a[i]);
        assert(b.take(8)[i] == b[i]);
        assert(a.take(8)[i] == b.take(8)[i]);
    }
    assert(name_word(a) == name_word(b));
}

/// Masking a word down to its low `k` bytes zeroes exactly the bytes
/// from `k` up.
proof fn lemma_mask_keeps_prefix(
    b0: u8, b1: u8, b2: u8, b3: u8, b4: u8, b5: u8, b6: u8, b7: u8,
    p0: u8, p1: u8, p2: u8, p3: u8, p4: u8, p5: u8, p6: u8, p7: u8,
    k: u64, shift: u64, mask: u64,
)
    by (bit_vector)
    requires
        k < 8,
        shift == 64 - 8 * k,
        mask == (if k == 0 { 0u64 } else { 0xFFFF_FFFF_FFFF_FFFFu64 >> shift }),
        p0 == (if 0 < k { b0 } else { 0 }),
        p1 == (if 1 < k { b1 } else { 0 }),
        p2 == (if 2 < k { b2 } else { 0 }),
        p3 == (if 3 < k { b3 } else { 0 }),
        p4 == (if 4 < k { b4 } else { 0 }),
        p5 == (if 5 < k { b5 } else { 0 }),
        p6 == (if 6 < k { b6 } else { 0 }),
        p7 == (if 7 < k { b7 } else { 0 }),
    ensures
        (le8(b0, b1, b2, b3, b4, b5, b6, b7) & mask) == le8(p0, p1, p2, p3, p4, p5, p6, p7),
{
}

/// Load eight consecutive bytes of `s` as one little-endian word.
pub fn load_le8(s: &[u8], off: usize) -> (r: u64)
    requires
        off + 8 <= s@.len(),
    ensures
        r == le8(
            s@[off as int],
            s@[off as int + 1],
            s@[off as int + 2],
            s@[off as int + 3],
            s@[off as int + 4],
            s@[off as int + 5],
            s@[off as int + 6],
            s@[off as int + 7],
        ),
{
    (s[off] as u64) | ((s[off + 1] as u64) << 8) | ((s[off + 2] as u64) << 16) | ((s[off + 3]
        as u64) << 24) | ((s[off + 4] as u64) << 32) | ((s[off + 5] as u64) << 40) | ((s[off + 6]
        as u64) << 48) | ((s[off + 7] as u64) << 56)
}

/// The digest of the name that starts the record slice `name_tail` and
/// ends just before the separator at `pos_of_semicolon`.
///
/// When at least eight bytes remain, the word is loaded verbatim and the
/// bytes at and past the separator, if any crept into the word, are
/// masked out; near the end of the buffer the name bytes are gathered
/// one by one into a zero-padded word instead.
pub fn hash(name_tail: &[u8], pos_of_semicolon: usize) -> (r: u64)
    requires
        pos_of_semicolon <= name_tail@.len(),
    ensures
        r == hash_of(name_tail@.take(pos_of_semicolon as int)),
{
    let ghost name = name_tail@.take(pos_of_semicolon as int);
    let block: u64;
    if name_tail.len() >= 8 {
        let word = load_le8(name_tail, 0);
        if pos_of_semicolon >= 8 {
            block = word;
            proof {
                assert(byte_or_zero(name, 0) == name_tail@[0]);
                assert(byte_or_zero(name, 1) == name_tail@[1]);
                assert(byte_or_zero(name, 2) == name_tail@[2]);
                assert(byte_or_zero(name, 3) == name_tail@[3]);
                assert(byte_or_zero(name, 4) == name_tail@[4]);
                assert(byte_or_zero(name, 5) == name_tail@[5]);
                assert(byte_or_zero(name, 6) == name_tail@[6]);
                assert(byte_or_zero(name, 7) == name_tail@[7]);
                assert(block == name_word(name));
            }
        } else {
            let k: u64 = pos_of_semicolon as u64;
            let shift: u64 = 64 - 8 * k;
            let mask: u64 = if k == 0 {
                0
            } else {
                0xFFFF_FFFF_FFFF_FFFFu64 >> shift
            };
            block = word & mask;
            proof {
                lemma_mask_keeps_prefix(
                    name_tail@[0], name_tail@[1], name_tail@[2], name_tail@[3],
                    name_tail@[4], name_tail@[5], name_tail@[6], name_tail@[7],
                    byte_or_zero(name, 0), byte_or_zero(name, 1), byte_or_zero(name, 2),
                    byte_or_zero(name, 3), byte_or_zero(name, 4), byte_or_zero(name, 5),
                    byte_or_zero(name, 6), byte_or_zero(name, 7),
                    k, shift, mask,
                );
                assert(block == name_word(name));
            }
        }
    } else {
        // Near the end of the buffer: zero-pad the word with the bytes
        // before the separator.
        let b0: u8 = if 0 < pos_of_semicolon { name_tail[0] } else { 0 };
        let b1: u8 = if 1 < pos_of_semicolon { name_tail[1] } else { 0 };
        let b2: u8 = if 2 < pos_of_semicolon { name_tail[2] } else { 0 };
        let b3: u8 = if 3 < pos_of_semicolon { name_tail[3] } else { 0 };
        let b4: u8 = if 4 < pos_of_semicolon { name_tail[4] } else { 0 };
        let b5: u8 = if 5 < pos_of_semicolon { name_tail[5] } else { 0 };
        let b6: u8 = if 6 < pos_of_semicolon { name_tail[6] } else { 0 };
        block = (b0 as u64) | ((b1 as u64) << 8) | ((b2 as u64) << 16) | ((b3 as u64) << 24) | ((
        b4 as u64) << 32) | ((b5 as u64) << 40) | ((b6 as u64) << 48);
        proof {
            assert(b0 == byte_or_zero(name, 0));
            assert(b1 == byte_or_zero(name, 1));
            assert(b2 == byte_or_zero(name, 2));
            assert(b3 == byte_or_zero(name, 3));
            assert(b4 == byte_or_zero(name, 4));
            assert(b5 == byte_or_zero(name, 5));
            assert(b6 == byte_or_zero(name, 6));
            assert(byte_or_zero(name, 7) == 0);
            assert(le8(b0, b1, b2, b3, b4, b5, b6, 0) == (b0 as u64) | ((b1 as u64) << 8) | ((b2
                as u64) << 16) | ((b3 as u64) << 24) | ((b4 as u64) << 32) | ((b5 as u64) << 40)
                | ((b6 as u64) << 48)) by (bit_vector);
            assert(block == name_word(name));
        }
    }
    let h: u64 = block.wrapping_mul(HASH_SEED);
    let rotated: u64 = (h << 17) | (h >> 47);
    if rotated != 0 {
        rotated
    } else {
        1
    }
}

} // verus!

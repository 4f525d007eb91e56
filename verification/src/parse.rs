//! The fixed-point temperature parser.
//!
//! A value field matches the grammar `'-'? digit{1,2} '.' digit` and is
//! decoded to tenths: the text `-12.7` becomes the integer `-127`. The
//! parser also reports how many bytes it consumed, counting the line
//! terminator that follows the value (whether or not the buffer still
//! holds that terminator).

use vstd::prelude::*;
use crate::hashing::le8;
use crate::hashing::load_le8;

verus! {

/// ASCII codes the grammar speaks of.
pub open spec fn is_ascii_digit(b: u8) -> bool {
    48 <= b && b <= 57
}

/// Does the value text start with a minus sign (ASCII 45)?
pub open spec fn temp_neg(s: Seq<u8>) -> bool {
    s.len() > 0 && s[0] == 45
}

/// The digits-and-point part of the value text, sign stripped.
pub open spec fn temp_body(s: Seq<u8>) -> Seq<u8> {
    if temp_neg(s) {
        s.skip(1)
    } else {
        s
    }
}

/// The value text at the head of `s` matches `'-'? digit{1,2} '.' digit`,
/// the point being ASCII 46.
pub open spec fn temp_wf(s: Seq<u8>) -> bool {
    let b = temp_body(s);
    &&& b.len() >= 3
    &&& is_ascii_digit(b[0])
    &&& if b[1] == 46 {
        is_ascii_digit(b[2])
    } else {
        &&& is_ascii_digit(b[1])
        &&& b.len() >= 4
        &&& b[2] == 46
        &&& is_ascii_digit(b[3])
    }
}

/// Magnitude of the value in tenths: `3.2` gives 32, `12.7` gives 127.
pub open spec fn temp_abs(s: Seq<u8>) -> int {
    let b = temp_body(s);
    if b[1] == 46 {
        10 * (b[0] - 48) + (b[2] - 48)
    } else {
        100 * (b[0] - 48) + 10 * (b[1] - 48) + (b[3] - 48)
    }
}

/// The decoded value in tenths, sign applied.
pub open spec fn temp_value(s: Seq<u8>) -> int {
    if temp_neg(s) {
        -temp_abs(s)
    } else {
        temp_abs(s)
    }
}

/// Length in bytes of the value text itself (sign, digits and point).
pub open spec fn temp_text_len(s: Seq<u8>) -> int {
    (if temp_neg(s) {
        1int
    } else {
        0int
    }) + (if temp_body(s)[1] == 46 {
        3int
    } else {
        4int
    })
}

/// Scalar decoder for a value near the end of the buffer, read byte by
/// byte: optional sign, one digit, an optional second digit, the point,
/// and the fractional digit.
pub fn parse_temperature_simple(chars: &[u8]) -> (r: (i16, usize))
    requires
        temp_wf(chars@),
    ensures
        r.0 as int == temp_value(chars@),
        r.1 as int == temp_text_len(chars@) + 1,
{
    let mut i: usize = 0;
    let negative: bool = chars[0] == 45;
    if negative {
        i = 1;
    }
    let mut temperature: i16 = (chars[i] - 48) as i16;
    i = i + 1;
    if chars[i] == 46 {
        i = i + 1;
    } else {
        temperature = 10 * temperature + (chars[i] - 48) as i16;
        i = i + 2;
    }
    let magnitude: i16 = 10 * temperature + (chars[i] - 48) as i16;
    let value: i16 = if negative {
        -magnitude
    } else {
        magnitude
    };
    (value, i + 2)
}

/// The value in tenths is bounded by the two-digit grammar, and the
/// value text spans three to five bytes.
pub proof fn lemma_temp_bounds(s: Seq<u8>)
    requires
        temp_wf(s),
    ensures
        -999 <= temp_value(s) <= 999,
        0 <= temp_abs(s) <= 999,
        3 <= temp_text_len(s) <= 5,
{
}

/// A word whose only possibly-set bits sit at positions 12, 20 and 28
/// has its lowest set bit exactly where the hypotheses put it.
proof fn lemma_tz_pins(masked: u64, t: u32)
    requires
        t == 12 || t == 20 || t == 28,
        (masked >> (t as u64)) & 1 == 1,
        t == 20 ==> masked & 0xF_FFFF == 0,
        t == 28 ==> masked & 0xFFF_FFFF == 0,
        masked & 0xFFF == 0,
    ensures
        vstd::std_specs::bits::u64_trailing_zeros(masked) == t,
{
    vstd::std_specs::bits::axiom_u64_trailing_zeros(masked);
    let tz = vstd::std_specs::bits::u64_trailing_zeros(masked);
    assert(masked != 0) by (bit_vector)
        requires
            (masked >> (t as u64)) & 1 == 1,
    ;
    assert(tz < 64);
    assert((masked >> (tz as u64)) & 1 == 1);
    if tz < t {
        assert(false) by (bit_vector)
            requires
                (masked >> (tz as u64)) & 1 == 1,
                tz < t,
                t == 12 || t == 20 || t == 28,
                t == 20 ==> masked & 0xF_FFFF == 0,
                t == 28 ==> masked & 0xFFF_FFFF == 0,
                masked & 0xFFF == 0,
        ;
    }
    if tz > t {
        assert((masked >> (t as u64)) & 1 == 0);
        assert(false);
    }
}

/// Word-level decoder for a value with at least eight bytes remaining:
/// the eight bytes are treated as one little-endian word; the point's
/// byte position is found from the bit pattern that `.` alone leaves in
/// the negated word at bits 12, 20 and 28; the sign byte, when present,
/// is masked away; the digit bytes are shifted into fixed nibble slots
/// and the magnitude reconstructed by one multiply-and-shift that reads
/// the packed nibbles as a two-or-three-digit decimal number.
pub fn parse_temperature_swar(chars: &[u8]) -> (r: (i16, usize))
    requires
        chars@.len() >= 8,
        temp_wf(chars@),
    ensures
        r.0 as int == temp_value(chars@),
        r.1 as int == temp_text_len(chars@) + 1,
{
    let ghost s = chars@;
    let ghost c0 = s[0];
    let ghost c1 = s[1];
    let ghost c2 = s[2];
    let ghost c3 = s[3];
    let ghost c4 = s[4];
    let ghost c5 = s[5];
    let ghost c6 = s[6];
    let ghost c7 = s[7];

    let word: u64 = load_le8(chars, 0);
    let negated: u64 = !word;
    let masked: u64 = negated & 0x1010_1000;

    proof {
        assert(masked & 0xFFF == 0) by (bit_vector)
            requires
                masked == !word & 0x1010_1000,
        ;
        if temp_neg(s) {
            if s[2] == 46 {
                assert((masked >> 20) & 1 == 1 && masked & 0xF_FFFF == 0) by (bit_vector)
                    requires
                        word == le8(c0, c1, c2, c3, c4, c5, c6, c7),
                        masked == !word & 0x1010_1000,
                        48 <= c1 <= 57,
                        c2 == 46,
                ;
                lemma_tz_pins(masked, 20);
            } else {
                assert((masked >> 28) & 1 == 1 && masked & 0xFFF_FFFF == 0) by (bit_vector)
                    requires
                        word == le8(c0, c1, c2, c3, c4, c5, c6, c7),
                        masked == !word & 0x1010_1000,
                        48 <= c1 <= 57,
                        48 <= c2 <= 57,
                        c3 == 46,
                ;
                lemma_tz_pins(masked, 28);
            }
        } else {
            if s[1] == 46 {
                assert((masked >> 12) & 1 == 1) by (bit_vector)
                    requires
                        word == le8(c0, c1, c2, c3, c4, c5, c6, c7),
                        masked == !word & 0x1010_1000,
                        c1 == 46,
                ;
                lemma_tz_pins(masked, 12);
            } else {
                assert((masked >> 20) & 1 == 1 && masked & 0xF_FFFF == 0) by (bit_vector)
                    requires
                        word == le8(c0, c1, c2, c3, c4, c5, c6, c7),
                        masked == !word & 0x1010_1000,
                        48 <= c1 <= 57,
                        c2 == 46,
                ;
                lemma_tz_pins(masked, 20);
            }
        }
    }
    let dot_pos: u32 = masked.trailing_zeros();

    // Bit 4 of the leading byte is clear exactly for the sign byte `-`.
    let negative: bool = (word & 0x10) == 0;
    proof {
        assert(((word & 0x10) == 0) <==> (c0 == 45)) by (bit_vector)
            requires
                word == le8(c0, c1, c2, c3, c4, c5, c6, c7),
                c0 == 45 || 48 <= c0 <= 57,
        ;
    }

    // Strip the sign byte when present, slide the digit bytes into the
    // fixed nibble slots, and read them off as one decimal number. The
    // multiply is carried out in 128 bits; only bits 32..42 of the
    // product are kept, so it equals the 64-bit wrapping multiply.
    let remove_sign_mask: u64 = if negative {
        0xFFFF_FFFF_FFFF_FF00
    } else {
        0xFFFF_FFFF_FFFF_FFFF
    };
    let shift: u64 = 28 - (dot_pos as u64);
    let digits: u64 = ((word & remove_sign_mask) << shift) & 0x0F00_0F0F_00;
    let prod: u128 = (digits as u128) * 0x640a_0001;
    proof {
        assert(((prod >> 32) & 0x3FF) <= 0x3FF) by (bit_vector);
        if temp_neg(s) {
            if s[2] == 46 {
                assert(((prod >> 32) & 0x3FF) == 10 * ((c1 - 48) as u128) + ((c3 - 48) as u128))
                    by (bit_vector)
                    requires
                        word == le8(c0, c1, c2, c3, c4, c5, c6, c7),
                        48 <= c1 <= 57,
                        c2 == 46,
                        48 <= c3 <= 57,
                        digits == ((word & 0xFFFF_FFFF_FFFF_FF00u64) << 8u64) & 0x0F00_0F0F_00,
                        prod == (digits as u128) * 0x640a_0001,
                ;
            } else {
                assert(((prod >> 32) & 0x3FF) == 100 * ((c1 - 48) as u128) + 10 * ((c2
                    - 48) as u128) + ((c4 - 48) as u128)) by (bit_vector)
                    requires
                        word == le8(c0, c1, c2, c3, c4, c5, c6, c7),
                        48 <= c1 <= 57,
                        48 <= c2 <= 57,
                        c3 == 46,
                        48 <= c4 <= 57,
                        digits == ((word & 0xFFFF_FFFF_FFFF_FF00u64) << 0u64) & 0x0F00_0F0F_00,
                        prod == (digits as u128) * 0x640a_0001,
                ;
            }
        } else {
            if s[1] == 46 {
                assert(((prod >> 32) & 0x3FF) == 10 * ((c0 - 48) as u128) + ((c2 - 48) as u128))
                    by (bit_vector)
                    requires
                        word == le8(c0, c1, c2, c3, c4, c5, c6, c7),
                        48 <= c0 <= 57,
                        c1 == 46,
                        48 <= c2 <= 57,
                        digits == ((word & 0xFFFF_FFFF_FFFF_FFFFu64) << 16u64) & 0x0F00_0F0F_00,
                        prod == (digits as u128) * 0x640a_0001,
                ;
            } else {
                assert(((prod >> 32) & 0x3FF) == 100 * ((c0 - 48) as u128) + 10 * ((c1
                    - 48) as u128) + ((c3 - 48) as u128)) by (bit_vector)
                    requires
                        word == le8(c0, c1, c2, c3, c4, c5, c6, c7),
                        48 <= c0 <= 57,
                        48 <= c1 <= 57,
                        c2 == 46,
                        48 <= c3 <= 57,
                        digits == ((word & 0xFFFF_FFFF_FFFF_FFFFu64) << 8u64) & 0x0F00_0F0F_00,
                        prod == (digits as u128) * 0x640a_0001,
                ;
            }
        }
    }
    let abs_value: u64 = ((prod >> 32) & 0x3FF) as u64;
    // Reapply the sign: equivalent to the xor-then-subtract idiom on the
    // sign-extended word.
    let temperature: i16 = if negative {
        -(abs_value as i16)
    } else {
        abs_value as i16
    };
    let consumed: usize = (dot_pos / 8 + 3) as usize;
    (temperature, consumed)
}

/// Decode the value field that starts `chars`, by whole words when at
/// least eight bytes remain and byte by byte otherwise. Returns the
/// value in tenths and the count of bytes consumed, counting the line
/// terminator after the value.
pub fn parse_temperature(chars: &[u8]) -> (r: (i16, usize))
    requires
        temp_wf(chars@),
    ensures
        r.0 as int == temp_value(chars@),
        r.1 as int == temp_text_len(chars@) + 1,
{
    if chars.len() >= 8 {
        parse_temperature_swar(chars)
    } else {
        parse_temperature_simple(chars)
    }
}

} // verus!

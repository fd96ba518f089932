//! Size categories, amplitudes and the standard Huffman code tables of
//! baseline JPEG.
use vstd::arithmetic::power::pow;
use vstd::arithmetic::power2::{lemma_pow2, lemma_pow2_pos, lemma_pow2_unfold, pow2};
use vstd::prelude::*;

verus! {

/// `u16::ilog2`: the base-2 logarithm rounded down; it panics on zero.
pub assume_specification[ <u16>::ilog2 ](x: u16) -> (r: u32)
    requires
        x > 0,
    ensures
        pow2(r as nat) <= x < pow2(r as nat + 1),
;

/// `i16::unsigned_abs`: the absolute value, which always fits in `u16`.
pub assume_specification[ <i16>::unsigned_abs ](x: i16) -> (r: u16)
    ensures
        r as int == if x < 0 { -(x as int) } else { x as int },
;

/// `u16::pow`: `x` raised to `exp`; the result must fit in `u16`.
pub assume_specification[ <u16>::pow ](x: u16, exp: u32) -> (r: u16)
    requires
        pow(x as int, exp as nat) <= u16::MAX,
    ensures
        r as int == pow(x as int, exp as nat),
;

/// Number of binary digits of `v` (0 for 0).
pub open spec fn bit_length(v: nat) -> nat
    decreases v,
{
    if v == 0 {
        0
    } else {
        1 + bit_length(v / 2)
    }
}

/// `|raw|`.
pub open spec fn magnitude(raw: i16) -> nat {
    if raw < 0 {
        (-(raw as int)) as nat
    } else {
        raw as nat
    }
}

/// The size category of a coefficient: the number of bits of its magnitude.
pub open spec fn size_category(raw: i16) -> nat {
    bit_length(magnitude(raw))
}

/// The amplitude bits of a coefficient: the value itself when positive, its
/// one's complement in `size_category(raw)` bits when negative.
pub open spec fn amplitude(raw: i16) -> nat {
    if raw >= 0 {
        raw as nat
    } else {
        (pow2(size_category(raw)) - 1 - magnitude(raw)) as nat
    }
}

/// Decoding of amplitude bits (the EXTEND procedure of a baseline decoder).
pub open spec fn extend(amp: nat, size: nat) -> int {
    if size == 0 {
        0
    } else if amp < pow2((size - 1) as nat) {
        amp - pow2(size) + 1
    } else {
        amp as int
    }
}

/// A positive value of `s` bits lies in `[2^(s-1), 2^s)`.
pub proof fn lemma_bit_length_bounds(v: nat)
    ensures
        v == 0 ==> bit_length(v) == 0,
        v > 0 ==> bit_length(v) >= 1 && pow2((bit_length(v) - 1) as nat) <= v < pow2(bit_length(v)),
    decreases v,
{
    if v > 0 {
        lemma_bit_length_bounds(v / 2);
        lemma_pow2_unfold(bit_length(v));
        if v / 2 > 0 {
            lemma_pow2_unfold((bit_length(v) - 1) as nat);
        } else {
            assert(v == 1);
            assert(pow2(0) == 1) by {
                lemma_pow2(0);
                reveal(pow);
            }
        }
    }
}

/// The bit length is the one exponent that brackets the value.
pub proof fn lemma_bit_length_unique(v: nat, r: nat)
    requires
        pow2(r) <= v < pow2(r + 1),
    ensures
        bit_length(v) == r + 1,
    decreases r,
{
    lemma_pow2_unfold(r + 1);
    if r == 0 {
        assert(pow2(0) == 1) by {
            lemma_pow2(0);
            reveal(pow);
        }
        assert(v == 1);
        assert(bit_length(0) == 0);
    } else {
        lemma_pow2_unfold(r);
        lemma_bit_length_unique(v / 2, (r - 1) as nat);
    }
}

/// The size category and amplitude bits of a coefficient decode back to it,
/// and the amplitude fits in its size category.
pub proof fn lemma_extend_amplitude(raw: i16)
    requires
        raw != i16::MIN,
    ensures
        amplitude(raw) < pow2(size_category(raw)),
        extend(amplitude(raw), size_category(raw)) == raw,
{
    let a = magnitude(raw);
    let s = size_category(raw);
    lemma_bit_length_bounds(a);
    if raw == 0 {
        assert(pow2(0) == 1) by {
            lemma_pow2(0);
            reveal(pow);
        }
    } else {
        lemma_pow2_unfold(s);
    }
}

/// A coefficient other than `i16::MIN` has at most 15 magnitude bits.
pub proof fn lemma_size_category_bound(raw: i16)
    requires
        raw != i16::MIN,
    ensures
        size_category(raw) <= 15,
{
    let a = magnitude(raw);
    lemma_bit_length_bounds(a);
    if a > 0 && bit_length(a) > 15 {
        assert(pow2(15) == 0x8000) by {
            vstd::arithmetic::power2::lemma2_to64();
        }
        if bit_length(a) - 1 > 15 {
            vstd::arithmetic::power2::lemma_pow2_strictly_increases(15, (bit_length(a) - 1) as nat);
        }
    }
}

/// Computes the size category and the amplitude bits of a coefficient.
pub fn calculate_size_and_amp(raw: i16) -> (r: (u8, u16))
    requires
        raw != i16::MIN,
    ensures
        r.0 as nat == size_category(raw),
        r.1 as nat == amplitude(raw),
        r.0 <= 15,
        (r.1 as nat) < pow2(r.0 as nat),
{
    if raw == 0 {
        proof {
            assert(pow2(0) == 1) by {
                lemma_pow2(0);
                reveal(pow);
            }
        }
        return (0, 0);
    }
    let abs_val = raw.unsigned_abs();
    let lg = abs_val.ilog2();
    proof {
        lemma_bit_length_unique(abs_val as nat, lg as nat);
        lemma_bit_length_bounds(abs_val as nat);
        assert(lg < 15) by {
            assert(pow2(15) == 0x8000) by {
                vstd::arithmetic::power2::lemma2_to64();
            }
            if lg > 15 {
                vstd::arithmetic::power2::lemma_pow2_strictly_increases(15, lg as nat);
            }
        }
    }
    let size = lg + 1;
    proof {
        lemma_pow2(size as nat);
        assert(pow2(16) == 0x10000) by {
            vstd::arithmetic::power2::lemma2_to64();
        }
        if size < 16 {
            vstd::arithmetic::power2::lemma_pow2_strictly_increases(size as nat, 16);
        }
    }
    let amp = if raw > 0 {
        abs_val
    } else {
        2u16.pow(size) - abs_val - 1
    };
    (size as u8, amp)
}

/// Huffman codes for the DC size categories 0..=11.
pub struct DcHuffmanTable {
    pub codes: [u16; 12],
    pub sizes: [u8; 12],
}

/// Huffman codes for the AC symbols `run << 4 | size`.
pub struct AcHuffmanTable {
    pub codes: [u16; 256],
    pub sizes: [u8; 256],
}

/// Huffman code of each luminance DC size category.
pub const Y_DC_CODES: [u16; 12] = [
        0, 2, 3, 4, 5, 6, 14, 30, 62, 126, 254, 510,
];

/// Length in bits of the code of each luminance DC size category (0: no code).
pub const Y_DC_SIZES: [u8; 12] = [
        2, 3, 3, 3, 3, 3, 4, 5, 6, 7, 8, 9,
];

/// Huffman code of each chrominance DC size category.
pub const C_DC_CODES: [u16; 12] = [
        0, 1, 2, 6, 14, 30, 62, 126, 254, 510, 1022, 2046,
];

/// Length in bits of the code of each chrominance DC size category (0: no code).
pub const C_DC_SIZES: [u8; 12] = [
        2, 2, 2, 3, 4, 5, 6, 7, 8, 9, 10, 11,
];

/// Huffman code of each luminance AC symbol `run << 4 | size`.
pub const Y_AC_CODES: [u16; 256] = [
        10, 0, 1, 4, 11, 26, 120, 248, 1014, 65410, 65411, 0,
        0, 0, 0, 0, 0, 12, 27, 121, 502, 2038, 65412, 65413,
        65414, 65415, 65416, 0, 0, 0, 0, 0, 0, 28, 249, 1015,
        4084, 65417, 65418, 65419, 65420, 65421, 65422, 0, 0, 0, 0, 0,
        0, 58, 503, 4085, 65423, 65424, 65425, 65426, 65427, 65428, 65429, 0,
        0, 0, 0, 0, 0, 59, 1016, 65430, 65431, 65432, 65433, 65434,
        65435, 65436, 65437, 0, 0, 0, 0, 0, 0, 122, 2039, 65438,
        65439, 65440, 65441, 65442, 65443, 65444, 65445, 0, 0, 0, 0, 0,
        0, 123, 4086, 65446, 65447, 65448, 65449, 65450, 65451, 65452, 65453, 0,
        0, 0, 0, 0, 0, 250, 4087, 65454, 65455, 65456, 65457, 65458,
        65459, 65460, 65461, 0, 0, 0, 0, 0, 0, 504, 32704, 65462,
        65463, 65464, 65465, 65466, 65467, 65468, 65469, 0, 0, 0, 0, 0,
        0, 505, 65470, 65471, 65472, 65473, 65474, 65475, 65476, 65477, 65478, 0,
        0, 0, 0, 0, 0, 506, 65479, 65480, 65481, 65482, 65483, 65484,
        65485, 65486, 65487, 0, 0, 0, 0, 0, 0, 1017, 65488, 65489,
        65490, 65491, 65492, 65493, 65494, 65495, 65496, 0, 0, 0, 0, 0,
        0, 1018, 65497, 65498, 65499, 65500, 65501, 65502, 65503, 65504, 65505, 0,
        0, 0, 0, 0, 0, 2040, 65506, 65507, 65508, 65509, 65510, 65511,
        65512, 65513, 65514, 0, 0, 0, 0, 0, 0, 65515, 65516, 65517,
        65518, 65519, 65520, 65521, 65522, 65523, 65524, 0, 0, 0, 0, 0,
        2041, 65525, 65526, 65527, 65528, 65529, 65530, 65531, 65532, 65533, 65534, 0,
        0, 0, 0, 0,
];

/// Length in bits of the code of each luminance AC symbol `run << 4 | size` (0: no code).
pub const Y_AC_SIZES: [u8; 256] = [
        4, 2, 2, 3, 4, 5, 7, 8, 10, 16, 16, 0, 0, 0, 0, 0,
        0, 4, 5, 7, 9, 11, 16, 16, 16, 16, 16, 0, 0, 0, 0, 0,
        0, 5, 8, 10, 12, 16, 16, 16, 16, 16, 16, 0, 0, 0, 0, 0,
        0, 6, 9, 12, 16, 16, 16, 16, 16, 16, 16, 0, 0, 0, 0, 0,
        0, 6, 10, 16, 16, 16, 16, 16, 16, 16, 16, 0, 0, 0, 0, 0,
        0, 7, 11, 16, 16, 16, 16, 16, 16, 16, 16, 0, 0, 0, 0, 0,
        0, 7, 12, 16, 16, 16, 16, 16, 16, 16, 16, 0, 0, 0, 0, 0,
        0, 8, 12, 16, 16, 16, 16, 16, 16, 16, 16, 0, 0, 0, 0, 0,
        0, 9, 15, 16, 16, 16, 16, 16, 16, 16, 16, 0, 0, 0, 0, 0,
        0, 9, 16, 16, 16, 16, 16, 16, 16, 16, 16, 0, 0, 0, 0, 0,
        0, 9, 16, 16, 16, 16, 16, 16, 16, 16, 16, 0, 0, 0, 0, 0,
        0, 10, 16, 16, 16, 16, 16, 16, 16, 16, 16, 0, 0, 0, 0, 0,
        0, 10, 16, 16, 16, 16, 16, 16, 16, 16, 16, 0, 0, 0, 0, 0,
        0, 11, 16, 16, 16, 16, 16, 16, 16, 16, 16, 0, 0, 0, 0, 0,
        0, 16, 16, 16, 16, 16, 16, 16, 16, 16, 16, 0, 0, 0, 0, 0,
        11, 16, 16, 16, 16, 16, 16, 16, 16, 16, 16, 0, 0, 0, 0, 0,
];

/// Huffman code of each chrominance AC symbol `run << 4 | size`.
pub const C_AC_CODES: [u16; 256] = [
        0, 1, 4, 10, 24, 25, 56, 120, 500, 1014, 4084, 0,
        0, 0, 0, 0, 0, 11, 57, 246, 501, 2038, 4085, 65416,
        65417, 65418, 65419, 0, 0, 0, 0, 0, 0, 26, 247, 1015,
        4086, 32706, 65420, 65421, 65422, 65423, 65424, 0, 0, 0, 0, 0,
        0, 27, 248, 1016, 4087, 65425, 65426, 65427, 65428, 65429, 65430, 0,
        0, 0, 0, 0, 0, 58, 502, 65431, 65432, 65433, 65434, 65435,
        65436, 65437, 65438, 0, 0, 0, 0, 0, 0, 59, 1017, 65439,
        65440, 65441, 65442, 65443, 65444, 65445, 65446, 0, 0, 0, 0, 0,
        0, 121, 2039, 65447, 65448, 65449, 65450, 65451, 65452, 65453, 65454, 0,
        0, 0, 0, 0, 0, 122, 2040, 65455, 65456, 65457, 65458, 65459,
        65460, 65461, 65462, 0, 0, 0, 0, 0, 0, 249, 65463, 65464,
        65465, 65466, 65467, 65468, 65469, 65470, 65471, 0, 0, 0, 0, 0,
        0, 503, 65472, 65473, 65474, 65475, 65476, 65477, 65478, 65479, 65480, 0,
        0, 0, 0, 0, 0, 504, 65481, 65482, 65483, 65484, 65485, 65486,
        65487, 65488, 65489, 0, 0, 0, 0, 0, 0, 505, 65490, 65491,
        65492, 65493, 65494, 65495, 65496, 65497, 65498, 0, 0, 0, 0, 0,
        0, 506, 65499, 65500, 65501, 65502, 65503, 65504, 65505, 65506, 65507, 0,
        0, 0, 0, 0, 0, 2041, 65508, 65509, 65510, 65511, 65512, 65513,
        65514, 65515, 65516, 0, 0, 0, 0, 0, 0, 16352, 65517, 65518,
        65519, 65520, 65521, 65522, 65523, 65524, 65525, 0, 0, 0, 0, 0,
        1018, 32707, 65526, 65527, 65528, 65529, 65530, 65531, 65532, 65533, 65534, 0,
        0, 0, 0, 0,
];

/// Length in bits of the code of each chrominance AC symbol `run << 4 | size` (0: no code).
pub const C_AC_SIZES: [u8; 256] = [
        2, 2, 3, 4, 5, 5, 6, 7, 9, 10, 12, 0, 0, 0, 0, 0,
        0, 4, 6, 8, 9, 11, 12, 16, 16, 16, 16, 0, 0, 0, 0, 0,
        0, 5, 8, 10, 12, 15, 16, 16, 16, 16, 16, 0, 0, 0, 0, 0,
        0, 5, 8, 10, 12, 16, 16, 16, 16, 16, 16, 0, 0, 0, 0, 0,
        0, 6, 9, 16, 16, 16, 16, 16, 16, 16, 16, 0, 0, 0, 0, 0,
        0, 6, 10, 16, 16, 16, 16, 16, 16, 16, 16, 0, 0, 0, 0, 0,
        0, 7, 11, 16, 16, 16, 16, 16, 16, 16, 16, 0, 0, 0, 0, 0,
        0, 7, 11, 16, 16, 16, 16, 16, 16, 16, 16, 0, 0, 0, 0, 0,
        0, 8, 16, 16, 16, 16, 16, 16, 16, 16, 16, 0, 0, 0, 0, 0,
        0, 9, 16, 16, 16, 16, 16, 16, 16, 16, 16, 0, 0, 0, 0, 0,
        0, 9, 16, 16, 16, 16, 16, 16, 16, 16, 16, 0, 0, 0, 0, 0,
        0, 9, 16, 16, 16, 16, 16, 16, 16, 16, 16, 0, 0, 0, 0, 0,
        0, 9, 16, 16, 16, 16, 16, 16, 16, 16, 16, 0, 0, 0, 0, 0,
        0, 11, 16, 16, 16, 16, 16, 16, 16, 16, 16, 0, 0, 0, 0, 0,
        0, 14, 16, 16, 16, 16, 16, 16, 16, 16, 16, 0, 0, 0, 0, 0,
        10, 15, 16, 16, 16, 16, 16, 16, 16, 16, 16, 0, 0, 0, 0, 0,
];

/// Number of luminance DC codes of each length 1..=16.
pub const Y_DC_BITS: [u8; 16] = [
        0x00, 0x01, 0x05, 0x01, 0x01, 0x01, 0x01, 0x01, 0x01, 0x00, 0x00, 0x00,
        0x00, 0x00, 0x00, 0x00,
];

/// Luminance DC symbols in code order.
pub const Y_DC_VALS: [u8; 12] = [
        0x00, 0x01, 0x02, 0x03, 0x04, 0x05, 0x06, 0x07, 0x08, 0x09, 0x0a, 0x0b,
];

/// Number of luminance AC codes of each length 1..=16.
pub const Y_AC_BITS: [u8; 16] = [
        0x00, 0x02, 0x01, 0x03, 0x03, 0x02, 0x04, 0x03, 0x05, 0x05, 0x04, 0x04,
        0x00, 0x00, 0x01, 0x7d,
];

/// Luminance AC symbols in code order.
pub const Y_AC_VALS: [u8; 162] = [
        0x01, 0x02, 0x03, 0x00, 0x04, 0x11, 0x05, 0x12, 0x21, 0x31, 0x41, 0x06,
        0x13, 0x51, 0x61, 0x07, 0x22, 0x71, 0x14, 0x32, 0x81, 0x91, 0xa1, 0x08,
        0x23, 0x42, 0xb1, 0xc1, 0x15, 0x52, 0xd1, 0xf0, 0x24, 0x33, 0x62, 0x72,
        0x82, 0x09, 0x0a, 0x16, 0x17, 0x18, 0x19, 0x1a, 0x25, 0x26, 0x27, 0x28,
        0x29, 0x2a, 0x34, 0x35, 0x36, 0x37, 0x38, 0x39, 0x3a, 0x43, 0x44, 0x45,
        0x46, 0x47, 0x48, 0x49, 0x4a, 0x53, 0x54, 0x55, 0x56, 0x57, 0x58, 0x59,
        0x5a, 0x63, 0x64, 0x65, 0x66, 0x67, 0x68, 0x69, 0x6a, 0x73, 0x74, 0x75,
        0x76, 0x77, 0x78, 0x79, 0x7a, 0x83, 0x84, 0x85, 0x86, 0x87, 0x88, 0x89,
        0x8a, 0x92, 0x93, 0x94, 0x95, 0x96, 0x97, 0x98, 0x99, 0x9a, 0xa2, 0xa3,
        0xa4, 0xa5, 0xa6, 0xa7, 0xa8, 0xa9, 0xaa, 0xb2, 0xb3, 0xb4, 0xb5, 0xb6,
        0xb7, 0xb8, 0xb9, 0xba, 0xc2, 0xc3, 0xc4, 0xc5, 0xc6, 0xc7, 0xc8, 0xc9,
        0xca, 0xd2, 0xd3, 0xd4, 0xd5, 0xd6, 0xd7, 0xd8, 0xd9, 0xda, 0xe1, 0xe2,
        0xe3, 0xe4, 0xe5, 0xe6, 0xe7, 0xe8, 0xe9, 0xea, 0xf1, 0xf2, 0xf3, 0xf4,
        0xf5, 0xf6, 0xf7, 0xf8, 0xf9, 0xfa,
];

/// Number of chrominance DC codes of each length 1..=16.
pub const C_DC_BITS: [u8; 16] = [
        0x00, 0x03, 0x01, 0x01, 0x01, 0x01, 0x01, 0x01, 0x01, 0x01, 0x01, 0x00,
        0x00, 0x00, 0x00, 0x00,
];

/// Chrominance DC symbols in code order.
pub const C_DC_VALS: [u8; 12] = [
        0x00, 0x01, 0x02, 0x03, 0x04, 0x05, 0x06, 0x07, 0x08, 0x09, 0x0a, 0x0b,
];

/// Number of chrominance AC codes of each length 1..=16.
pub const C_AC_BITS: [u8; 16] = [
        0x00, 0x02, 0x01, 0x02, 0x04, 0x04, 0x03, 0x04, 0x07, 0x05, 0x04, 0x04,
        0x00, 0x01, 0x02, 0x77,
];

/// Chrominance AC symbols in code order.
pub const C_AC_VALS: [u8; 162] = [
        0x00, 0x01, 0x02, 0x03, 0x11, 0x04, 0x05, 0x21, 0x31, 0x06, 0x12, 0x41,
        0x51, 0x07, 0x61, 0x71, 0x13, 0x22, 0x32, 0x81, 0x08, 0x14, 0x42, 0x91,
        0xa1, 0xb1, 0xc1, 0x09, 0x23, 0x33, 0x52, 0xf0, 0x15, 0x62, 0x72, 0xd1,
        0x0a, 0x16, 0x24, 0x34, 0xe1, 0x25, 0xf1, 0x17, 0x18, 0x19, 0x1a, 0x26,
        0x27, 0x28, 0x29, 0x2a, 0x35, 0x36, 0x37, 0x38, 0x39, 0x3a, 0x43, 0x44,
        0x45, 0x46, 0x47, 0x48, 0x49, 0x4a, 0x53, 0x54, 0x55, 0x56, 0x57, 0x58,
        0x59, 0x5a, 0x63, 0x64, 0x65, 0x66, 0x67, 0x68, 0x69, 0x6a, 0x73, 0x74,
        0x75, 0x76, 0x77, 0x78, 0x79, 0x7a, 0x82, 0x83, 0x84, 0x85, 0x86, 0x87,
        0x88, 0x89, 0x8a, 0x92, 0x93, 0x94, 0x95, 0x96, 0x97, 0x98, 0x99, 0x9a,
        0xa2, 0xa3, 0xa4, 0xa5, 0xa6, 0xa7, 0xa8, 0xa9, 0xaa, 0xb2, 0xb3, 0xb4,
        0xb5, 0xb6, 0xb7, 0xb8, 0xb9, 0xba, 0xc2, 0xc3, 0xc4, 0xc5, 0xc6, 0xc7,
        0xc8, 0xc9, 0xca, 0xd2, 0xd3, 0xd4, 0xd5, 0xd6, 0xd7, 0xd8, 0xd9, 0xda,
        0xe2, 0xe3, 0xe4, 0xe5, 0xe6, 0xe7, 0xe8, 0xe9, 0xea, 0xf2, 0xf3, 0xf4,
        0xf5, 0xf6, 0xf7, 0xf8, 0xf9, 0xfa,
];

/// Number of codes of length at most `l` in a DHT list of code counts
/// (`bits[i]` codes of length `i + 1`).
pub open spec fn codes_upto(bits: Seq<u8>, l: nat) -> nat
    decreases l,
{
    if l == 0 {
        0
    } else {
        codes_upto(bits, (l - 1) as nat) + bits[l - 1] as nat
    }
}

/// The first code of length `l` in canonical order: one
/// past the last code of length `l - 1`, shifted left.
pub open spec fn first_code(bits: Seq<u8>, l: nat) -> nat
    decreases l,
{
    if l <= 1 {
        0
    } else {
        (first_code(bits, (l - 1) as nat) + bits[l - 2] as nat) * 2
    }
}

/// The `k`-th listed symbol has the `k`-th code in canonical order: its
/// length is the one whose run of codes holds position `k`, and its code is
/// the first code of that length plus its place in the run.
pub open spec fn canonical_entry(
    codes: Seq<u16>,
    sizes: Seq<u8>,
    bits: Seq<u8>,
    vals: Seq<u8>,
    k: int,
) -> bool {
    let l = sizes[vals[k] as int] as nat;
    &&& 1 <= l <= 16
    &&& codes_upto(bits, (l - 1) as nat) <= k < codes_upto(bits, l)
    &&& codes[vals[k] as int] == first_code(bits, l) + k - codes_upto(bits, (l - 1) as nat)
}

/// A symbol with a code is the listed symbol at the position its code
/// stands for.
pub open spec fn listed_symbol(
    codes: Seq<u16>,
    sizes: Seq<u8>,
    bits: Seq<u8>,
    vals: Seq<u8>,
    sym: int,
) -> bool {
    let l = sizes[sym] as nat;
    let k = codes_upto(bits, (l - 1) as nat) + codes[sym] - first_code(bits, l);
    sizes[sym] != 0 ==> 0 <= k < vals.len() && vals[k] == sym
}

/// `codes` and `sizes` are the canonical Huffman code of
/// the table that a DHT segment describes by `bits` and `vals`: each listed
/// symbol has its canonical code, and every symbol with a code is listed.
pub open spec fn is_canonical(codes: Seq<u16>, sizes: Seq<u8>, bits: Seq<u8>, vals: Seq<u8>) -> bool {
    &&& codes_upto(bits, 16) == vals.len()
    &&& forall|k: int| 0 <= k < vals.len() ==> #[trigger] canonical_entry(codes, sizes, bits, vals, k)
    &&& forall|sym: int|
        0 <= sym < sizes.len() ==> #[trigger] listed_symbol(codes, sizes, bits, vals, sym)
}

/// The luminance DC code table is the canonical code of its DHT description,
/// and so satisfies the prefix condition.
pub proof fn lemma_luma_dc_canonical()
    ensures
        is_canonical(Y_DC_CODES@, Y_DC_SIZES@, Y_DC_BITS@, Y_DC_VALS@),
        prefix_free(Y_DC_CODES@, Y_DC_SIZES@),
{
    let bits = Y_DC_BITS@;
    assert(codes_upto(bits, 0) == 0);
    assert(first_code(bits, 1) == 0);
    assert(codes_upto(bits, 1) == 0);
    assert(codes_upto(bits, 2) == 1);
    assert(codes_upto(bits, 3) == 6);
    assert(codes_upto(bits, 4) == 7);
    assert(codes_upto(bits, 5) == 8);
    assert(codes_upto(bits, 6) == 9);
    assert(codes_upto(bits, 7) == 10);
    assert(codes_upto(bits, 8) == 11);
    assert(codes_upto(bits, 9) == 12);
    assert(codes_upto(bits, 10) == 12);
    assert(codes_upto(bits, 11) == 12);
    assert(codes_upto(bits, 12) == 12);
    assert(codes_upto(bits, 13) == 12);
    assert(codes_upto(bits, 14) == 12);
    assert(codes_upto(bits, 15) == 12);
    assert(codes_upto(bits, 16) == 12);
    assert(first_code(bits, 2) == 0);
    assert(first_code(bits, 3) == 2);
    assert(first_code(bits, 4) == 14);
    assert(first_code(bits, 5) == 30);
    assert(first_code(bits, 6) == 62);
    assert(first_code(bits, 7) == 126);
    assert(first_code(bits, 8) == 254);
    assert(first_code(bits, 9) == 510);
    assert(first_code(bits, 10) == 1022);
    assert(first_code(bits, 11) == 2044);
    assert(first_code(bits, 12) == 4088);
    assert(first_code(bits, 13) == 8176);
    assert(first_code(bits, 14) == 16352);
    assert(first_code(bits, 15) == 32704);
    assert(first_code(bits, 16) == 65408);
    assert(is_canonical(Y_DC_CODES@, Y_DC_SIZES@, Y_DC_BITS@, Y_DC_VALS@));
    lemma_canonical_prefix_free(Y_DC_CODES@, Y_DC_SIZES@, Y_DC_BITS@, Y_DC_VALS@);
}

/// The chrominance DC code table is the canonical code of its DHT description,
/// and so satisfies the prefix condition.
pub proof fn lemma_chroma_dc_canonical()
    ensures
        is_canonical(C_DC_CODES@, C_DC_SIZES@, C_DC_BITS@, C_DC_VALS@),
        prefix_free(C_DC_CODES@, C_DC_SIZES@),
{
    let bits = C_DC_BITS@;
    assert(codes_upto(bits, 0) == 0);
    assert(first_code(bits, 1) == 0);
    assert(codes_upto(bits, 1) == 0);
    assert(codes_upto(bits, 2) == 3);
    assert(codes_upto(bits, 3) == 4);
    assert(codes_upto(bits, 4) == 5);
    assert(codes_upto(bits, 5) == 6);
    assert(codes_upto(bits, 6) == 7);
    assert(codes_upto(bits, 7) == 8);
    assert(codes_upto(bits, 8) == 9);
    assert(codes_upto(bits, 9) == 10);
    assert(codes_upto(bits, 10) == 11);
    assert(codes_upto(bits, 11) == 12);
    assert(codes_upto(bits, 12) == 12);
    assert(codes_upto(bits, 13) == 12);
    assert(codes_upto(bits, 14) == 12);
    assert(codes_upto(bits, 15) == 12);
    assert(codes_upto(bits, 16) == 12);
    assert(first_code(bits, 2) == 0);
    assert(first_code(bits, 3) == 6);
    assert(first_code(bits, 4) == 14);
    assert(first_code(bits, 5) == 30);
    assert(first_code(bits, 6) == 62);
    assert(first_code(bits, 7) == 126);
    assert(first_code(bits, 8) == 254);
    assert(first_code(bits, 9) == 510);
    assert(first_code(bits, 10) == 1022);
    assert(first_code(bits, 11) == 2046);
    assert(first_code(bits, 12) == 4094);
    assert(first_code(bits, 13) == 8188);
    assert(first_code(bits, 14) == 16376);
    assert(first_code(bits, 15) == 32752);
    assert(first_code(bits, 16) == 65504);
    assert(is_canonical(C_DC_CODES@, C_DC_SIZES@, C_DC_BITS@, C_DC_VALS@));
    lemma_canonical_prefix_free(C_DC_CODES@, C_DC_SIZES@, C_DC_BITS@, C_DC_VALS@);
}

/// The luminance AC code table is the canonical code of its DHT description,
/// and so satisfies the prefix condition.
pub proof fn lemma_luma_ac_canonical()
    ensures
        is_canonical(Y_AC_CODES@, Y_AC_SIZES@, Y_AC_BITS@, Y_AC_VALS@),
        prefix_free(Y_AC_CODES@, Y_AC_SIZES@),
{
    let bits = Y_AC_BITS@;
    assert(codes_upto(bits, 0) == 0);
    assert(first_code(bits, 1) == 0);
    assert(codes_upto(bits, 1) == 0);
    assert(codes_upto(bits, 2) == 2);
    assert(codes_upto(bits, 3) == 3);
    assert(codes_upto(bits, 4) == 6);
    assert(codes_upto(bits, 5) == 9);
    assert(codes_upto(bits, 6) == 11);
    assert(codes_upto(bits, 7) == 15);
    assert(codes_upto(bits, 8) == 18);
    assert(codes_upto(bits, 9) == 23);
    assert(codes_upto(bits, 10) == 28);
    assert(codes_upto(bits, 11) == 32);
    assert(codes_upto(bits, 12) == 36);
    assert(codes_upto(bits, 13) == 36);
    assert(codes_upto(bits, 14) == 36);
    assert(codes_upto(bits, 15) == 37);
    assert(codes_upto(bits, 16) == 162);
    assert(first_code(bits, 2) == 0);
    assert(first_code(bits, 3) == 4);
    assert(first_code(bits, 4) == 10);
    assert(first_code(bits, 5) == 26);
    assert(first_code(bits, 6) == 58);
    assert(first_code(bits, 7) == 120);
    assert(first_code(bits, 8) == 248);
    assert(first_code(bits, 9) == 502);
    assert(first_code(bits, 10) == 1014);
    assert(first_code(bits, 11) == 2038);
    assert(first_code(bits, 12) == 4084);
    assert(first_code(bits, 13) == 8176);
    assert(first_code(bits, 14) == 16352);
    assert(first_code(bits, 15) == 32704);
    assert(first_code(bits, 16) == 65410);
    assert(is_canonical(Y_AC_CODES@, Y_AC_SIZES@, Y_AC_BITS@, Y_AC_VALS@));
    lemma_canonical_prefix_free(Y_AC_CODES@, Y_AC_SIZES@, Y_AC_BITS@, Y_AC_VALS@);
}

/// The chrominance AC code table is the canonical code of its DHT description,
/// and so satisfies the prefix condition.
pub proof fn lemma_chroma_ac_canonical()
    ensures
        is_canonical(C_AC_CODES@, C_AC_SIZES@, C_AC_BITS@, C_AC_VALS@),
        prefix_free(C_AC_CODES@, C_AC_SIZES@),
{
    let bits = C_AC_BITS@;
    assert(codes_upto(bits, 0) == 0);
    assert(first_code(bits, 1) == 0);
    assert(codes_upto(bits, 1) == 0);
    assert(codes_upto(bits, 2) == 2);
    assert(codes_upto(bits, 3) == 3);
    assert(codes_upto(bits, 4) == 5);
    assert(codes_upto(bits, 5) == 9);
    assert(codes_upto(bits, 6) == 13);
    assert(codes_upto(bits, 7) == 16);
    assert(codes_upto(bits, 8) == 20);
    assert(codes_upto(bits, 9) == 27);
    assert(codes_upto(bits, 10) == 32);
    assert(codes_upto(bits, 11) == 36);
    assert(codes_upto(bits, 12) == 40);
    assert(codes_upto(bits, 13) == 40);
    assert(codes_upto(bits, 14) == 41);
    assert(codes_upto(bits, 15) == 43);
    assert(codes_upto(bits, 16) == 162);
    assert(first_code(bits, 2) == 0);
    assert(first_code(bits, 3) == 4);
    assert(first_code(bits, 4) == 10);
    assert(first_code(bits, 5) == 24);
    assert(first_code(bits, 6) == 56);
    assert(first_code(bits, 7) == 120);
    assert(first_code(bits, 8) == 246);
    assert(first_code(bits, 9) == 500);
    assert(first_code(bits, 10) == 1014);
    assert(first_code(bits, 11) == 2038);
    assert(first_code(bits, 12) == 4084);
    assert(first_code(bits, 13) == 8176);
    assert(first_code(bits, 14) == 16352);
    assert(first_code(bits, 15) == 32706);
    assert(first_code(bits, 16) == 65416);
    assert(is_canonical(C_AC_CODES@, C_AC_SIZES@, C_AC_BITS@, C_AC_VALS@));
    lemma_canonical_prefix_free(C_AC_CODES@, C_AC_SIZES@, C_AC_BITS@, C_AC_VALS@);
}


/// Every code fits in its length, and no length exceeds 16 bits.
#[verifier::opaque]
pub open spec fn codes_fit(codes: Seq<u16>, sizes: Seq<u8>) -> bool {
    forall|sym: int| 0 <= sym < sizes.len() ==> #[trigger] sizes[sym] <= 16 && codes[sym] < pow2(sizes[sym] as nat)
}

/// The standard code tables keep every code within its length.
pub proof fn lemma_standard_codes_fit()
    ensures
        codes_fit(Y_DC_CODES@, Y_DC_SIZES@),
        codes_fit(C_DC_CODES@, C_DC_SIZES@),
        codes_fit(Y_AC_CODES@, Y_AC_SIZES@),
        codes_fit(C_AC_CODES@, C_AC_SIZES@),
{
    vstd::arithmetic::power2::lemma2_to64();
    reveal(codes_fit);
    assert(codes_fit(Y_DC_CODES@, Y_DC_SIZES@));
    assert(codes_fit(C_DC_CODES@, C_DC_SIZES@));
    assert(codes_fit(Y_AC_CODES@, Y_AC_SIZES@));
    assert(codes_fit(C_AC_CODES@, C_AC_SIZES@));
}

/// The prefix condition: no code is a prefix of the code of another symbol
/// that is at least as long.
#[verifier::opaque]
pub open spec fn prefix_free(codes: Seq<u16>, sizes: Seq<u8>) -> bool {
    forall|a: int, b: int|
        0 <= a < sizes.len() && 0 <= b < sizes.len() && a != b && sizes[a] != 0 && sizes[a]
            <= sizes[b] ==> (#[trigger] codes[b] as nat) / pow2((sizes[b] - sizes[a]) as nat)
            != #[trigger] codes[a] as nat
}

/// Codes of a longer length start past every shorter code, shifted.
proof fn lemma_first_code_grows(bits: Seq<u8>, la: nat, lb: nat)
    requires
        1 <= la < lb,
    ensures
        first_code(bits, lb) >= (first_code(bits, la) + bits[la - 1] as nat) * pow2((lb - la) as nat),
    decreases lb,
{
    lemma_pow2_unfold((lb - la) as nat);
    if lb == la + 1 {
        assert(pow2(0) == 1) by {
            lemma_pow2(0);
            reveal(pow);
        }
    } else {
        lemma_first_code_grows(bits, la, (lb - 1) as nat);
        let x = (first_code(bits, la) + bits[la - 1] as nat);
        let p = pow2((lb - 1 - la) as nat);
        assert(first_code(bits, lb) >= first_code(bits, (lb - 1) as nat) * 2);
        assert(x * (p * 2) == (x * p) * 2) by (nonlinear_arith);
    }
}

/// A listed symbol's code lies in the run of codes of its length.
proof fn lemma_code_in_run(codes: Seq<u16>, sizes: Seq<u8>, bits: Seq<u8>, vals: Seq<u8>, a: int)
    requires
        is_canonical(codes, sizes, bits, vals),
        0 <= a < sizes.len(),
        sizes[a] != 0,
    ensures
        1 <= sizes[a] <= 16,
        first_code(bits, sizes[a] as nat) <= codes[a] < first_code(bits, sizes[a] as nat) + bits[sizes[a]
            - 1],
        codes_upto(bits, (sizes[a] - 1) as nat) + codes[a] - first_code(bits, sizes[a] as nat)
            < vals.len(),
        vals[codes_upto(bits, (sizes[a] - 1) as nat) + codes[a] - first_code(bits, sizes[a] as nat)]
            == a,
{
    assert(listed_symbol(codes, sizes, bits, vals, a));
    let l = sizes[a] as nat;
    let k = codes_upto(bits, (l - 1) as nat) + codes[a] - first_code(bits, l);
    assert(canonical_entry(codes, sizes, bits, vals, k));
}

/// Canonical codes satisfy the prefix condition, so a decoder reading one
/// code at a time finds each symbol.
pub proof fn lemma_canonical_prefix_free(codes: Seq<u16>, sizes: Seq<u8>, bits: Seq<u8>, vals: Seq<u8>)
    requires
        is_canonical(codes, sizes, bits, vals),
    ensures
        prefix_free(codes, sizes),
{
    reveal(prefix_free);
    assert forall|a: int, b: int|
        0 <= a < sizes.len() && 0 <= b < sizes.len() && a != b && sizes[a] != 0 && sizes[a]
            <= sizes[b] implies (#[trigger] codes[b] as nat) / pow2((sizes[b] - sizes[a]) as nat)
        != #[trigger] codes[a] as nat by {
        lemma_code_in_run(codes, sizes, bits, vals, a);
        lemma_code_in_run(codes, sizes, bits, vals, b);
        let la = sizes[a] as nat;
        let lb = sizes[b] as nat;
        let d = (lb - la) as nat;
        if la == lb {
            assert(pow2(0) == 1) by {
                lemma_pow2(0);
                reveal(pow);
            }
            assert(d == 0);
            assert(codes[b] as nat / 1 == codes[b] as nat);
            if codes[b] == codes[a] {
                assert(false);
            }
        } else {
            lemma_first_code_grows(bits, la, lb);
            let x = first_code(bits, la) + bits[la - 1] as nat;
            lemma_pow2_pos(d);
            vstd::arithmetic::div_mod::lemma_div_by_multiple(x as int, pow2(d) as int);
            vstd::arithmetic::div_mod::lemma_div_is_ordered(
                (x * pow2(d)) as int,
                codes[b] as int,
                pow2(d) as int,
            );
            assert(codes[b] as nat / pow2(d) >= x);
        }
    }
}

impl DcHuffmanTable {
    /// The luminance DC table of baseline JPEG.
    pub fn luminance() -> (t: Self)
        ensures
            t.codes == Y_DC_CODES,
            t.sizes == Y_DC_SIZES,
    {
        DcHuffmanTable { codes: Y_DC_CODES, sizes: Y_DC_SIZES }
    }

    /// The chrominance DC table of baseline JPEG.
    pub fn chrominance() -> (t: Self)
        ensures
            t.codes == C_DC_CODES,
            t.sizes == C_DC_SIZES,
    {
        DcHuffmanTable { codes: C_DC_CODES, sizes: C_DC_SIZES }
    }
}

impl AcHuffmanTable {
    /// The luminance AC table of baseline JPEG.
    pub fn luminance() -> (t: Self)
        ensures
            t.codes == Y_AC_CODES,
            t.sizes == Y_AC_SIZES,
    {
        AcHuffmanTable { codes: Y_AC_CODES, sizes: Y_AC_SIZES }
    }

    /// The chrominance AC table of baseline JPEG.
    pub fn chrominance() -> (t: Self)
        ensures
            t.codes == C_AC_CODES,
            t.sizes == C_AC_SIZES,
    {
        AcHuffmanTable { codes: C_AC_CODES, sizes: C_AC_SIZES }
    }
}

} // verus!

//! Gamma encoding of colour components to bytes by a table of thresholds.
use crate::singles;
use vstd::arithmetic::div_mod;
use vstd::arithmetic::power2;
use vstd::arithmetic::power2::pow2;
use vstd::prelude::*;

verus! {

pub const GAMMA_ENCODE_INDEX_LEN: usize = 4096;

/// The tables for encoding. A component is given by the bits of a single-precision
/// number.
pub struct GammaTables {
    /// For each byte from 1 on, the least component that is encoded as that byte or
    /// a greater one. The first entry is not used.
    pub encode_threshold: Vec<u32>,
    /// The byte that is near the one for each part of the range from 0 to 1.
    pub encode_start: Vec<u8>,
    /// For each byte, the byte that its decoded component is encoded as.
    pub roundtrip: Vec<u8>,
}

/// The thresholds grow, and are positive and not over 1.
pub open spec fn are_thresholds(thresholds: Seq<u32>) -> bool {
    &&& thresholds.len() == 256
    &&& forall|v: int| 1 <= v < 256 ==> 0 < #[trigger] thresholds[v] <= singles::ONE
    &&& forall|v: int, w: int|
        1 <= v <= w < 256 ==> #[trigger] thresholds[v] <= #[trigger] thresholds[w]
}

impl GammaTables {
    pub open spec fn wf(&self) -> bool {
        &&& are_thresholds(self.encode_threshold@)
        &&& self.encode_start@.len() == GAMMA_ENCODE_INDEX_LEN
        &&& self.roundtrip@.len() == 256
    }
}

/// Whether a component is encoded as a byte or a greater one.
pub open spec fn reaches(thresholds: Seq<u32>, x: u32, v: int) -> bool {
    v == 0 || !singles::is_less(x, thresholds[v]) && !singles::is_nan(x)
}

/// The byte that a component is encoded as: the greatest one that it reaches. What
/// is negative or no number is encoded as 0, but the least of all numbers as 255.
pub open spec fn is_encoded(thresholds: Seq<u32>, x: u32, byte: int) -> bool {
    if x == singles::NEG_INFINITY {
        byte == 255
    } else {
        &&& 0 <= byte <= 255
        &&& reaches(thresholds, x, byte)
        &&& byte < 255 ==> !reaches(thresholds, x, byte + 1)
    }
}

/// How many whole parts of the range from 0 to 1 lie below a component: `pow2(137)`
/// of the units in which it is measured make one of the 4096 parts.
pub open spec fn parts_below(x: u32) -> int {
    singles::units(x) as int / pow2(137) as int
}

proof fn lemma_parts_below(x: u32)
    requires
        x < singles::ONE,
    ensures
        ({
            let exponent = x / 0x80_0000;
            let significand = 0x80_0000 + x % 0x80_0000;
            parts_below(x) == if exponent < 115 {
                0int
            } else {
                significand / pow2((138 - exponent) as nat) as int
            }
        }),
{
    let exponent = x / 0x80_0000;
    let significand = 0x80_0000 + x % 0x80_0000;
    power2::lemma2_to64();
    power2::lemma_pow2_strictly_increases(24, 137);
    if exponent == 0 {
        div_mod::lemma_basic_div(singles::units(x) as int, pow2(137) as int);
    } else {
        let scale = pow2((exponent - 1) as nat);
        power2::lemma_pow2_pos((exponent - 1) as nat);
        if exponent < 115 {
            power2::lemma_pow2_adds(24, (exponent - 1) as nat);
            if exponent < 114 {
                power2::lemma_pow2_strictly_increases((exponent + 23) as nat, 137);
            }
            assert(significand * scale < pow2(24) * scale) by (nonlinear_arith)
                requires
                    significand < pow2(24),
                    scale > 0,
            ;
            div_mod::lemma_basic_div(singles::units(x) as int, pow2(137) as int);
        } else {
            let rest = pow2((138 - exponent) as nat);
            power2::lemma_pow2_pos((138 - exponent) as nat);
            power2::lemma_pow2_adds((exponent - 1) as nat, (138 - exponent) as nat);
            assert(significand * scale == scale * significand) by (nonlinear_arith);
            div_mod::lemma_div_multiples_vanish(significand as int, scale as int);
            div_mod::lemma_div_denominator(scale * significand, scale as int, rest as int);
        }
    }
}

/// Where the search for the byte of a component begins.
fn coarse_index(x: u32) -> (index: usize)
    requires
        x < singles::ONE,
    ensures
        index == parts_below(x),
        index < GAMMA_ENCODE_INDEX_LEN,
{
    let exponent: u32 = x / 0x80_0000;
    let fraction: u32 = x % 0x80_0000;
    proof {
        lemma_parts_below(x);
        power2::lemma2_to64();
    }
    // Below this exponent the product is less than one.
    if exponent < 115 {
        return 0;
    }
    let significand: u32 = fraction + 0x80_0000;
    let mut index: u32 = significand;
    let mut shift: u32 = 138 - exponent;
    assert(significand as int / pow2(0) as int == significand) by {
        div_mod::lemma_div_basics_2(significand as int);
    }
    while shift > 12
        invariant
            12 <= shift <= 138 - exponent,
            significand < 0x100_0000,
            index <= significand,
            index == significand as int / pow2((138 - exponent - shift) as nat) as int,
        decreases shift,
    {
        proof {
            let done = (138 - exponent - shift) as nat;
            power2::lemma_pow2_pos(done);
            power2::lemma_pow2_unfold(done + 1);
            div_mod::lemma_div_denominator(significand as int, pow2(done) as int, 2);
        }
        index = index / 2;
        shift = shift - 1;
    }
    proof {
        let done = (138 - exponent - 12) as nat;
        power2::lemma_pow2_pos(done);
        power2::lemma_pow2_adds(done, 12);
        div_mod::lemma_div_denominator(significand as int, pow2(done) as int, 4096);
    }
    (index / 4096) as usize
}

/// Encodes a component to a byte.
pub fn gamma_encode_u8(t: &GammaTables, x: u32) -> (byte: u8)
    requires
        t.wf(),
    ensures
        is_encoded(t.encode_threshold@, x, byte as int),
{
    if singles::nan(x) || singles::less(x, t.encode_threshold[1]) {
        return if x == singles::NEG_INFINITY {
            255
        } else {
            0
        };
    }
    if !singles::less(x, t.encode_threshold[255]) {
        return 255;
    }
    let mut v: usize = t.encode_start[coarse_index(x)] as usize;
    if v == 0 {
        v = 1;
    }
    while v > 1 && singles::less(x, t.encode_threshold[v])
        invariant
            t.wf(),
            1 <= v <= 255,
        decreases v,
    {
        v = v - 1;
    }
    while v < 255 && !singles::less(x, t.encode_threshold[v + 1])
        invariant
            t.wf(),
            1 <= v <= 255,
            !singles::is_nan(x),
            !singles::is_less(x, t.encode_threshold@[v as int]),
            singles::is_less(x, t.encode_threshold@[255]),
        decreases 255 - v,
    {
        v = v + 1;
    }
    v as u8
}

/// One step of the search for the threshold of a byte, between a number below it
/// and one that is not: `reference` is the byte in the middle.
pub fn threshold_step(low: u32, high: u32, level: u8, reference: u8) -> (range: (u32, u32))
    requires
        low + 1 < high,
    ensures
        range == if reference >= level {
            (low, threshold_middle_of(low, high))
        } else {
            (threshold_middle_of(low, high), high)
        },
        range.1 - range.0 < high - low,
        range.0 < range.1,
{
    let middle: u32 = low + (high - low) / 2;
    if reference >= level {
        (low, middle)
    } else {
        (middle, high)
    }
}

pub open spec fn threshold_middle_of(low: u32, high: u32) -> u32 {
    (low + (high - low) / 2) as u32
}

/// Where the search for a threshold looks next; nothing if it is over, and the
/// upper number is the threshold.
pub fn threshold_middle(low: u32, high: u32) -> (middle: Option<u32>)
    requires
        low < high,
    ensures
        middle == if high - low > 1 {
            Some(threshold_middle_of(low, high))
        } else {
            None
        },
{
    if high - low > 1 {
        Some(low + (high - low) / 2)
    } else {
        None
    }
}

/// A number that is a threshold of a byte for an encoding: it is the first one that
/// is encoded as that byte or a greater one.
pub open spec fn is_threshold(encode: spec_fn(u32) -> u8, threshold: u32, v: int) -> bool {
    0 < threshold <= singles::ONE && encode(threshold) >= v && encode((threshold - 1) as u32) < v
}

/// A step of the search keeps a number below the threshold on the one side and one
/// that is not below it on the other.
pub proof fn law_threshold_step(encode: spec_fn(u32) -> u8, low: u32, high: u32, level: u8)
    requires
        low + 1 < high <= singles::ONE,
        encode(low) < level <= encode(high),
    ensures
        ({
            let middle = threshold_middle_of(low, high);
            let range = if encode(middle) >= level {
                (low, middle)
            } else {
                (middle, high)
            };
            &&& encode(range.0) < level <= encode(range.1)
            &&& range.1 - range.0 == 1 ==> is_threshold(encode, range.1, level as int)
        }),
{
}

/// The tables give for all components from 0 to 1 what the encoding gives that the
/// thresholds were made from, if it grows.
pub proof fn law_tables_encode(encode: spec_fn(u32) -> u8, thresholds: Seq<u32>, x: u32, byte: u8)
    requires
        thresholds.len() == 256,
        forall|a: u32, b: u32|
            a <= b <= singles::ONE ==> #[trigger] encode(a) <= #[trigger] encode(b),
        forall|v: int| 1 <= v < 256 ==> is_threshold(encode, #[trigger] thresholds[v], v),
        x <= singles::ONE,
        is_encoded(thresholds, x, byte as int),
    ensures
        are_thresholds(thresholds),
        byte == encode(x),
{
    assert forall|v: int, w: int| 1 <= v <= w < 256 implies #[trigger] thresholds[v]
        <= #[trigger] thresholds[w] by {
        assert(is_threshold(encode, thresholds[v], v));
        assert(is_threshold(encode, thresholds[w], w));
        if thresholds[w] < thresholds[v] {
            assert(encode(thresholds[w]) <= encode((thresholds[v] - 1) as u32));
        }
    }
    let e = encode(x);
    if byte > e {
        assert(is_threshold(encode, thresholds[byte as int], byte as int));
        assert(encode(thresholds[byte as int]) <= encode(x));
    } else if byte < e {
        let next = thresholds[byte + 1];
        assert(is_threshold(encode, next, byte + 1));
        assert(x < next);
        assert(encode(x) <= encode((next - 1) as u32));
    }
}

/// A component is encoded as one byte only: the last whose threshold it reaches.
pub proof fn law_one_byte(thresholds: Seq<u32>, x: u32, byte: int, other: int)
    requires
        are_thresholds(thresholds),
        is_encoded(thresholds, x, byte),
        is_encoded(thresholds, x, other),
    ensures
        byte == other,
        x <= 0x3f80_0000 && byte > 0 ==> thresholds[byte] <= x,
        x <= 0x3f80_0000 && byte < 255 ==> x < thresholds[byte + 1],
{
    if x != singles::NEG_INFINITY {
        if byte < other {
            assert(thresholds[byte + 1] <= thresholds[other]);
        } else if other < byte {
            assert(thresholds[other + 1] <= thresholds[byte]);
        }
        if byte > 0 {
            assert(thresholds[byte] <= singles::ONE);
        }
        if byte < 255 {
            assert(thresholds[byte + 1] <= singles::ONE);
        }
    }
}

/// The range up to one has 4096 parts of the same size, and a component lies in the part
/// that it is counted to.
pub proof fn law_parts(x: u32)
    ensures
        parts_below(x) * pow2(137) <= singles::units(x) < (parts_below(x) + 1) * pow2(137),
        singles::units(0x3f80_0000) == 4096 * pow2(137),
        parts_below(0x3f80_0000) == 4096,
{
    let unit = pow2(137) as int;
    vstd::arithmetic::power2::lemma_pow2_pos(137);
    vstd::arithmetic::div_mod::lemma_fundamental_div_mod(singles::units(x) as int, unit);
    let q = singles::units(x) as int / unit;
    assert((q + 1) * unit == q * unit + unit && unit * q == q * unit) by (nonlinear_arith);
    vstd::arithmetic::power2::lemma2_to64();
    vstd::arithmetic::power2::lemma_pow2_adds(11, 126);
    vstd::arithmetic::power2::lemma_pow2_unfold(127);
    assert(0x3f80_0000nat / 0x80_0000 == 127 && 0x3f80_0000nat % 0x80_0000 == 0);
    assert(singles::units(0x3f80_0000) == 0x80_0000 * pow2(126));
    assert(pow2(137) == 2048 * pow2(126));
    assert(0x80_0000 * pow2(126) == 4096 * (2048 * pow2(126))) by (nonlinear_arith);
    assert(parts_below(0x3f80_0000) == 4096) by {
        vstd::arithmetic::div_mod::lemma_div_multiples_vanish(4096, unit);
        assert(unit * 4096 == 4096 * unit);
    }
}

} // verus!

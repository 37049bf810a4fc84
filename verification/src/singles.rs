//! Order and equality of single-precision numbers, which are given by their bits.
use vstd::arithmetic::power2::pow2;
use vstd::prelude::*;

verus! {

pub const INFINITY: u32 = 0x7f80_0000;

pub const NEG_INFINITY: u32 = 0xff80_0000;

pub const ONE: u32 = 0x3f80_0000;

/// A number that grows with the value: both zeros have the same.
pub open spec fn rank(bits: u32) -> int {
    if bits >= 0x8000_0000 {
        0x8000_0000 - bits
    } else {
        bits as int
    }
}

pub open spec fn is_nan(bits: u32) -> bool {
    rank(bits) > INFINITY || rank(bits) < -INFINITY
}

pub open spec fn is_finite(bits: u32) -> bool {
    -INFINITY < rank(bits) < INFINITY
}

/// Whether the one value is less than the other; never so for what is no number.
pub open spec fn is_less(a: u32, b: u32) -> bool {
    !is_nan(a) && !is_nan(b) && rank(a) < rank(b)
}

/// Whether the values are equal; never so for what is no number.
pub open spec fn is_equal(a: u32, b: u32) -> bool {
    !is_nan(a) && !is_nan(b) && rank(a) == rank(b)
}

/// The value of a finite number that is not negative, in units of the least one above
/// zero, of which `pow2(149)` make one.
pub open spec fn units(bits: u32) -> nat {
    let exponent = bits as nat / 0x80_0000;
    let fraction = bits as nat % 0x80_0000;
    if exponent == 0 {
        fraction
    } else {
        (0x80_0000 + fraction) * pow2((exponent - 1) as nat)
    }
}

fn rank_of(bits: u32) -> (r: i64)
    ensures
        r == rank(bits),
{
    if bits >= 0x8000_0000 {
        0x8000_0000i64 - bits as i64
    } else {
        bits as i64
    }
}

pub fn nan(bits: u32) -> (yes: bool)
    ensures
        yes == is_nan(bits),
{
    let r: i64 = rank_of(bits);
    r > INFINITY as i64 || r < -(INFINITY as i64)
}

pub fn finite(bits: u32) -> (yes: bool)
    ensures
        yes == is_finite(bits),
{
    let r: i64 = rank_of(bits);
    -(INFINITY as i64) < r && r < INFINITY as i64
}

pub fn less(a: u32, b: u32) -> (yes: bool)
    ensures
        yes == is_less(a, b),
{
    !nan(a) && !nan(b) && rank_of(a) < rank_of(b)
}

pub fn equal(a: u32, b: u32) -> (yes: bool)
    ensures
        yes == is_equal(a, b),
{
    !nan(a) && !nan(b) && rank_of(a) == rank_of(b)
}

/// Of two numbers, the one is less, or the other is, or they are equal, and never
/// two of these; an order of three numbers carries over.
pub proof fn law_order(a: u32, b: u32, c: u32)
    requires
        !is_nan(a),
        !is_nan(b),
        !is_nan(c),
    ensures
        is_less(a, b) || is_less(b, a) || is_equal(a, b),
        !(is_less(a, b) && is_less(b, a)),
        is_equal(a, b) ==> !is_less(a, b) && !is_less(b, a),
        is_less(a, b) && is_less(b, c) ==> is_less(a, c),
{
}

/// Positive numbers are ordered as their bits are, negative ones the other way round, and
/// every negative number but zero is less than every positive one. A pattern above that of
/// infinity is no number.
pub proof fn law_order_of_bits(a: u32, b: u32)
    ensures
        is_nan(a) <==> a % 0x8000_0000 > 0x7f80_0000,
        is_finite(a) <==> a % 0x8000_0000 < 0x7f80_0000,
        a <= 0x7f80_0000 && b <= 0x7f80_0000 ==> (is_less(a, b) <==> a < b) && (is_equal(a, b)
            <==> a == b),
        0x8000_0000 <= a <= 0xff80_0000 && 0x8000_0000 <= b <= 0xff80_0000 ==> (is_less(a, b)
            <==> a > b),
        0x8000_0000 <= a <= 0xff80_0000 && b <= 0x7f80_0000 ==> (is_less(a, b) <==> a
            != 0x8000_0000 || b != 0) && !is_less(b, a),
        is_equal(0, 0x8000_0000),
        is_nan(a) ==> !is_less(a, b) && !is_less(b, a) && !is_equal(a, b) && !is_equal(b, a),
{
}

/// The next number up is further away by the unit of its exponent, and zero has the value
/// zero; so the value grows with the bits.
pub proof fn law_units_step(bits: u32)
    requires
        bits < 0x7f80_0000,
    ensures
        units(0) == 0,
        units((bits + 1) as u32) == units(bits) + if bits < 0x100_0000 {
            1
        } else {
            pow2((bits / 0x80_0000 - 1) as nat)
        },
{
    let exponent = bits as nat / 0x80_0000;
    let fraction = bits as nat % 0x80_0000;
    vstd::arithmetic::power2::lemma2_to64();
    if exponent > 0 {
        let unit = pow2((exponent - 1) as nat);
        vstd::arithmetic::power2::lemma_pow2_unfold(exponent);
        assert((0x80_0000 + fraction + 1) * unit == (0x80_0000 + fraction) * unit + unit)
            by (nonlinear_arith);
        if fraction == 0x7f_ffff {
            assert((bits + 1) as nat / 0x80_0000 == exponent + 1);
            assert((bits + 1) as nat % 0x80_0000 == 0);
            assert(0x80_0000 * (2 * unit) == 0x100_0000 * unit) by (nonlinear_arith);
        } else {
            assert((bits + 1) as nat / 0x80_0000 == exponent);
            assert((bits + 1) as nat % 0x80_0000 == fraction + 1);
        }
        if bits < 0x100_0000 {
            assert(exponent == 1);
            assert(unit == 1);
        }
    } else if fraction == 0x7f_ffff {
        assert((bits + 1) as nat / 0x80_0000 == 1);
        assert((bits + 1) as nat % 0x80_0000 == 0);
        assert(pow2(0) == 1);
        assert(0x80_0000 * pow2(0) == 0x80_0000);
    } else {
        assert((bits + 1) as nat / 0x80_0000 == 0);
        assert((bits + 1) as nat % 0x80_0000 == fraction + 1);
    }
}

} // verus!

//! Double-precision numbers as the bits that hold them: the sign, eleven bits of
//! exponent and fifty-two of fraction.
use vstd::arithmetic::power2;
use vstd::arithmetic::power2::pow2;
use vstd::prelude::*;

verus! {

/// The bit of the sign.
pub const SIGN: u64 = 0x8000_0000_0000_0000;

/// The magnitude of infinity; what is above it is not a number.
pub const INFINITE: u64 = 0x7ff0_0000_0000_0000;

/// One above the largest fraction.
pub const FRACTION: u64 = 0x10_0000_0000_0000;

pub open spec fn magnitude(bits: u64) -> int {
    bits as int % SIGN as int
}

pub open spec fn is_nan(bits: u64) -> bool {
    magnitude(bits) > INFINITE
}

pub open spec fn is_negative(bits: u64) -> bool {
    bits >= SIGN
}

/// Whether two numbers are equal: both zeros are, and what is not a number is
/// equal to nothing.
pub open spec fn equal(a: u64, b: u64) -> bool {
    &&& !is_nan(a)
    &&& !is_nan(b)
    &&& a == b || (magnitude(a) == 0 && magnitude(b) == 0)
}

pub fn reals_equal(a: u64, b: u64) -> (same: bool)
    ensures
        same == equal(a, b),
{
    let m: u64 = a % SIGN;
    let n: u64 = b % SIGN;
    m <= INFINITE && n <= INFINITE && (a == b || (m == 0 && n == 0))
}

/// Equality is symmetric, and every number but what is not a number is equal to
/// itself.
pub proof fn law_equal(a: u64, b: u64)
    ensures
        equal(a, b) == equal(b, a),
        equal(a, a) == !is_nan(a),
{
}

/// The whole part of a magnitude.
pub open spec fn whole_part(bits: u64) -> int {
    let exponent = magnitude(bits) / FRACTION as int;
    let size = FRACTION + magnitude(bits) % FRACTION as int;
    if exponent == 0 {
        0
    } else if exponent >= 1075 {
        size * pow2((exponent - 1075) as nat)
    } else {
        size / pow2((1075 - exponent) as nat) as int
    }
}

/// A number without its fraction, as far as 64 bits hold it; zero for what is
/// not a number.
pub open spec fn to_integer(bits: u64) -> int {
    if is_nan(bits) {
        0
    } else if is_negative(bits) {
        if whole_part(bits) > SIGN {
            i64::MIN as int
        } else {
            -whole_part(bits)
        }
    } else if whole_part(bits) >= SIGN {
        i64::MAX as int
    } else {
        whole_part(bits)
    }
}

fn power_of_two(n: u64) -> (p: u64)
    requires
        n <= 62,
    ensures
        p == pow2(n as nat),
{
    let mut p: u64 = 1;
    let mut i: u64 = 0;
    proof {
        power2::lemma2_to64();
    }
    while i < n
        invariant
            i <= n <= 62,
            p == pow2(i as nat),
            p <= 0x4000_0000_0000_0000,
        decreases n - i,
    {
        proof {
            power2::lemma_pow2_unfold((i + 1) as nat);
            power2::lemma2_to64();
            power2::lemma2_to64_rest();
            if i + 1 < 62 {
                power2::lemma_pow2_strictly_increases((i + 1) as nat, 62);
            }
        }
        p = p * 2;
        i = i + 1;
    }
    p
}

/// The number without its fraction, as far as 64 bits hold it.
pub fn real_to_integer(bits: u64) -> (v: i64)
    ensures
        v == to_integer(bits),
{
    let m: u64 = bits % SIGN;
    if m > INFINITE {
        return 0;
    }
    let negative: bool = bits >= SIGN;
    let exponent: u64 = m / FRACTION;
    let size: u64 = FRACTION + m % FRACTION;
    proof {
        power2::lemma2_to64();
        power2::lemma2_to64_rest();
    }
    if exponent == 0 {
        return 0;
    }
    if exponent >= 1086 {
        proof {
            let p = pow2((exponent - 1075) as nat);
            if exponent > 1086 {
                power2::lemma_pow2_strictly_increases(11, (exponent - 1075) as nat);
            }
            assert(p >= 2048);
            assert(size * p >= SIGN) by (nonlinear_arith)
                requires
                    size >= 0x10_0000_0000_0000,
                    p >= 2048,
                    SIGN == 0x8000_0000_0000_0000u64,
            ;
        }
        return if negative {
            i64::MIN
        } else {
            i64::MAX
        };
    }
    let whole: u64;
    if exponent >= 1075 {
        let p: u64 = power_of_two(exponent - 1075);
        proof {
            if exponent < 1085 {
                power2::lemma_pow2_strictly_increases((exponent - 1075) as nat, 10);
            }
            assert(p <= 1024);
            assert(size * p < SIGN) by (nonlinear_arith)
                requires
                    size < 0x20_0000_0000_0000,
                    0 <= p <= 1024,
                    SIGN == 0x8000_0000_0000_0000u64,
            ;
        }
        whole = size * p;
    } else if exponent >= 1023 {
        let p: u64 = power_of_two(1075 - exponent);
        proof {
            power2::lemma_pow2_pos((1075 - exponent) as nat);
            assert(size / p <= size) by (nonlinear_arith)
                requires
                    p > 0,
            ;
        }
        whole = size / p;
    } else {
        proof {
            let p = pow2((1075 - exponent) as nat);
            if 1075 - exponent > 53 {
                power2::lemma_pow2_strictly_increases(53, (1075 - exponent) as nat);
            }
            assert(p >= 0x20_0000_0000_0000);
            assert(size as int / p as int == 0) by (nonlinear_arith)
                requires
                    0 <= size < 0x20_0000_0000_0000,
                    p >= 0x20_0000_0000_0000,
            ;
        }
        whole = 0;
    }
    if negative {
        -(whole as i64)
    } else {
        whole as i64
    }
}

/// Whether a finite number has a fraction.
pub open spec fn has_fraction(bits: u64) -> bool {
    let exponent = magnitude(bits) / FRACTION as int;
    let size = FRACTION + magnitude(bits) % FRACTION as int;
    if exponent == 0 {
        magnitude(bits) != 0
    } else if exponent >= 1075 {
        false
    } else {
        size % pow2((1075 - exponent) as nat) as int != 0
    }
}

/// The greatest integer that is not above a finite number.
pub open spec fn floor_of(bits: u64) -> int {
    if is_negative(bits) {
        -whole_part(bits) - if has_fraction(bits) {
            1int
        } else {
            0
        }
    } else {
        whole_part(bits)
    }
}

fn fractional(bits: u64) -> (yes: bool)
    ensures
        yes == has_fraction(bits),
{
    let m: u64 = bits % SIGN;
    let exponent: u64 = m / FRACTION;
    let size: u64 = FRACTION + m % FRACTION;
    if exponent == 0 {
        return m != 0;
    }
    if exponent >= 1075 {
        return false;
    }
    if exponent >= 1023 {
        let p: u64 = power_of_two(1075 - exponent);
        proof {
            power2::lemma_pow2_pos((1075 - exponent) as nat);
        }
        return size % p != 0;
    }
    proof {
        power2::lemma2_to64();
        power2::lemma2_to64_rest();
        let p = pow2((1075 - exponent) as nat);
        if 1075 - exponent > 53 {
            power2::lemma_pow2_strictly_increases(53, (1075 - exponent) as nat);
        }
        assert(p >= 0x20_0000_0000_0000);
        vstd::arithmetic::div_mod::lemma_small_mod(size as nat, p);
    }
    true
}

/// The greatest integer that is not above a number, held to a limit on either side;
/// nothing for what is infinite or no number.
pub fn floor_within(bits: u64, limit: i64) -> (v: Option<i64>)
    requires
        0 <= limit < i64::MAX,
    ensures
        match v {
            Some(v) => magnitude(bits) < INFINITE && v == if floor_of(bits) < -limit {
                -limit
            } else if floor_of(bits) > limit {
                limit as int
            } else {
                floor_of(bits)
            },
            None => magnitude(bits) >= INFINITE,
        },
{
    if bits % SIGN >= INFINITE {
        return None;
    }
    let whole: i64 = real_to_integer(bits);
    if whole > limit {
        return Some(limit);
    }
    if whole <= -limit {
        return Some(-limit);
    }
    if bits >= SIGN && fractional(bits) {
        Some(whole - 1)
    } else {
        Some(whole)
    }
}

/// The position of the highest bit that is set.
pub open spec fn top_bit(a: int) -> nat
    decreases a,
{
    if a < 2 {
        0
    } else {
        1 + top_bit(a / 2)
    }
}

/// The quotient that is nearest, and even between two that are equally near.
pub open spec fn nearest(a: int, unit: int) -> int {
    let q = a / unit;
    let r = a % unit;
    if 2 * r > unit || (2 * r == unit && q % 2 == 1) {
        q + 1
    } else {
        q
    }
}

/// The bits of the number that is nearest to a magnitude.
pub open spec fn bits_of_size(a: int) -> int {
    if a == 0 {
        0
    } else {
        let e = top_bit(a);
        let size = if e <= 52 {
            a * pow2((52 - e) as nat)
        } else {
            nearest(a, pow2((e - 52) as nat) as int)
        };
        (e + 1022) * FRACTION + size
    }
}

/// The bits of the number that is nearest to an integer.
pub open spec fn of_integer(v: int) -> int {
    if v < 0 {
        SIGN + bits_of_size(-v)
    } else {
        bits_of_size(v)
    }
}

proof fn lemma_top_bit(a: int, e: nat)
    requires
        pow2(e) <= a < pow2(e + 1),
    ensures
        top_bit(a) == e,
    decreases a,
{
    power2::lemma2_to64();
    if a >= 2 {
        if e == 0 {
            assert(false);
        }
        power2::lemma_pow2_unfold(e);
        power2::lemma_pow2_unfold(e + 1);
        lemma_top_bit(a / 2, (e - 1) as nat);
    } else {
        power2::lemma_pow2_pos(e);
        if e > 0 {
            power2::lemma_pow2_unfold(e);
            power2::lemma_pow2_pos((e - 1) as nat);
        }
    }
}

/// The bits of the number that is nearest to an unsigned integer.
pub fn unsigned_to_real(a: u64) -> (bits: u64)
    ensures
        bits == bits_of_size(a as int),
        bits < SIGN,
{
    if a == 0 {
        return 0;
    }
    let mut e: u64 = 0;
    let mut p: u64 = 1;
    proof {
        power2::lemma2_to64();
    }
    while p <= a / 2
        invariant
            0 < a,
            p == pow2(e as nat),
            0 < p <= a,
            e <= 63,
        decreases a - p,
    {
        proof {
            power2::lemma_pow2_unfold((e + 1) as nat);
            power2::lemma2_to64_rest();
            assert(e < 63) by {
                if e >= 63 {
                    assert(p == SIGN);
                }
            }
        }
        p = p * 2;
        e = e + 1;
    }
    proof {
        power2::lemma_pow2_unfold((e + 1) as nat);
        lemma_top_bit(a as int, e as nat);
        power2::lemma2_to64();
        power2::lemma2_to64_rest();
    }
    let size: u64;
    if e <= 52 {
        let q: u64 = power_of_two(52 - e);
        proof {
            power2::lemma_pow2_adds(e as nat, (52 - e) as nat);
            power2::lemma_pow2_adds((e + 1) as nat, (52 - e) as nat);
            assert(a * q < 0x20_0000_0000_0000 && a * q >= 0x10_0000_0000_0000)
                by (nonlinear_arith)
                requires
                    p <= a < 2 * p,
                    p * q == 0x10_0000_0000_0000,
                    q > 0,
            ;
        }
        size = a * q;
    } else {
        let unit: u64 = power_of_two(e - 52);
        let q: u64 = a / unit;
        let r: u64 = a % unit;
        proof {
            power2::lemma_pow2_adds(52, (e - 52) as nat);
            power2::lemma_pow2_pos((e - 52) as nat);
            assert(0x10_0000_0000_0000 <= q < 0x20_0000_0000_0000) by (nonlinear_arith)
                requires
                    q == a / unit,
                    unit > 0,
                    p <= a < 2 * p,
                    p == 0x10_0000_0000_0000 * unit,
            ;
            if e < 63 {
                power2::lemma_pow2_strictly_increases((e - 52) as nat, 11);
            }
            assert(unit <= 2048);
            assert(r < unit) by (nonlinear_arith)
                requires
                    r == a % unit,
                    unit > 0,
            ;
        }
        size = if 2 * r > unit || (2 * r == unit && q % 2 == 1) {
            q + 1
        } else {
            q
        };
    }
    (e + 1022) * FRACTION + size
}

/// The bits of the number that is nearest to a signed integer.
pub fn signed_to_real(v: i64) -> (bits: u64)
    ensures
        bits == of_integer(v as int),
{
    if v < 0 {
        let a: u64 = if v == i64::MIN {
            SIGN
        } else {
            (-v) as u64
        };
        SIGN + unsigned_to_real(a)
    } else {
        unsigned_to_real(v as u64)
    }
}

/// The whole part of a finite number is the greatest integer that its size reaches. The
/// size of a number that is not tiny is its fraction with a leading one, shifted by its
/// exponent, and it has a fraction where it is above its whole part.
pub proof fn law_whole_part(bits: u64)
    ensures
        ({
            let exponent = (bits / 0x10_0000_0000_0000) % 2048;
            let size = 0x10_0000_0000_0000 + bits % 0x10_0000_0000_0000;
            let whole = whole_part(bits);
            let unit = pow2((1075 - exponent) as nat);
            &&& exponent == 0 ==> whole == 0 && has_fraction(bits) == (bits
                % 0x10_0000_0000_0000 != 0)
            &&& exponent > 1075 ==> whole == size * pow2((exponent - 1075) as nat)
                && !has_fraction(bits)
            &&& 0 < exponent <= 1075 ==> whole * unit <= size < (whole + 1) * unit && (
            has_fraction(bits) <==> whole * unit < size)
        }),
{
    let exponent = (bits / 0x10_0000_0000_0000) % 2048;
    let size = 0x10_0000_0000_0000 + bits % 0x10_0000_0000_0000;
    assert(magnitude(bits) / FRACTION as int == exponent);
    assert(magnitude(bits) % FRACTION as int == bits % 0x10_0000_0000_0000);
    power2::lemma2_to64();
    if 0 < exponent <= 1075 {
        let unit = pow2((1075 - exponent) as nat);
        power2::lemma_pow2_pos((1075 - exponent) as nat);
        vstd::arithmetic::div_mod::lemma_fundamental_div_mod(size, unit as int);
        let whole = size / unit as int;
        assert((whole + 1) * unit == whole * unit + unit) by (nonlinear_arith);
        assert(unit * whole == whole * unit) by (nonlinear_arith);
        if exponent == 1075 {
            assert(unit == 1);
            assert(size / 1 == size);
        }
    }
}

/// The floor of a number is not above it, and one more is: for a negative number with a
/// fraction it is one below the whole part. The integer of a number drops the fraction on
/// either side of zero, and is held to what 64 bits hold.
pub proof fn law_rounded_down(bits: u64)
    requires
        magnitude(bits) < 0x7ff0_0000_0000_0000,
    ensures
        bits < 0x8000_0000_0000_0000 ==> floor_of(bits) == whole_part(bits),
        bits >= 0x8000_0000_0000_0000 && has_fraction(bits) ==> floor_of(bits) == -(whole_part(bits)
            + 1),
        bits >= 0x8000_0000_0000_0000 && !has_fraction(bits) ==> floor_of(bits) == -whole_part(bits),
        bits < 0x8000_0000_0000_0000 && whole_part(bits) <= 0x7fff_ffff_ffff_ffff ==> to_integer(
            bits,
        ) == whole_part(bits),
        bits < 0x8000_0000_0000_0000 && whole_part(bits) > 0x7fff_ffff_ffff_ffff ==> to_integer(
            bits,
        ) == 0x7fff_ffff_ffff_ffff,
        bits >= 0x8000_0000_0000_0000 && whole_part(bits) <= 0x8000_0000_0000_0000 ==> to_integer(
            bits,
        ) == -whole_part(bits),
        bits >= 0x8000_0000_0000_0000 && whole_part(bits) > 0x8000_0000_0000_0000 ==> to_integer(
            bits,
        ) == -0x8000_0000_0000_0000,
{
}

/// What is not a number has the integer 0, and no other magnitude above that of infinity
/// is a number.
pub proof fn law_not_a_number(bits: u64)
    ensures
        is_nan(bits) <==> (0x7ff0_0000_0000_0000 < bits < 0x8000_0000_0000_0000
            || 0xfff0_0000_0000_0000 < bits),
        is_nan(bits) ==> to_integer(bits) == 0,
        equal(0, 0x8000_0000_0000_0000),
        bits != 0 && bits != 0x8000_0000_0000_0000 ==> !equal(bits, 0),
{
}

/// The nearest quotient is at most half a unit away, and even where two are as near.
pub proof fn law_nearest(a: int, unit: int)
    requires
        a >= 0,
        unit > 0,
    ensures
        -unit <= 2 * (nearest(a, unit) * unit - a) <= unit,
        (2 * (nearest(a, unit) * unit - a) == unit || 2 * (nearest(a, unit) * unit - a) == -unit)
            ==> nearest(a, unit) % 2 == 0,
{
    let (q, r) = (a / unit, a % unit);
    vstd::arithmetic::div_mod::lemma_fundamental_div_mod(a, unit);
    assert(unit * q == q * unit && (q + 1) * unit == q * unit + unit) by (nonlinear_arith);
}

proof fn lemma_top_bit_bounds(a: int)
    requires
        a > 0,
    ensures
        pow2(top_bit(a)) <= a < pow2(top_bit(a) + 1),
    decreases a,
{
    power2::lemma2_to64();
    if a >= 2 {
        lemma_top_bit_bounds(a / 2);
        power2::lemma_pow2_unfold(top_bit(a));
        power2::lemma_pow2_unfold(top_bit(a) + 1);
    }
}

/// An integer of up to 53 bits is held exactly: the number that it becomes has it for its
/// whole part and no fraction. One with more bits has the size of the nearest multiple of
/// the unit that leaves 53.
pub proof fn law_integer_is_held(a: int)
    requires
        0 < a,
    ensures
        a < 0x20_0000_0000_0000 ==> {
            let bits = bits_of_size(a);
            &&& 0 < bits < 0x8000_0000_0000_0000
            &&& whole_part(bits as u64) == a
            &&& !has_fraction(bits as u64)
            &&& of_integer(-a) == bits + 0x8000_0000_0000_0000
            &&& to_integer(bits as u64) == a
            &&& to_integer((bits + 0x8000_0000_0000_0000) as u64) == -a
        },
        a >= 0x20_0000_0000_0000 ==> exists|e: nat|
            {
                &&& pow2(e) * 0x10_0000_0000_0000 <= a < pow2(e) * 0x20_0000_0000_0000
                &&& bits_of_size(a) == 0x10_0000_0000_0000 * (e + 1074) + #[trigger] nearest(
                    a,
                    pow2(e) as int,
                )
            },
{
    let e = top_bit(a);
    lemma_top_bit_bounds(a);
    power2::lemma2_to64();
    power2::lemma2_to64_rest();
    if a < 0x20_0000_0000_0000 {
        if e > 52 {
            if e > 53 {
                power2::lemma_pow2_strictly_increases(53, e);
            }
            assert(false);
        }
        let rest = (52 - e) as nat;
        let (low, unit) = (pow2(e), pow2(rest));
        power2::lemma_pow2_adds(e, rest);
        power2::lemma_pow2_pos(rest);
        power2::lemma_pow2_unfold(e + 1);
        let size = a * unit;
        assert(0x10_0000_0000_0000 <= size < 0x20_0000_0000_0000) by (nonlinear_arith)
            requires
                size == a * unit,
                low * unit == 0x10_0000_0000_0000,
                low <= a < 2 * low,
                unit > 0,
        ;
        let bits = bits_of_size(a) as u64;
        assert(bits == (e + 1022) * FRACTION + size);
        assert(bits / 0x10_0000_0000_0000 == e + 1023);
        assert(bits % 0x10_0000_0000_0000 == size - 0x10_0000_0000_0000);
        vstd::arithmetic::div_mod::lemma_div_multiples_vanish(a, unit as int);
        assert(size / unit as int == a && size % unit as int == 0) by (nonlinear_arith)
            requires
                size == a * unit,
                unit > 0,
        ;
        assert(pow2(0) == 1);
        if e == 52 {
            assert(unit == 1);
            assert(a * 1 == a);
        }
        let other = (bits + 0x8000_0000_0000_0000) as u64;
        assert(magnitude(other) == magnitude(bits));
    } else {
        if e < 53 {
            if e + 1 < 53 {
                power2::lemma_pow2_strictly_increases((e + 1) as nat, 53);
            }
            assert(false);
        }
        let k = (e - 52) as nat;
        power2::lemma_pow2_adds(52, k);
        power2::lemma_pow2_unfold(e + 1);
        assert(bits_of_size(a) == 0x10_0000_0000_0000 * (k + 1074) + nearest(a, pow2(k) as int));
        assert(pow2(k) * 0x10_0000_0000_0000 <= a < pow2(k) * 0x20_0000_0000_0000)
            by (nonlinear_arith)
            requires
                pow2(e) == 0x10_0000_0000_0000 * pow2(k),
                pow2(e) <= a < 2 * pow2(e),
        ;
    }
}

} // verus!

use touchhle::doubles::{
    floor_within, real_to_integer, reals_equal, signed_to_real, unsigned_to_real,
};
use touchhle::gamma::{gamma_encode_u8, threshold_middle, threshold_step, GammaTables};
use touchhle::singles;

fn doubles() -> Vec<f64> {
    let mut out = vec![
        0.0,
        -0.0,
        0.5,
        -0.5,
        1.0,
        -1.0,
        1.5,
        -1.5,
        2.999999,
        -3.000001,
        1e-310,
        -1e-310,
        1e15,
        -1e15 - 0.5,
        4503599627370497.5,
        9007199254740993.0,
        9.2e18,
        -9.3e18,
        1e300,
        f64::MAX,
        f64::INFINITY,
        f64::NEG_INFINITY,
        f64::NAN,
    ];
    let mut seed: u64 = 12345;
    for _ in 0..2000 {
        seed = seed.wrapping_mul(6364136223846793005).wrapping_add(1442695040888963407);
        out.push(f64::from_bits(seed));
    }
    out
}

#[test]
fn doubles_are_truncated_as_by_a_cast() {
    for d in doubles() {
        assert_eq!(real_to_integer(d.to_bits()), d as i64, "{}", d);
    }
}

#[test]
fn doubles_are_rounded_down_within_a_limit() {
    let limit: i64 = 1_000_000_000_000_000;
    for d in doubles() {
        let expected = if d.is_finite() {
            Some(d.floor().clamp(-(limit as f64), limit as f64) as i64)
        } else {
            None
        };
        assert_eq!(floor_within(d.to_bits(), limit), expected, "{}", d);
    }
}

#[test]
fn integers_become_the_nearest_double() {
    let mut seed: u64 = 99;
    for shift in 0..64 {
        for _ in 0..50 {
            seed = seed.wrapping_mul(6364136223846793005).wrapping_add(1442695040888963407);
            let u = seed >> shift;
            assert_eq!(unsigned_to_real(u), (u as f64).to_bits());
            let i = (seed as i64) >> shift;
            assert_eq!(signed_to_real(i), (i as f64).to_bits());
        }
    }
    for u in [0, 1, u64::MAX, 1 << 53, (1 << 53) + 1, (1 << 53) + 3] {
        assert_eq!(unsigned_to_real(u), (u as f64).to_bits());
    }
    for i in [0, -1, i64::MIN, i64::MAX] {
        assert_eq!(signed_to_real(i), (i as f64).to_bits());
    }
}

#[test]
fn doubles_are_equal_as_numbers() {
    for a in doubles() {
        for b in [a, -a, 0.0, -0.0, f64::NAN] {
            assert_eq!(reals_equal(a.to_bits(), b.to_bits()), a == b);
        }
    }
}

#[test]
fn singles_are_ordered_as_numbers() {
    let values = [
        0.0f32,
        -0.0,
        1.0,
        -1.0,
        1e-40,
        -1e-40,
        3.3e38,
        f32::MAX,
        f32::INFINITY,
        f32::NEG_INFINITY,
        f32::NAN,
        -f32::NAN,
    ];
    for a in values {
        assert_eq!(singles::nan(a.to_bits()), a.is_nan());
        assert_eq!(singles::finite(a.to_bits()), a.is_finite());
        for b in values {
            assert_eq!(singles::less(a.to_bits(), b.to_bits()), a < b);
            assert_eq!(singles::equal(a.to_bits(), b.to_bits()), a == b);
        }
    }
}

fn reference(x: f32) -> u8 {
    (x.powf(1.0 / 2.2) * 255.0) as u8
}

fn tables() -> GammaTables {
    let mut encode_threshold = vec![0u32];
    for level in 1..=255u8 {
        let (mut low, mut high) = (0u32, 1.0f32.to_bits());
        while let Some(middle) = threshold_middle(low, high) {
            let range = threshold_step(low, high, level, reference(f32::from_bits(middle)));
            low = range.0;
            high = range.1;
        }
        encode_threshold.push(high);
    }
    GammaTables {
        encode_threshold,
        encode_start: (0..4096).map(|i| reference(i as f32 / 4096.0)).collect(),
        roundtrip: (0..=255u8).map(|b| reference((b as f32 / 255.0).powf(2.2))).collect(),
    }
}

#[test]
fn gamma_tables_encode_as_the_formula() {
    let t = tables();
    let mut bits: u32 = 0;
    while bits <= 1.0f32.to_bits() {
        let x = f32::from_bits(bits);
        assert_eq!(gamma_encode_u8(&t, bits), reference(x), "{}", x);
        bits += 10007;
    }
    for x in [0.0f32, -0.0, -1.0, 1.0, 1.5, f32::INFINITY, f32::NAN] {
        assert_eq!(gamma_encode_u8(&t, x.to_bits()), reference(x), "{}", x);
    }
    assert_eq!(gamma_encode_u8(&t, f32::NEG_INFINITY.to_bits()), 255);
}

#[test]
fn thresholds_are_found_by_halves() {
    assert_eq!(threshold_middle(0, 1), None);
    assert_eq!(threshold_middle(0, 10), Some(5));
    assert_eq!(threshold_step(0, 10, 7, 7), (0, 5));
    assert_eq!(threshold_step(0, 10, 7, 6), (5, 10));
}

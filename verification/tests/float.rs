//! Doubles by their bits, held against the machine's own.

use prometheus_scrape_rs::float::{count_bits, seconds_to_millis};

/// The conversion in floating point.
fn expected_millis(secs: f64) -> Option<i64> {
    if !secs.is_finite() {
        return None;
    }
    let ms = (secs * 1000.0).round();
    if ms >= i64::MIN as f64 && ms <= i64::MAX as f64 {
        Some(ms as i64)
    } else {
        None
    }
}

fn next(state: &mut u64) -> u64 {
    *state = state
        .wrapping_mul(6_364_136_223_846_793_005)
        .wrapping_add(1_442_695_040_888_963_407);
    *state ^ (*state >> 29)
}

#[test]
fn seconds_convert_as_the_machine_does() {
    let mut state = 42u64;
    for _ in 0..200_000 {
        let bits = next(&mut state);
        let secs = f64::from_bits(bits);
        assert_eq!(seconds_to_millis(bits), expected_millis(secs), "{secs:e}");
        // Exponents around those of timestamps.
        let near = (bits & 0x800f_ffff_ffff_ffff) | ((1010 + bits % 70) << 52);
        let secs = f64::from_bits(near);
        assert_eq!(seconds_to_millis(near), expected_millis(secs), "{secs:e}");
    }
}

#[test]
fn seconds_convert_at_the_edges() {
    for secs in [
        0.0,
        -0.0,
        0.0005,
        -0.0005,
        0.0004999,
        1.0005,
        2.0005,
        1_395_066_363.123,
        9_223_372_036_854_775.0,
        9_223_372_036_854_776.0,
        9_223_372_036_854_777.9,
        -9_223_372_036_854_775.8,
        -9_223_372_036_854_777.9,
        f64::MAX,
        f64::MIN_POSITIVE,
        5e-324,
        f64::INFINITY,
        f64::NEG_INFINITY,
        f64::NAN,
    ] {
        assert_eq!(
            seconds_to_millis(secs.to_bits()),
            expected_millis(secs),
            "{secs:e}"
        );
    }
    assert_eq!(seconds_to_millis(1.5f64.to_bits()), Some(1_500));
}

#[test]
fn counts_convert_as_the_machine_does() {
    let mut state = 7u64;
    for _ in 0..200_000 {
        let n = next(&mut state) >> (state % 64);
        assert_eq!(count_bits(n), (n as f64).to_bits(), "{n}");
    }
    for n in [0, 1, (1 << 53) - 1, 1 << 53, (1 << 53) + 1, (1 << 53) + 3, u64::MAX] {
        assert_eq!(count_bits(n), (n as f64).to_bits(), "{n}");
    }
}

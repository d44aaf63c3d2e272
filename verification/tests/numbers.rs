//! Double-precision arithmetic against the machine's own.

use tailbench::binary64::Binary64;
use tailbench::conversion::{duration_from_secs, from_u64};

fn b(x: f64) -> Binary64 {
    Binary64::from_bits(x.to_bits())
}

fn f(x: Binary64) -> f64 {
    f64::from_bits(x.to_bits())
}

fn same(x: Binary64, y: f64) -> bool {
    if y.is_nan() {
        x.is_nan()
    } else {
        x.to_bits() == y.to_bits()
    }
}

/// Numbers of every size, and the edges of the format.
fn samples() -> Vec<f64> {
    let mut out = vec![
        0.0,
        -0.0,
        1.0,
        -1.0,
        0.5,
        1.5,
        2.5,
        -2.5,
        0.1,
        0.2,
        0.3,
        1e-9,
        1e9,
        1e6,
        1e300,
        -1e300,
        1e-300,
        f64::MAX,
        f64::MIN,
        f64::MIN_POSITIVE,
        f64::MIN_POSITIVE / 2.0,
        f64::from_bits(1),
        f64::from_bits(2),
        f64::from_bits(0x000F_FFFF_FFFF_FFFF),
        f64::INFINITY,
        f64::NEG_INFINITY,
        f64::NAN,
        f64::EPSILON,
        1.0 + f64::EPSILON,
        1.0 - f64::EPSILON / 2.0,
        9007199254740991.0,
        9007199254740992.0,
        9007199254740993.0,
        18446744073709551615.0,
        4503599627370495.5,
        4503599627370496.0,
    ];
    let mut state: u64 = 88172645463325252;
    for _ in 0..120 {
        state ^= state << 13;
        state ^= state >> 7;
        state ^= state << 17;
        out.push(f64::from_bits(state));
        out.push((state >> 20) as f64 / 1e6);
        out.push(f64::from_bits((state & 0x800F_FFFF_FFFF_FFFF) | (((state >> 52) % 40 + 1003) << 52)));
    }
    out
}

#[test]
fn addition_matches_the_machine() {
    for &x in &samples() {
        for &y in &samples() {
            assert!(same(b(x).add(b(y)), x + y), "{x:e} + {y:e}");
            assert!(same(b(x).sub(b(y)), x - y), "{x:e} - {y:e}");
        }
    }
}

#[test]
fn multiplication_matches_the_machine() {
    for &x in &samples() {
        for &y in &samples() {
            assert!(same(b(x).mul(b(y)), x * y), "{x:e} * {y:e}");
        }
    }
}

#[test]
fn division_matches_the_machine() {
    for &x in &samples() {
        for &y in &samples() {
            assert!(same(b(x).div(b(y)), x / y), "{x:e} / {y:e}");
        }
    }
}

#[test]
fn comparison_matches_the_machine() {
    for &x in &samples() {
        assert_eq!(b(x).is_nan(), x.is_nan());
        assert_eq!(b(x).is_finite(), x.is_finite());
        assert_eq!(b(x).is_infinite(), x.is_infinite());
        assert_eq!(b(x).is_positive(), x.is_finite() && x > 0.0);
        assert_eq!(b(x).is_not_negative(), x.is_finite() && x >= 0.0);
        assert!(same(b(x).abs(), x.abs()));
        assert!(same(b(x).neg(), -x));
        for &y in &samples() {
            assert_eq!(b(x).lt(b(y)), x < y, "{x:e} < {y:e}");
            assert_eq!(b(x).le(b(y)), x <= y, "{x:e} <= {y:e}");
            let greater = f(b(x).max(b(y)));
            if x.is_nan() && y.is_nan() {
                assert!(greater.is_nan());
            } else {
                assert_eq!(greater, x.max(y));
            }
        }
    }
}

#[test]
fn rounding_matches_the_machine() {
    for &x in &samples() {
        assert!(same(b(x).round(), x.round()), "round {x:e}");
        assert!(same(b(x).ceil(), x.ceil()), "ceil {x:e}");
        assert_eq!(b(x).to_u64(), x as u64, "{x:e} as u64");
    }
}

#[test]
fn integers_convert_as_on_the_machine() {
    let cases = [
        0,
        1,
        2,
        3,
        1_000_000_000,
        (1 << 53) - 1,
        1 << 53,
        (1 << 53) + 1,
        (1 << 53) + 2,
        (1 << 53) + 3,
        u64::MAX,
        u64::MAX - 1,
        0x8000_0000_0000_0400,
        0x8000_0000_0000_0401,
    ];
    for n in cases {
        assert!(same(from_u64(n), n as f64), "{n}");
    }
}

#[test]
fn seconds_become_nanoseconds_as_in_std() {
    for &x in &samples() {
        if x.is_finite() && x >= 0.0 && x < 18446744073709551616.0 {
            let ns = std::time::Duration::from_secs_f64(x).as_nanos();
            assert_eq!(duration_from_secs(b(x)), ns, "{x:e}");
        }
    }
    // Half a nanosecond goes to the even one.
    assert_eq!(duration_from_secs(b(0.000000000488281250)), 0);
    assert_eq!(duration_from_secs(b(0.05)), 50_000_000);
}

#[test]
fn adding_keeps_the_order() {
    let (a, c) = (b(0.1), b(1e16));
    let d = b(0.2);
    assert!(a.lt(d));
    assert!(a.add(c).le(d.add(c)));
}

#[test]
fn empty_sum_is_negative_zero() {
    let none: Vec<Binary64> = Vec::new();
    assert_eq!(tailbench::arithmetic::sum(&none).to_bits(), (-0.0f64).to_bits());
    let some = vec![b(0.1), b(0.2), b(0.3)];
    assert_eq!(f(tailbench::arithmetic::sum(&some)), 0.1 + 0.2 + 0.3);
}

use pathtracer::integrator::NEAR_BITS;
use pathtracer::scalar::{fmax, fmin, Scalar, MAX_BITS, MIN_BITS, ONE_BITS, ZERO_BITS};

fn scalar_samples() -> Vec<f32> {
    vec![
        0.0,
        -0.0,
        1.0,
        -1.0,
        0.5,
        -0.5,
        0.001,
        1.0e-40,
        -1.0e-40,
        f32::MIN_POSITIVE,
        f32::MAX,
        f32::MIN,
        f32::INFINITY,
        f32::NEG_INFINITY,
        f32::NAN,
        -f32::NAN,
        3.25,
        -7.75,
        1.0e30,
        -1.0e30,
    ]
}

fn scalar_from(x: f32) -> Scalar {
    Scalar::from_bits(x.to_bits())
}

#[test]
fn constants_are_the_bits_of_their_values() {
    assert_eq!(ZERO_BITS, 0.0f32.to_bits());
    assert_eq!(ONE_BITS, 1.0f32.to_bits());
    assert_eq!(MAX_BITS, f32::MAX.to_bits());
    assert_eq!(MIN_BITS, f32::MIN.to_bits());
    assert_eq!(NEAR_BITS, 0.001f32.to_bits());
    assert_eq!(Scalar::zero().to_bits(), 0.0f32.to_bits());
    assert_eq!(Scalar::one().to_bits(), 1.0f32.to_bits());
    assert_eq!(Scalar::largest().to_bits(), f32::MAX.to_bits());
    assert_eq!(Scalar::smallest().to_bits(), f32::MIN.to_bits());
}

#[test]
fn order_agrees_with_the_machine() {
    for &a in scalar_samples().iter() {
        for &b in scalar_samples().iter() {
            let (x, y) = (scalar_from(a), scalar_from(b));
            assert_eq!(x.lt(y), a < b, "{} < {}", a, b);
            assert_eq!(x.le(y), a <= b, "{} <= {}", a, b);
            assert_eq!(x.gt(y), a > b, "{} > {}", a, b);
            assert_eq!(x.ge(y), a >= b, "{} >= {}", a, b);
        }
    }
}

#[test]
fn not_a_number_is_recognised() {
    for &a in scalar_samples().iter() {
        assert_eq!(scalar_from(a).is_not_a_number(), a.is_nan());
    }
}

#[test]
fn fmin_and_fmax_pick_as_the_comparison_says() {
    for &a in scalar_samples().iter() {
        for &b in scalar_samples().iter() {
            let lo = if a < b { a } else { b };
            let hi = if a > b { a } else { b };
            assert_eq!(fmin(scalar_from(a), scalar_from(b)).to_bits(), lo.to_bits());
            assert_eq!(fmax(scalar_from(a), scalar_from(b)).to_bits(), hi.to_bits());
        }
    }
}

#[test]
fn fmin_with_not_a_number_gives_the_second() {
    let nan = scalar_from(f32::NAN);
    let one = scalar_from(1.0);
    assert_eq!(fmin(nan, one), one);
    assert_eq!(fmin(one, nan), nan);
    assert_eq!(fmax(nan, one), one);
    assert_eq!(fmax(one, nan), nan);
}

#[test]
fn order_key_is_monotone_and_joins_the_zeros() {
    assert_eq!(scalar_from(0.0).order_key(), 0);
    assert_eq!(scalar_from(-0.0).order_key(), 0);
    assert_eq!(scalar_from(1.0).order_key(), 0x3f80_0000);
    assert_eq!(scalar_from(-1.0).order_key(), -0x3f80_0000);
    for &a in scalar_samples().iter() {
        for &b in scalar_samples().iter() {
            if a < b {
                assert!(scalar_from(a).order_key() < scalar_from(b).order_key());
            }
        }
    }
}

#[test]
fn ranges_treat_their_ends_as_the_renderer_does() {
    let (lo, hi) = (scalar_from(1.0), scalar_from(2.0));
    assert!(!scalar_from(1.0).is_outside(lo, hi));
    assert!(!scalar_from(2.0).is_outside(lo, hi));
    assert!(scalar_from(0.5).is_outside(lo, hi));
    assert!(scalar_from(2.5).is_outside(lo, hi));
    assert!(!scalar_from(f32::NAN).is_outside(lo, hi));
    assert!(!scalar_from(1.0).is_strictly_between(lo, hi));
    assert!(scalar_from(1.5).is_strictly_between(lo, hi));
    assert!(!scalar_from(2.0).is_strictly_between(lo, hi));
    assert!(!scalar_from(f32::NAN).is_strictly_between(lo, hi));
}

#[test]
fn order_agrees_with_the_machine_on_random_patterns() {
    for _ in 0..200_000 {
        let (p, q): (u32, u32) = (rand::random(), rand::random());
        let (a, b) = (f32::from_bits(p), f32::from_bits(q));
        let (x, y) = (Scalar::from_bits(p), Scalar::from_bits(q));
        assert_eq!(x.lt(y), a < b);
        assert_eq!(x.le(y), a <= b);
        assert_eq!(x.is_not_a_number(), a.is_nan());
        // nearby patterns, where the order is decided by the last bits
        let r = p.wrapping_add(q % 5).wrapping_sub(2);
        let (c, z) = (f32::from_bits(r), Scalar::from_bits(r));
        assert_eq!(x.lt(z), a < c);
        assert_eq!(x.ge(z), a >= c);
    }
}

use voxelization::scalar::Scalar;

fn s(v: f64) -> Scalar {
    Scalar::from_bits(v.to_bits())
}

const SAMPLES: [f64; 22] = [
    0.0, -0.0, 0.1, -0.1, 0.3, 0.4999999999999999, 0.5, -0.5, 1.0, 1.5, -1.5, 2.5, 83.99, 84.0,
    125.5, -125.5, 126.5, 251.999, 252.0, 252.5, 1e-6, 1e300,
];

#[test]
fn comparisons_agree_with_doubles() {
    let mut all: Vec<f64> = SAMPLES.to_vec();
    all.extend([f64::NAN, f64::INFINITY, f64::NEG_INFINITY, f64::MAX, f64::MIN_POSITIVE, 5e-324]);
    for a in all.iter() {
        for b in all.iter() {
            assert_eq!(s(*a).lt(s(*b)), a < b);
            assert_eq!(s(*a).le(s(*b)), a <= b);
        }
        assert_eq!(s(*a).is_nan(), a.is_nan());
    }
}

#[test]
fn offsets_agree_with_doubles() {
    let mut all: Vec<f64> = SAMPLES.to_vec();
    all.extend([f64::NAN, f64::INFINITY, f64::NEG_INFINITY, f64::MAX, f64::MIN_POSITIVE, 5e-324]);
    for k in -3000..3000 {
        all.push(k as f64 / 16.0);
        all.push(k as f64 / 7.0);
    }
    for v in all.iter() {
        assert_eq!(s(*v).truncate_offset(), v.clamp(0.0, 252.0) as u8);
        assert_eq!(s(*v).round_offset(), (126.0 + v.round()).clamp(0.0, 252.0) as u8);
    }
}

#[test]
fn offsets_count_from_rest() {
    assert_eq!(s(0.0).round_offset(), 126);
    assert_eq!(s(0.5).round_offset(), 127);
    assert_eq!(s(-0.5).round_offset(), 125);
    assert_eq!(s(0.4999999999999999).round_offset(), 126);
    assert_eq!(s(-84.0).round_offset(), 42);
    assert_eq!(s(1000.0).round_offset(), 252);
    assert_eq!(s(-1000.0).round_offset(), 0);
    assert_eq!(s(f64::NAN).round_offset(), 0);
    assert_eq!(s(126.9).truncate_offset(), 126);
    assert_eq!(s(-0.1).truncate_offset(), 0);
    assert_eq!(s(252.9).truncate_offset(), 252);
    assert_eq!(s(f64::NAN).truncate_offset(), 0);
}

#[test]
fn larger_numbers_never_get_smaller_bytes() {
    let mut last = (0, 0);
    for k in -4000..6000 {
        let v = s(k as f64 / 20.0);
        let next = (v.truncate_offset(), v.round_offset());
        assert!(last.0 <= next.0 && last.1 <= next.1);
        last = next;
    }
    assert_eq!(last, (252, 252));
}

#[test]
fn encoded_offsets_survive_small_errors() {
    for c in 0..=252u8 {
        for e in [-0.49, -0.1, 0.0, 0.1, 0.49] {
            assert_eq!(s(c as f64 - 126.0 + e).round_offset(), c);
        }
    }
}

#[test]
fn what_is_no_number_is_never_below() {
    for v in [0.0, -1.0, f64::INFINITY, f64::NAN] {
        assert!(!s(f64::NAN).lt(s(v)) && !s(v).lt(s(f64::NAN)));
        assert!(!s(f64::NAN).le(s(v)) && !s(v).le(s(f64::NAN)));
    }
    assert!(s(-0.0).le(s(0.0)) && s(0.0).le(s(-0.0)));
}

#[test]
fn encoding_is_off_by_half_a_step_at_most() {
    for k in -12600..=12600 {
        let v = k as f64 / 100.0;
        assert!((s(v).round_offset() as f64 - 126.0 - v).abs() <= 0.5);
    }
    for k in 0..=25200 {
        let v = k as f64 / 100.0;
        let lost = v - s(v).truncate_offset() as f64;
        assert!(0.0 <= lost && lost < 1.0);
    }
}

use simple_pdf_viewer::float::Real32;
use simple_pdf_viewer::float::Real64;

fn single(value: f32) -> Real32 {
    Real32 { bits: value.to_bits() }
}

fn double(value: f64) -> Real64 {
    Real64 { bits: value.to_bits() }
}

fn same32(ours: Real32, theirs: f32) -> bool {
    let ours = f32::from_bits(ours.bits);
    (ours.is_nan() && theirs.is_nan()) || ours.to_bits() == theirs.to_bits()
}

fn same64(ours: Real64, theirs: f64) -> bool {
    let ours = f64::from_bits(ours.bits);
    (ours.is_nan() && theirs.is_nan()) || ours.to_bits() == theirs.to_bits()
}

/// A repeatable stream of bit patterns: every second one is small and regular.
fn patterns(count: usize) -> Vec<u64> {
    let mut state: u64 = 0x9e37_79b9_7f4a_7c15;
    let mut result = Vec::new();
    for index in 0..count {
        state ^= state << 13;
        state ^= state >> 7;
        state ^= state << 17;
        if index % 2 == 0 {
            result.push(state);
        } else {
            result.push(((state % 4096) as f64 / 64.0).to_bits());
        }
    }
    result
}

fn singles() -> Vec<f32> {
    let mut result = vec![
        0.0,
        -0.0,
        1.0,
        -1.0,
        f32::INFINITY,
        f32::NEG_INFINITY,
        f32::NAN,
        f32::MAX,
        f32::MIN,
        f32::MIN_POSITIVE,
        f32::from_bits(1),
        f32::from_bits(0x007f_ffff),
        f32::from_bits(0x8000_0001),
        16_777_216.0,
        16_777_217.0,
        0.5,
        1.5,
        2.5,
        -0.5,
        -1.5,
    ];
    for pattern in patterns(120) {
        result.push(f32::from_bits((pattern >> 17) as u32));
        result.push(f64::from_bits(pattern) as f32);
    }
    result
}

fn doubles() -> Vec<f64> {
    let mut result = vec![
        0.0,
        -0.0,
        1.0,
        -1.0,
        f64::INFINITY,
        f64::NEG_INFINITY,
        f64::NAN,
        f64::MAX,
        f64::MIN_POSITIVE,
        f64::from_bits(1),
        f64::from_bits(0x000f_ffff_ffff_ffff),
        0.5,
        1.5,
        2.5,
        24_000_000.0,
    ];
    for pattern in patterns(200) {
        result.push(f64::from_bits(pattern));
    }
    result
}

#[test]
fn single_arithmetic_agrees_with_the_processor() {
    let values = singles();
    for &a in &values {
        for &b in &values {
            assert!(same32(single(a).plus(single(b)), a + b), "{a:e} + {b:e}");
            assert!(same32(single(a).minus(single(b)), a - b), "{a:e} - {b:e}");
            assert!(same32(single(a).times(single(b)), a * b), "{a:e} * {b:e}");
            assert!(same32(single(a).over(single(b)), a / b), "{a:e} / {b:e}");
            assert_eq!(single(a).less(single(b)), a < b, "{a:e} < {b:e}");
            assert_eq!(single(a).up_to(single(b)), a <= b, "{a:e} <= {b:e}");
            assert_eq!(single(a).equals(single(b)), a == b, "{a:e} == {b:e}");
            assert_eq!(single(a) == single(b), a == b, "{a:e} == {b:e}");
            assert_eq!(
                single(a).order_key().cmp(&single(b).order_key()),
                a.total_cmp(&b),
                "{a:e} and {b:e} in total order"
            );
        }
    }
}

#[test]
fn single_functions_agree_with_the_processor() {
    for a in singles() {
        assert!(same32(single(a).absolute(), a.abs()));
        assert!(same32(single(a).negated(), -a));
        assert_eq!(single(a).is_finite(), a.is_finite());
        assert_eq!(single(a).to_i32(), a.round() as i32, "{a:e}");
        assert!(same32(single(a).rounded(), a.round()), "{a:e}");
        assert!(same64(single(a).widened(), f64::from(a)), "{a:e}");
        assert!(same32(single(a).within(single(1.0), single(2.0)), a.clamp(1.0, 2.0)));
        for b in [0.25, -3.0, f32::NAN] {
            assert!(same32(single(a).smaller(single(b)), a.min(b)), "{a:e} {b:e}");
            assert!(same32(single(a).larger(single(b)), a.max(b)), "{a:e} {b:e}");
        }
    }
    for value in [0, 1, -1, 7, 16_777_217, -16_777_219, i32::MAX, i32::MIN] {
        assert!(same32(Real32::from_i32(value), value as f32), "{value}");
    }
}

#[test]
fn double_arithmetic_agrees_with_the_processor() {
    let values = doubles();
    for &a in &values {
        for &b in &values {
            assert!(same64(double(a).plus(double(b)), a + b), "{a:e} + {b:e}");
            assert!(same64(double(a).minus(double(b)), a - b), "{a:e} - {b:e}");
            assert!(same64(double(a).times(double(b)), a * b), "{a:e} * {b:e}");
            assert!(same64(double(a).over(double(b)), a / b), "{a:e} / {b:e}");
            assert_eq!(double(a).less(double(b)), a < b, "{a:e} < {b:e}");
            assert_eq!(double(a).up_to(double(b)), a <= b, "{a:e} <= {b:e}");
            assert_eq!(double(a) == double(b), a == b, "{a:e} == {b:e}");
        }
    }
}

#[test]
fn double_functions_agree_with_the_processor() {
    for a in doubles() {
        assert!(same64(double(a).square_root(), a.sqrt()), "{a:e}");
        assert!(same64(double(a.abs()).square_root(), a.abs().sqrt()), "{a:e}");
        assert!(same32(double(a).narrowed(), a as f32), "{a:e}");
        assert_eq!(double(a).to_usize(), a.round() as usize, "{a:e}");
        assert!(same64(double(a).within(double(0.0), double(9.5)), a.clamp(0.0, 9.5)));
        for b in [0.25, -3.0, f64::NAN] {
            assert!(same64(double(a).smaller(double(b)), a.min(b)));
            assert!(same64(double(a).larger(double(b)), a.max(b)));
        }
    }
    for value in [0, 1, -1, i32::MAX, i32::MIN] {
        assert!(same64(Real64::from_i32(value), f64::from(value)));
    }
}

#[test]
fn rounding_has_exact_values() {
    assert_eq!(single(0.1).plus(single(0.2)).bits, 0x3e99_999a);
    assert_eq!(single(1.0).over(single(3.0)).bits, 0x3eaa_aaab);
    assert_eq!(double(2.0).square_root().bits, 0x3ff6_a09e_667f_3bcd);
    assert_eq!(single(2.5).to_i32(), 3);
    assert_eq!(single(-2.5).to_i32(), -3);
}

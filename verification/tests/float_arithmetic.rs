//! The arithmetic on bit patterns against the machine's own.
use huebeat::double::Double;
use huebeat::rounding::Whole;
use huebeat::single::Single;

fn next(state: &mut u64) -> u64 {
    *state = state.wrapping_mul(6364136223846793005).wrapping_add(1442695040888963407);
    let x = *state ^ (*state >> 33);
    x.wrapping_mul(0xff51afd7ed558ccd) ^ (x >> 29)
}

fn s(x: f32) -> Single {
    Single { bits: x.to_bits() }
}

fn d(x: f64) -> Double {
    Double { bits: x.to_bits() }
}

fn same_single(got: Single, want: f32) {
    let g = f32::from_bits(got.bits);
    assert!(g.to_bits() == want.to_bits() || (g.is_nan() && want.is_nan()), "{g:?} {want:?}");
}

fn same_double(got: Double, want: f64) {
    let g = f64::from_bits(got.bits);
    assert!(g.to_bits() == want.to_bits() || (g.is_nan() && want.is_nan()), "{g:?} {want:?}");
}

fn singles() -> Vec<f32> {
    let mut out = vec![
        0.0, -0.0, 1.0, -1.0, 0.5, 1.5, 2.5, 0.1, 3.4028235e38, -3.4028235e38, 1e-45, -1e-45,
        1.1754944e-38, 1.1754942e-38, 16777216.0, 16777217.0, f32::INFINITY, f32::NEG_INFINITY,
        f32::NAN, 0.33333334, 255.5, 254.99998,
    ];
    let mut seed = 7;
    for _ in 0..120 {
        out.push(f32::from_bits(next(&mut seed) as u32));
    }
    for _ in 0..120 {
        let x = (next(&mut seed) % 2_000_001) as f32 / 1000.0 - 1000.0;
        out.push(x);
    }
    out
}

fn doubles() -> Vec<f64> {
    let mut out = vec![
        0.0, -0.0, 1.0, -1.0, 0.1, 5e-324, 1.7976931348623157e308, 2.2250738585072014e-308,
        f64::INFINITY, f64::NEG_INFINITY, f64::NAN, 9007199254740993.0,
    ];
    let mut seed = 11;
    for _ in 0..120 {
        out.push(f64::from_bits(next(&mut seed)));
    }
    for _ in 0..120 {
        out.push((next(&mut seed) % 2_000_001) as f64 / 1000.0 - 1000.0);
    }
    out
}

#[test]
fn single_arithmetic_is_exact() {
    let all = singles();
    for &a in &all {
        for &b in &all {
            same_single(s(a).plus(s(b)), a + b);
            same_single(s(a).minus(s(b)), a - b);
            same_single(s(a).times(s(b)), a * b);
            same_single(s(a).over(s(b)), a / b);
            assert_eq!(s(a).lt(s(b)), a < b);
            assert_eq!(s(a).le(s(b)), a <= b);
            assert_eq!(s(a).ranks_below(s(b)), a.total_cmp(&b).is_lt());
            if a != 0.0 || b != 0.0 {
                same_single(s(a).max(s(b)), a.max(b));
                same_single(s(a).min(s(b)), a.min(b));
            }
        }
    }
}

#[test]
fn single_functions_are_exact() {
    for &a in &singles() {
        same_single(s(a).sqrt(), a.sqrt());
        same_single(s(a).abs(), a.abs());
        same_single(s(a).neg(), -a);
        same_single(s(a).clamp(s(0.0), s(1.0)), a.clamp(0.0, 1.0));
        assert_eq!(s(a).to_byte(), a as u8);
        assert_eq!(s(a).to_whole(Whole::Floor), a as u64);
        assert_eq!(s(a).to_whole(Whole::Nearest), a.round() as u64);
        assert_eq!(s(a).to_whole(Whole::Ceil), a.ceil() as u64);
        same_double(Double::from_single(s(a)), a as f64);
    }
}

#[test]
fn double_arithmetic_is_exact() {
    let all = doubles();
    for &a in &all {
        for &b in &all {
            same_double(d(a).plus(d(b)), a + b);
            same_double(d(a).minus(d(b)), a - b);
            same_double(d(a).times(d(b)), a * b);
            same_double(d(a).over(d(b)), a / b);
            assert_eq!(d(a).lt(d(b)), a < b);
            assert_eq!(d(a).le(d(b)), a <= b);
        }
        same_single(d(a).to_single(), a as f32);
        assert_eq!(d(a).to_whole(Whole::Floor), a as u64);
    }
}

#[test]
fn literals_are_rounded_quotients() {
    same_single(Single::ratio(82, 100), 0.82);
    same_single(Single::ratio(1, 1000), 1e-3);
    same_single(Single::ratio(9995, 10000), 0.9995);
    same_single(Single::ratio(99997, 100000), 0.99997);
    same_single(Single::ratio(1, 1_000_000_000), 1e-9);
    same_single(Single::from_whole(16777217), 16777217u32 as f32);
    same_double(Double::from_whole(u64::MAX), u64::MAX as f64);
}

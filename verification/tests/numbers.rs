use piet_scene::binary32::{
    ceil_of, ceil_sum, decode, decode_half, floor_of, floor_sum, greater_of, is_nan_pattern, less,
    lesser_of, magnitude_of,
};

fn floor_reference(x: f64) -> u16 {
    x.floor().max(0.0).min(65535.0) as u16
}

fn ceil_reference(x: f64) -> u16 {
    x.ceil().max(0.0).min(65535.0) as u16
}

fn quantized_floor(x: f32) -> u16 {
    floor_of(decode(x.to_bits()))
}

fn quantized_ceil(x: f32) -> u16 {
    ceil_of(decode(x.to_bits()))
}

fn next_pattern(state: &mut u64) -> u32 {
    *state = state.wrapping_mul(6364136223846793005).wrapping_add(1442695040888963407);
    (*state >> 32) as u32
}

fn exact_sum(a: f32, b: f32) -> Option<f64> {
    let (a, b) = (a as f64, b as f64);
    let s = a + b;
    let bb = s - a;
    let err = (a - (s - bb)) + (b - bb);
    if s.is_finite() && err == 0.0 {
        Some(s)
    } else {
        None
    }
}

#[test]
fn floor_of_whole_numbers_is_the_number() {
    assert_eq!(quantized_floor(0.0), 0);
    assert_eq!(quantized_floor(1.0), 1);
    assert_eq!(quantized_floor(65535.0), 65535);
    assert_eq!(quantized_floor(12345.0), 12345);
}

#[test]
fn ceil_of_whole_numbers_is_the_number() {
    assert_eq!(quantized_ceil(0.0), 0);
    assert_eq!(quantized_ceil(1.0), 1);
    assert_eq!(quantized_ceil(65535.0), 65535);
    assert_eq!(quantized_ceil(12345.0), 12345);
}

#[test]
fn floor_and_ceil_of_fractions() {
    assert_eq!(quantized_floor(10.75), 10);
    assert_eq!(quantized_ceil(10.25), 11);
    assert_eq!(quantized_floor(0.999_999_94), 0);
    assert_eq!(quantized_ceil(0.999_999_94), 1);
    assert_eq!(quantized_floor(6.999_999_5), 6);
    assert_eq!(quantized_ceil(7.000_000_5), 8);
    assert_eq!(quantized_floor(f32::MIN_POSITIVE), 0);
    assert_eq!(quantized_ceil(f32::MIN_POSITIVE), 1);
    assert_eq!(quantized_ceil(f32::from_bits(1)), 1);
    assert_eq!(quantized_floor(f32::from_bits(1)), 0);
}

#[test]
fn negative_numbers_saturate_to_zero() {
    assert_eq!(quantized_floor(-0.0), 0);
    assert_eq!(quantized_ceil(-0.0), 0);
    assert_eq!(quantized_floor(-0.5), 0);
    assert_eq!(quantized_ceil(-0.5), 0);
    assert_eq!(quantized_floor(-3.0), 0);
    assert_eq!(quantized_ceil(-3.0), 0);
    assert_eq!(quantized_floor(f32::MIN), 0);
    assert_eq!(quantized_ceil(f32::NEG_INFINITY), 0);
}

#[test]
fn large_numbers_saturate_to_65535() {
    assert_eq!(quantized_floor(65535.5), 65535);
    assert_eq!(quantized_ceil(65534.5), 65535);
    assert_eq!(quantized_floor(65536.0), 65535);
    assert_eq!(quantized_ceil(1.0e9), 65535);
    assert_eq!(quantized_floor(f32::MAX), 65535);
    assert_eq!(quantized_floor(f32::INFINITY), 65535);
    assert_eq!(quantized_ceil(f32::INFINITY), 65535);
    assert_eq!(quantized_floor(65534.996), 65534);
}

#[test]
fn nan_quantizes_to_zero() {
    assert_eq!(quantized_floor(f32::NAN), 0);
    assert_eq!(quantized_ceil(f32::NAN), 0);
    assert_eq!(floor_of(decode(0xffc0_0001)), 0);
    assert_eq!(ceil_of(decode(0x7f80_0001)), 0);
}

#[test]
fn quantization_agrees_with_floating_point_on_many_patterns() {
    let mut state = 0x1234_5678_9abc_def0u64;
    for _ in 0..200_000 {
        let bits = next_pattern(&mut state);
        let x = f32::from_bits(bits) as f64;
        assert_eq!(floor_of(decode(bits)), floor_reference(x), "floor of {:#x}", bits);
        assert_eq!(ceil_of(decode(bits)), ceil_reference(x), "ceil of {:#x}", bits);
    }
}

#[test]
fn quantization_agrees_with_floating_point_near_the_range() {
    let mut state = 42u64;
    for _ in 0..200_000 {
        let r = next_pattern(&mut state);
        let x = (r as f64 / 4_294_967_296.0 * 70000.0 - 2000.0) as f32;
        let bits = x.to_bits();
        assert_eq!(floor_of(decode(bits)), floor_reference(x as f64), "floor of {}", x);
        assert_eq!(ceil_of(decode(bits)), ceil_reference(x as f64), "ceil of {}", x);
    }
}

#[test]
fn sums_are_exact() {
    assert_eq!(floor_sum(decode(10.5f32.to_bits()), decode((-2.0f32).to_bits())), 8);
    assert_eq!(ceil_sum(decode(10.5f32.to_bits()), decode(2.0f32.to_bits())), 13);
    assert_eq!(floor_sum(decode(1.0f32.to_bits()), decode(f32::from_bits(1).to_bits())), 1);
    assert_eq!(ceil_sum(decode(1.0f32.to_bits()), decode(f32::from_bits(1).to_bits())), 2);
    let tiny = decode(f32::from_bits(1).to_bits()).negated();
    assert_eq!(floor_sum(decode(1.0f32.to_bits()), tiny), 0);
    assert_eq!(ceil_sum(decode(1.0f32.to_bits()), tiny), 1);
    assert_eq!(floor_sum(decode(3.0e38f32.to_bits()), decode((-3.0e38f32).to_bits())), 0);
    assert_eq!(ceil_sum(decode(3.0e38f32.to_bits()), decode((-2.9e38f32).to_bits())), 65535);
    assert_eq!(ceil_sum(decode(0.25f32.to_bits()), decode((-0.25f32).to_bits())), 0);
    assert_eq!(ceil_sum(decode(0.25f32.to_bits()), decode((-0.125f32).to_bits())), 1);
}

#[test]
fn halves_are_exact() {
    assert_eq!(ceil_sum(decode(10.0f32.to_bits()), decode_half(2.0f32.to_bits())), 11);
    assert_eq!(floor_sum(decode(10.0f32.to_bits()), decode_half(3.0f32.to_bits())), 11);
    assert_eq!(ceil_sum(decode(10.0f32.to_bits()), decode_half(3.0f32.to_bits())), 12);
    assert_eq!(ceil_of(decode_half(f32::from_bits(1).to_bits())), 1);
    assert_eq!(floor_of(decode_half(131070.0f32.to_bits())), 65535);
    assert_eq!(floor_of(decode_half(131069.0f32.to_bits())), 65534);
}

#[test]
fn sums_with_infinities_and_nan() {
    let inf = decode(f32::INFINITY.to_bits());
    let neg_inf = decode(f32::NEG_INFINITY.to_bits());
    let nan = decode(f32::NAN.to_bits());
    let one = decode(1.0f32.to_bits());
    assert_eq!(floor_sum(inf, one), 65535);
    assert_eq!(ceil_sum(one, inf), 65535);
    assert_eq!(floor_sum(neg_inf, one), 0);
    assert_eq!(floor_sum(inf, neg_inf), 0);
    assert_eq!(ceil_sum(inf, neg_inf), 0);
    assert_eq!(floor_sum(inf, inf), 65535);
    assert_eq!(floor_sum(nan, one), 0);
    assert_eq!(ceil_sum(one, nan), 0);
    assert_eq!(ceil_sum(inf, nan), 0);
}

#[test]
fn sums_agree_with_floating_point_where_it_is_exact() {
    let mut state = 7u64;
    let mut compared = 0;
    for _ in 0..400_000 {
        let a = f32::from_bits(next_pattern(&mut state));
        let b = f32::from_bits(next_pattern(&mut state));
        if let Some(s) = exact_sum(a, b) {
            compared += 1;
            let (da, db) = (decode(a.to_bits()), decode(b.to_bits()));
            assert_eq!(floor_sum(da, db), floor_reference(s), "floor of {} + {}", a, b);
            assert_eq!(ceil_sum(da, db), ceil_reference(s), "ceil of {} + {}", a, b);
        }
    }
    assert!(compared > 1000);
}

#[test]
fn sums_agree_with_floating_point_near_the_range() {
    let mut state = 99u64;
    let mut compared = 0;
    for _ in 0..400_000 {
        let ra = next_pattern(&mut state);
        let rb = next_pattern(&mut state);
        let a = (ra as f64 / 4_294_967_296.0 * 70000.0 - 2000.0) as f32;
        let b = (rb as f64 / 4_294_967_296.0 * 200.0 - 100.0) as f32;
        if let Some(s) = exact_sum(a, b) {
            compared += 1;
            let (da, db) = (decode(a.to_bits()), decode(b.to_bits()));
            assert_eq!(floor_sum(da, db), floor_reference(s), "floor of {} + {}", a, b);
            assert_eq!(ceil_sum(da, db), ceil_reference(s), "ceil of {} + {}", a, b);
        }
    }
    assert!(compared > 100_000);
}

#[test]
fn order_agrees_with_floating_point() {
    let mut state = 3u64;
    for _ in 0..200_000 {
        let a = next_pattern(&mut state);
        let b = if next_pattern(&mut state) % 4 == 0 {
            a ^ (next_pattern(&mut state) & 0xff)
        } else {
            next_pattern(&mut state)
        };
        let (x, y) = (f32::from_bits(a), f32::from_bits(b));
        assert_eq!(less(a, b), x < y, "{} < {}", x, y);
    }
    assert!(less((-0.0f32).to_bits(), 0.0f32.to_bits()) == false);
    assert!(less(f32::NEG_INFINITY.to_bits(), f32::MIN.to_bits()));
    assert!(less(f32::MAX.to_bits(), f32::INFINITY.to_bits()));
    assert!(!less(f32::NAN.to_bits(), 1.0f32.to_bits()));
    assert!(!less(1.0f32.to_bits(), f32::NAN.to_bits()));
}

#[test]
fn lesser_and_greater_ignore_nan() {
    let nan = f32::NAN.to_bits();
    let one = 1.0f32.to_bits();
    let two = 2.0f32.to_bits();
    assert_eq!(lesser_of(one, two), one);
    assert_eq!(lesser_of(two, one), one);
    assert_eq!(greater_of(one, two), two);
    assert_eq!(greater_of(two, one), two);
    assert_eq!(lesser_of(nan, two), two);
    assert_eq!(lesser_of(two, nan), two);
    assert_eq!(greater_of(nan, one), one);
    assert_eq!(greater_of(one, nan), one);
    assert_eq!(lesser_of(nan, nan), nan);
    assert_eq!(lesser_of((-5.5f32).to_bits(), (-5.25f32).to_bits()), (-5.5f32).to_bits());
    assert_eq!(greater_of((-5.5f32).to_bits(), (-5.25f32).to_bits()), (-5.25f32).to_bits());
}

#[test]
fn nan_patterns_and_magnitudes() {
    assert!(is_nan_pattern(f32::NAN.to_bits()));
    assert!(is_nan_pattern(0xff80_0001));
    assert!(!is_nan_pattern(f32::INFINITY.to_bits()));
    assert!(!is_nan_pattern(f32::NEG_INFINITY.to_bits()));
    assert!(!is_nan_pattern(0));
    assert_eq!(magnitude_of((-2.5f32).to_bits()), 2.5f32.to_bits());
    assert_eq!(magnitude_of(2.5f32.to_bits()), 2.5f32.to_bits());
    assert_eq!(magnitude_of((-0.0f32).to_bits()), 0);
}

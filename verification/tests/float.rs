//! Single-precision arithmetic against the machine's.

use inferno::float::single::{
    f32_add, f32_div, f32_max, f32_min, f32_mul, f32_of_int, f32_to_int, f64_to_f32,
};

fn samples() -> Vec<u32> {
    let mut v = vec![
        0u32,
        0x8000_0000,
        1,
        0x8000_0001,
        0x007F_FFFF,
        0x0080_0000,
        0x3F80_0000,
        0xBF80_0000,
        0x3F80_0001,
        0x7F7F_FFFF,
        0xFF7F_FFFF,
        0x7F80_0000,
        0xFF80_0000,
        0x7FC0_0000,
        0x4B80_0000,
        0x3380_0000,
        0x3300_0000,
        0x0000_0300,
    ];
    let mut s = 0x9E37_79B9_7F4A_7C15u64;
    for _ in 0..400 {
        s ^= s << 13;
        s ^= s >> 7;
        s ^= s << 17;
        v.push(s as u32);
        // Numbers of similar size, so that sums cancel.
        v.push(0x3F00_0000 | (s >> 40) as u32 & 0x00FF_FFFF);
    }
    v
}

fn same(got: u32, want: f32) -> bool {
    if want.is_nan() {
        f32::from_bits(got).is_nan()
    } else {
        got == want.to_bits()
    }
}

#[test]
fn arithmetic_is_correctly_rounded() {
    let v = samples();
    for &a in &v {
        for &b in &v {
            let (x, y) = (f32::from_bits(a), f32::from_bits(b));
            assert!(same(f32_add(a, b), x + y), "{x:e} + {y:e}");
            assert!(same(f32_mul(a, b), x * y), "{x:e} * {y:e}");
            assert!(same(f32_div(a, b), x / y), "{x:e} / {y:e}");
        }
    }
}

#[test]
fn order_ignores_what_is_not_a_number() {
    let nan = f32::NAN.to_bits();
    let one = 1.0f32.to_bits();
    let two = (-2.0f32).to_bits();
    assert_eq!(f32_max(nan, one), one);
    assert_eq!(f32_max(one, nan), one);
    assert_eq!(f32_max(one, two), one);
    assert_eq!(f32_min(one, two), two);
    assert_eq!(f32_min(nan, two), two);
}

#[test]
fn integers_convert_both_ways() {
    for n in -1000i64..1000 {
        assert_eq!(f32_of_int(n), (n as f32).to_bits());
        assert_eq!(f32_to_int(f32_of_int(n), -1000, 1000), n);
    }
    let r = |x: f32| f32_to_int(x.to_bits(), -127, 127);
    assert_eq!(r(0.5), 1);
    assert_eq!(r(-0.5), -1);
    assert_eq!(r(2.4999998), 2);
    assert_eq!(r(1e30), 127);
    assert_eq!(r(f32::NEG_INFINITY), -127);
    assert_eq!(r(f32::NAN), 0);
}

#[test]
fn double_precision_narrows_like_the_machine() {
    let mut s = 0x1234_5678_9ABC_DEFFu64;
    for _ in 0..20000 {
        s ^= s << 13;
        s ^= s >> 7;
        s ^= s << 17;
        let x = f64::from_bits(s);
        assert!(same(f64_to_f32(s), x as f32), "{x:e}");
        // Within single-precision range.
        let y = f64::from_bits(s & 0x800F_FFFF_FFFF_FFFF | 0x3800_0000_0000_0000);
        assert!(same(f64_to_f32(y.to_bits()), y as f32), "{y:e}");
    }
}

use rsedit::float::{Float32, Float64, Toward};

struct Random(u64);

impl Random {
    fn next(&mut self) -> u64 {
        self.0 = self.0.wrapping_mul(6364136223846793005).wrapping_add(1442695040888963407);
        let x = self.0;
        (x >> 32) ^ (x << 17) ^ x
    }
}

fn same32(a: Float32, b: f32) -> bool {
    (b.is_nan() && a.is_nan()) || a.bits == b.to_bits()
}

fn same64(a: Float64, b: f64) -> bool {
    (b.is_nan() && a.is_nan()) || a.bits == b.to_bits()
}

fn f32_of(x: Float32) -> f32 {
    f32::from_bits(x.bits)
}

fn f64_of(x: Float64) -> f64 {
    f64::from_bits(x.bits)
}

fn samples32() -> Vec<f32> {
    vec![
        0.0, -0.0, 1.0, -1.0, 0.5, 1.5, 2.5, -2.5, 0.1, 0.3, 255.0, 1e-4, 1e10, -1e20, 3.4e38, f32::MIN_POSITIVE,
        1e-45, -1e-45, 1e-40, f32::MAX, f32::MIN, f32::INFINITY, f32::NEG_INFINITY, f32::NAN, 16777216.0, 16777217.0,
    ]
}

fn samples64() -> Vec<f64> {
    vec![
        0.0, -0.0, 1.0, -1.0, 0.5, 1.5, 2.5, -2.5, 0.1, 0.3, 1e6, 48000.0, 1e-320, -5e-324, 1e300, -1e308,
        f64::MAX, f64::MIN_POSITIVE, f64::INFINITY, f64::NEG_INFINITY, f64::NAN, 9007199254740993.0,
    ]
}

fn check32(a: f32, b: f32) {
    let x = Float32 { bits: a.to_bits() };
    let y = Float32 { bits: b.to_bits() };
    assert!(same32(x.plus(y), a + b), "{} + {}", a, b);
    assert!(same32(x.minus(y), a - b), "{} - {}", a, b);
    assert!(same32(x.times(y), a * b), "{} * {}", a, b);
    assert!(same32(x.over(y), a / b), "{} / {}", a, b);
    assert!(same32(x.rest(y), a % b), "{} % {}", a, b);
    assert_eq!(x.less_than(y), a < b);
    assert_eq!(x.at_most(y), a <= b);
    assert_eq!(x.equals(y), a == b);
    assert!(same32(x.negate(), -a));
    assert!(same32(x.magnitude(), a.abs()));
    assert_eq!(x.is_positive(), a > 0.0);
    if !(a == 0.0 && b == 0.0) {
        assert!(same32(x.maximum(y), a.max(b)));
        assert!(same32(x.minimum(y), a.min(b)));
    }
    assert!(same64(x.widen(), a as f64));
    assert_eq!(x.to_i64(Toward::Zero), a as i64);
    assert_eq!(x.to_i64(Toward::Below), a.floor() as i64);
    assert_eq!(x.to_i64(Toward::Above), a.ceil() as i64);
    assert_eq!(x.to_i64(Toward::Nearest), a.round() as i64);
    assert_eq!(x.to_u64(Toward::Zero), a as u64);
    assert_eq!(x.to_i32(Toward::Zero), a as i32);
    assert_eq!(x.to_u32(Toward::Zero), a as u32);
    assert_eq!(x.to_u8(Toward::Nearest), a.round() as u8);
}

fn check64(a: f64, b: f64) {
    let x = Float64 { bits: a.to_bits() };
    let y = Float64 { bits: b.to_bits() };
    assert!(same64(x.plus(y), a + b), "{} + {}", a, b);
    assert!(same64(x.minus(y), a - b), "{} - {}", a, b);
    assert!(same64(x.times(y), a * b), "{} * {}", a, b);
    assert!(same64(x.over(y), a / b), "{} / {}", a, b);
    assert!(same64(x.rest(y), a % b), "{} % {}", a, b);
    assert_eq!(x.less_than(y), a < b);
    assert!(same32(x.narrow(), a as f32), "{} as f32", a);
    assert_eq!(x.to_i64(Toward::Zero), a as i64);
    assert_eq!(x.to_i64(Toward::Nearest), a.round() as i64);
    assert_eq!(x.to_u64(Toward::Above), a.ceil() as u64);
}

#[test]
fn special_values_of_32_bits() {
    for a in samples32() {
        for b in samples32() {
            check32(a, b);
        }
    }
}

#[test]
fn special_values_of_64_bits() {
    for a in samples64() {
        for b in samples64() {
            check64(a, b);
        }
    }
}

#[test]
fn random_patterns_of_32_bits() {
    let mut r = Random(1);
    for _ in 0..20000 {
        check32(f32::from_bits(r.next() as u32), f32::from_bits(r.next() as u32));
    }
    for _ in 0..20000 {
        let a = (r.next() % 100000) as f32 / 7.0 - 3000.0;
        let b = (r.next() % 1000) as f32 / 3.0 - 100.0;
        check32(a, b);
    }
}

#[test]
fn random_patterns_of_64_bits() {
    let mut r = Random(2);
    for _ in 0..10000 {
        check64(f64::from_bits(r.next()), f64::from_bits(r.next()));
    }
    for _ in 0..10000 {
        let a = (r.next() % 10000000) as f64 / 7.0 - 3000.0;
        let b = (r.next() % 100000) as f64 / 3.0 - 100.0;
        check64(a, b);
    }
}

#[test]
fn integers_become_the_nearest_numbers() {
    let mut r = Random(3);
    for _ in 0..5000 {
        let n = r.next() as i64 >> (r.next() % 64);
        assert!(same32(Float32::from_i64(n), n as f32));
        assert!(same64(Float64::from_i64(n), n as f64));
        assert!(same64(Float64::from_u64(n as u64), n as u64 as f64));
        assert!(same32(Float32::from_u64(n as u64), n as u64 as f32));
    }
    assert!(same64(Float64::from_i64(i64::MIN), i64::MIN as f64));
    assert!(same32(Float32::from_i64(0), 0.0));
}

#[test]
fn remainders_that_are_not_negative() {
    let x = Float32 { bits: (-1.5f32).to_bits() };
    let y = Float32 { bits: 6.0f32.to_bits() };
    assert_eq!(f32_of(x.rest_euclid(y)), 4.5);
    assert_eq!(f32_of(y.rest_euclid(x)), 0.0);
    let z = Float64 { bits: (-7.25f64).to_bits() };
    let w = Float64 { bits: 2.0f64.to_bits() };
    assert_eq!(f64_of(z.rest_euclid(w)), 0.75);
}

#[test]
fn numbers_held_within_bounds() {
    let low = Float32::from_i64(0);
    let high = Float32::from_i64(1);
    assert_eq!(f32_of(Float32::from_i64(-3).clamped(low, high)), 0.0);
    assert_eq!(f32_of(Float32::from_i64(9).clamped(low, high)), 1.0);
    let half = Float32 { bits: 0.5f32.to_bits() };
    assert_eq!(f32_of(half.clamped(low, high)), 0.5);
    assert!(Float64::nan().is_nan());
    assert_eq!(f64_of(Float64::infinity()), f64::INFINITY);
}

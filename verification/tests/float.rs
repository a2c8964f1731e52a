use rustiferin::float::F32;

fn f(x: f32) -> F32 {
    F32 { bits: x.to_bits() }
}

fn same(got: F32, want: f32) -> bool {
    if want.is_nan() {
        f32::from_bits(got.bits).is_nan()
    } else {
        got.bits == want.to_bits()
    }
}

struct Lcg(u64);

impl Lcg {
    fn next(&mut self) -> u32 {
        self.0 = self
            .0
            .wrapping_mul(6364136223846793005)
            .wrapping_add(1442695040888963407);
        (self.0 >> 32) as u32
    }

    /// A number of ordinary size, of either sign.
    fn ordinary(&mut self) -> f32 {
        let n = self.next();
        let e = 100 + n % 56;
        f32::from_bits((n & 0x8000_0000) | (e << 23) | (self.next() & 0x7F_FFFF))
    }
}

fn edges() -> Vec<f32> {
    vec![
        0.0,
        -0.0,
        1.0,
        -1.0,
        0.5,
        1.5,
        2.5,
        255.0,
        254.5,
        f32::MIN_POSITIVE,
        f32::from_bits(1),
        f32::from_bits(0x7F_FFFF),
        f32::MAX,
        f32::MIN,
        f32::INFINITY,
        f32::NEG_INFINITY,
        f32::NAN,
        f32::EPSILON,
        16777216.0,
        16777215.0,
        8388608.0,
        8388607.5,
        4294967296.0,
    ]
}

fn check_pair(a: f32, b: f32) {
    assert!(same(f(a).plus(f(b)), a + b), "{a:?} + {b:?}");
    assert!(same(f(a).minus(f(b)), a - b), "{a:?} - {b:?}");
    assert!(same(f(a).times(f(b)), a * b), "{a:?} * {b:?}");
    assert!(same(f(a).over(f(b)), a / b), "{a:?} / {b:?}");
    assert_eq!(f(a).lt(f(b)), a < b, "{a:?} < {b:?}");
    assert_eq!(f(a).le(f(b)), a <= b, "{a:?} <= {b:?}");
    if a != b {
        assert!(same(f(a).max(f(b)), a.max(b)), "max {a:?} {b:?}");
        assert!(same(f(a).min(f(b)), a.min(b)), "min {a:?} {b:?}");
    }
}

fn check_one(a: f32) {
    assert!(same(f(a).abs(), a.abs()), "abs {a:?}");
    assert!(same(f(a).negated(), -a), "neg {a:?}");
    assert_eq!(
        f(a).rounded_at_most(255),
        a.round().clamp(0.0, 255.0) as u8 as u32,
        "round {a:?}"
    );
    assert_eq!(f(a).rounded_at_most(u32::MAX), a.round() as u32, "round {a:?}");
    assert_eq!(f(a).floored_at_most(u32::MAX), a as u32, "floor {a:?}");
    assert!(same(f(a).fract(), a % 1.0), "fract {a:?}");
    assert!(same(f(a).wrap(), a.rem_euclid(1.0)), "wrap {a:?}");
    assert!(same(f(a).clamp(f(0.0), f(1.0)), a.clamp(0.0, 1.0)), "clamp {a:?}");
}

#[test]
fn arithmetic_matches_the_hardware_on_edges() {
    for a in edges() {
        check_one(a);
        for b in edges() {
            check_pair(a, b);
        }
    }
}

#[test]
fn arithmetic_matches_the_hardware_on_any_pattern() {
    let mut r = Lcg(7);
    for _ in 0..20000 {
        let a = f32::from_bits(r.next());
        let b = f32::from_bits(r.next());
        check_one(a);
        check_pair(a, b);
    }
}

#[test]
fn arithmetic_matches_the_hardware_on_ordinary_numbers() {
    let mut r = Lcg(11);
    for _ in 0..40000 {
        let a = r.ordinary();
        let b = r.ordinary();
        check_one(a);
        check_pair(a, b);
    }
}

#[test]
fn integers_convert_as_the_hardware_does() {
    let mut r = Lcg(3);
    for n in [0, 1, 2, 255, 256, 16777215, 16777216, 16777217, 16777219, u32::MAX] {
        assert!(same(F32::from_u32(n), n as f32), "{n}");
    }
    for _ in 0..5000 {
        let n = r.next();
        assert!(same(F32::from_u32(n), n as f32), "{n}");
        let w = ((r.next() as u64) << 32) | n as u64;
        assert!(same(F32::from_u64(w), w as f32), "{w}");
    }
    assert!(same(F32::from_u64(u64::MAX), u64::MAX as f32));
}

#[test]
fn halves_round_to_even_patterns() {
    // 2^24 + 1 lies half way between two numbers, and the even one is below.
    assert_eq!(F32::from_u32(16777217).bits, 16777216f32.to_bits());
    // 2^24 + 3 lies half way too, and the even one is above.
    assert_eq!(F32::from_u32(16777219).bits, 16777220f32.to_bits());
}

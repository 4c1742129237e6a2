use fleet_commander::single::Single;

fn s(x: f32) -> Single {
    Single::from_bits(x.to_bits())
}

fn f(x: Single) -> f32 {
    f32::from_bits(x.to_bits())
}

/// The same number, where all numbers that are none count as one.
fn agrees(ours: Single, theirs: f32) -> bool {
    (f(ours).is_nan() && theirs.is_nan()) || ours.to_bits() == theirs.to_bits()
}

/// Numbers of every kind: zeros, the least and the greatest, wholes, fractions, infinities, none.
fn samples() -> Vec<f32> {
    let mut v = vec![
        0.0,
        -0.0,
        1.0,
        -1.0,
        0.5,
        0.1,
        0.3,
        2.0,
        3.0,
        10.0,
        -7.25,
        0.05,
        0.98,
        10_000.0,
        9_999.999,
        16_777_216.0,
        16_777_217.0,
        f32::MIN_POSITIVE,
        -f32::MIN_POSITIVE,
        f32::from_bits(1),
        f32::from_bits(0x8000_0001),
        f32::from_bits(0x007f_ffff),
        f32::MAX,
        f32::MIN,
        f32::INFINITY,
        f32::NEG_INFINITY,
        f32::NAN,
        std::f32::consts::PI,
        std::f32::consts::TAU,
        1e-20,
        -1e20,
        1e38,
    ];
    let mut n: u32 = 0x1234_5678;
    for _ in 0..400 {
        n = n.wrapping_mul(1_664_525).wrapping_add(1_013_904_223);
        v.push(f32::from_bits(n));
        n = n.wrapping_mul(1_664_525).wrapping_add(1_013_904_223);
        v.push((n >> 8) as f32 / 1024.0 - 8000.0);
    }
    v
}

#[test]
fn sums_and_differences_are_exactly_rounded() {
    let v = samples();
    for &a in &v {
        for &b in &v {
            assert!(agrees(s(a).plus(s(b)), a + b), "{a:e} + {b:e}");
            assert!(agrees(s(a).minus(s(b)), a - b), "{a:e} - {b:e}");
        }
    }
}

#[test]
fn products_are_exactly_rounded() {
    let v = samples();
    for &a in &v {
        for &b in &v {
            assert!(agrees(s(a).times(s(b)), a * b), "{a:e} * {b:e}");
        }
    }
}

#[test]
fn quotients_are_exactly_rounded() {
    let v = samples();
    for &a in &v {
        for &b in &v {
            assert!(agrees(s(a).over(s(b)), a / b), "{a:e} / {b:e}");
        }
    }
}

#[test]
fn remainders_are_exact() {
    let v = samples();
    for &a in &v {
        for &b in &v {
            assert!(agrees(s(a).rem(s(b)), a % b), "{a:e} % {b:e}");
            assert!(agrees(s(a).rem_euclid(s(b)), a.rem_euclid(b)), "{a:e} mod {b:e}");
        }
    }
}

#[test]
fn roots_are_exactly_rounded() {
    for &a in &samples() {
        assert!(agrees(s(a).sqrt(), a.sqrt()), "sqrt {a:e}");
    }
}

#[test]
fn order_is_that_of_numbers() {
    let v = samples();
    for &a in &v {
        for &b in &v {
            assert_eq!(s(a).is_less(s(b)), a < b, "{a:e} < {b:e}");
            assert_eq!(s(a).is_at_most(s(b)), a <= b, "{a:e} <= {b:e}");
            assert_eq!(s(a).is_same(s(b)), a == b, "{a:e} == {b:e}");
            let (low, high) = (f(s(a).min(s(b))), f(s(a).max(s(b))));
            assert!(low == a.min(b) || (low.is_nan() && a.min(b).is_nan()));
            assert!(high == a.max(b) || (high.is_nan() && a.max(b).is_nan()));
        }
    }
}

#[test]
fn signs_change_alone() {
    for &a in &samples() {
        assert!(agrees(s(a).negate(), -a));
        assert!(agrees(s(a).abs(), a.abs()));
        assert!(agrees(s(a).clamp(s(-3.5), s(7.0)), a.clamp(-3.5, 7.0)), "clamp {a:e}");
    }
}

#[test]
fn wholes_come_and_go() {
    for n in [0, 1, -1, 7, 20, -300, 10_000, 16_777_216, 16_777_217, i32::MAX, i32::MIN] {
        assert!(agrees(Single::whole(n), n as f32), "{n}");
    }
    for &a in &samples() {
        assert_eq!(s(a).to_whole(), a as i32, "{a:e} as i32");
        assert_eq!(s(a).to_count(), a as u32, "{a:e} as u32");
        assert_eq!(s(a).to_byte(), a as u8, "{a:e} as u8");
        assert_eq!(s(a).floor_to_whole(), a.floor() as i32, "floor {a:e}");
        assert_eq!(s(a).ceil_to_whole(), a.ceil() as i32, "ceil {a:e}");
        assert_eq!(s(a).ceil_to_size(), a.ceil() as u64, "ceil {a:e} as u64");
    }
}

#[test]
fn fractions_are_the_nearest() {
    assert!(agrees(Single::fraction(11, 5), 2.2));
    assert!(agrees(Single::fraction(4, 5), 0.8));
    assert!(agrees(Single::fraction(49, 50), 0.98));
    assert!(agrees(Single::fraction(1, 1000), 0.001));
    assert!(agrees(Single::fraction(3, 4), 0.75));
    assert!(agrees(Single::fraction(-1, 10), -0.1));
}

#[test]
fn counts_of_any_size_are_rounded() {
    let mut n: u64 = 1;
    for shift in 0..64u32 {
        let top = 1u64 << shift;
        for m in [top, top - 1, top | 1, top | (n & (top - 1)), u64::MAX - top] {
            assert_eq!(Single::count(m).to_bits(), (m as f32).to_bits(), "{m}");
            assert_eq!(s(m as f32).ceil_to_size(), (m as f32) as u64, "{m}");
        }
        n = n.wrapping_mul(6_364_136_223_846_793_005).wrapping_add(1_442_695_040_888_963_407);
    }
}

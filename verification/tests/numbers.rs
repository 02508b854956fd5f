use ogre_core::float_bits::{
    abs, clamp, clamp01_nan0, complement, from_i32, from_u32, from_u64, is_at_most, is_finite,
    is_less, is_nan, is_same, is_zero, max, max_zero, min, negate, round_i32,
};

fn b(v: f32) -> u32 {
    v.to_bits()
}

const SOME: [f32; 22] = [
    0.0,
    -0.0,
    1.0,
    -1.0,
    0.5,
    -0.5,
    1.5,
    2.5,
    -2.5,
    0.49999997,
    0.1,
    -0.3,
    1e-40,
    3.4e38,
    -3.4e38,
    16777217.0,
    8388607.5,
    2147483600.0,
    -2147483600.0,
    f32::INFINITY,
    f32::NEG_INFINITY,
    f32::NAN,
];

#[test]
fn comparisons_are_those_of_numbers() {
    for x in SOME {
        assert_eq!(is_nan(b(x)), x.is_nan());
        assert_eq!(is_zero(b(x)), x == 0.0);
        assert_eq!(is_finite(b(x)), x.is_finite());
        for y in SOME {
            assert_eq!(is_less(b(x), b(y)), x < y, "{x} < {y}");
            assert_eq!(is_same(b(x), b(y)), x == y, "{x} == {y}");
            assert_eq!(is_at_most(b(x), b(y)), x <= y, "{x} <= {y}");
        }
    }
}

#[test]
fn extremes_signs_and_clamps_are_those_of_numbers() {
    for x in SOME {
        assert_eq!(abs(b(x)), b(x.abs()));
        assert_eq!(negate(b(x)), b(-x));
        for y in SOME {
            let (lo, hi) = (f32::from_bits(min(b(x), b(y))), f32::from_bits(max(b(x), b(y))));
            assert!(lo == x.min(y) || (lo.is_nan() && x.min(y).is_nan()), "min {x} {y}");
            assert!(hi == x.max(y) || (hi.is_nan() && x.max(y).is_nan()), "max {x} {y}");
        }
        let unit = f32::from_bits(clamp01_nan0(b(x)));
        assert_eq!(unit, if x.is_nan() { 0.0 } else { x.clamp(0.0, 1.0) });
        assert_eq!(f32::from_bits(max_zero(b(x))), x.max(0.0));
        if !x.is_nan() {
            assert_eq!(f32::from_bits(clamp(b(x), b(-2.0), b(3.0))), x.clamp(-2.0, 3.0));
        }
    }
}

#[test]
fn integers_become_the_nearest_number() {
    let some = [
        0u32,
        1,
        2,
        3,
        255,
        16777215,
        16777216,
        16777217,
        16777219,
        33554431,
        33554433,
        2147483647,
        2147483648,
        4294967040,
        4294967167,
        4294967168,
        4294967295,
    ];
    for n in some {
        assert_eq!(from_u32(n), b(n as f32), "{n}");
        assert_eq!(from_i32(n as i32), b(n as i32 as f32), "{}", n as i32);
        for k in [0u32, 7, 31] {
            let wide = (n as u64) << k;
            assert_eq!(from_u64(wide), b(wide as f32), "{wide}");
            assert_eq!(from_u64(wide | 1), b((wide | 1) as f32), "{}", wide | 1);
        }
    }
    assert_eq!(from_u64(u64::MAX), b(u64::MAX as f32));
    let mut n: u32 = 1;
    for _ in 0..2000 {
        n = n.wrapping_mul(1664525).wrapping_add(1013904223);
        assert_eq!(from_u32(n), b(n as f32), "{n}");
    }
}

#[test]
fn complements_are_differences_from_one() {
    let mut n: u32 = 17;
    for _ in 0..4000 {
        n = n.wrapping_mul(1664525).wrapping_add(1013904223);
        // A pattern between zero and one.
        let v = n % (b(1.0) + 1);
        assert_eq!(complement(v), b(1.0 - f32::from_bits(v)), "{}", f32::from_bits(v));
    }
    for v in [0.0, 1.0, 0.5, 0.25, 0.1, 0.9, 1e-8, 2.9802322e-8, 5.9604645e-8, 0.99999994] {
        assert_eq!(complement(b(v)), b(1.0 - v), "{v}");
    }
}

#[test]
fn rounding_goes_to_the_nearest_integer() {
    for x in SOME {
        assert_eq!(round_i32(b(x)), x.round() as i32, "{x}");
    }
    let mut n: u32 = 5;
    for _ in 0..4000 {
        n = n.wrapping_mul(1664525).wrapping_add(1013904223);
        let x = f32::from_bits(n);
        assert_eq!(round_i32(n), x.round() as i32, "{x}");
    }
}

#[test]
fn large_numbers_round_to_wide_integers() {
    let r = |v: f32| ogre_core::float_bits::round_u64(v.to_bits());
    assert_eq!(r(0.49), 0);
    assert_eq!(r(1.5), 2);
    assert_eq!(r(-7.0), 0);
    assert_eq!(r(f32::NAN), 0);
    assert_eq!(r(4294967296.0), 4294967296);
    assert_eq!(r(9.223372e18), 9.223372e18_f32 as u64);
    assert_eq!(r(f32::INFINITY), u64::MAX);
}

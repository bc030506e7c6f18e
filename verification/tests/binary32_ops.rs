use pathtracer::binary32::Binary32;

fn b(x: f32) -> Binary32 {
    Binary32::from_bits(x.to_bits())
}

fn f(x: Binary32) -> f32 {
    f32::from_bits(x.to_bits())
}

fn same(ours: Binary32, theirs: f32) -> bool {
    if theirs.is_nan() {
        f(ours).is_nan()
    } else {
        ours.to_bits() == theirs.to_bits()
    }
}

fn samples() -> Vec<f32> {
    let mut v: Vec<f32> = vec![
        0.0,
        -0.0,
        1.0,
        -1.0,
        0.5,
        2.0,
        3.0,
        0.1,
        0.7,
        255.99,
        0.001,
        1.5,
        1.0e-45,
        -1.0e-45,
        1.1754942e-38,
        1.17549435e-38,
        2.3509887e-38,
        3.4028235e38,
        -3.4028235e38,
        1.7014118e38,
        1.0e20,
        1.0e-20,
        16777216.0,
        16777217.0,
        8388608.0,
        8388607.5,
        0.33333334,
        1.0000001,
        0.99999994,
        f32::INFINITY,
        f32::NEG_INFINITY,
        f32::NAN,
        1000.0,
        -100.5,
        13.0,
        6.0e-39,
        4.0e-40,
        65536.0,
        1.0e-30,
        7.0e37,
    ];
    let mut state: u32 = 0x1234_5678;
    let mut i = 0;
    while i < 400 {
        state = state.wrapping_mul(1664525).wrapping_add(1013904223);
        v.push(f32::from_bits(state));
        i += 1;
    }
    v
}

#[test]
fn addition_matches_the_hardware() {
    let v = samples();
    for &x in &v {
        for &y in &v {
            assert!(same(b(x) + b(y), x + y), "{:?} + {:?}", x, y);
        }
    }
}

#[test]
fn subtraction_matches_the_hardware() {
    let v = samples();
    for &x in &v {
        for &y in &v {
            assert!(same(b(x) - b(y), x - y), "{:?} - {:?}", x, y);
        }
    }
}

#[test]
fn multiplication_matches_the_hardware() {
    let v = samples();
    for &x in &v {
        for &y in &v {
            assert!(same(b(x) * b(y), x * y), "{:?} * {:?}", x, y);
        }
    }
}

#[test]
fn division_matches_the_hardware() {
    let v = samples();
    for &x in &v {
        for &y in &v {
            assert!(same(b(x) / b(y), x / y), "{:?} / {:?}", x, y);
        }
    }
}

#[test]
fn square_root_matches_the_hardware() {
    let v = samples();
    for &x in &v {
        assert!(same(b(x).sqrt(), x.sqrt()), "sqrt {:?}", x);
    }
    let mut bits: u32 = 0;
    while bits < 0x7f80_0000 {
        let x = f32::from_bits(bits);
        assert!(same(b(x).sqrt(), x.sqrt()), "sqrt {:?}", x);
        bits += 0x1_0003;
    }
}

#[test]
fn comparisons_match_the_hardware() {
    let v = samples();
    for &x in &v {
        for &y in &v {
            assert_eq!(b(x).lt(b(y)), x < y);
            assert_eq!(b(x).le(b(y)), x <= y);
            assert_eq!(b(x).gt(b(y)), x > y);
            assert_eq!(b(x).ge(b(y)), x >= y);
            assert_eq!(b(x).equals(b(y)), x == y);
        }
    }
}

#[test]
fn truncation_matches_the_cast() {
    let v = samples();
    for &x in &v {
        assert_eq!(b(x).to_i32(), x as i32, "{:?}", x);
    }
    let more: Vec<f32> = vec![
        2147483648.0,
        -2147483648.0,
        2147483520.0,
        -2147483904.0,
        0.99999994,
        -0.99999994,
        1.9999999,
        255.99,
        127.5,
        -127.5,
        4294967296.0,
    ];
    for &x in &more {
        assert_eq!(b(x).to_i32(), x as i32, "{:?}", x);
    }
}

#[test]
fn whole_numbers_convert_as_the_cast_does() {
    let mut v: u32 = 0;
    let mut step: u32 = 1;
    while v < 0xffff_0000 {
        assert!(same(Binary32::from_u32(v), v as f32), "{}", v);
        v += step;
        step = step + step / 3 + 1;
    }
    assert!(same(Binary32::from_u32(u32::MAX), u32::MAX as f32));
    assert!(same(Binary32::from_u32(16777217), 16777217u32 as f32));
    assert!(same(Binary32::from_u32(16777219), 16777219u32 as f32));
}

#[test]
fn negation_flips_the_sign() {
    let v = samples();
    for &x in &v {
        assert!(same(-b(x), -x));
    }
}

#[test]
fn patterns_are_classified_as_the_format_says() {
    assert_eq!(Binary32::zero().to_bits(), 0);
    assert_eq!(f(Binary32::one()), 1.0);
    let v = samples();
    for &x in &v {
        assert_eq!(b(x).nan_test(), x.is_nan());
        assert_eq!(b(x).is_sign_negative(), x.is_sign_negative());
        assert_eq!(b(x).magnitude_bits(), x.abs().to_bits());
        assert_eq!(b(x).to_bits(), x.to_bits());
    }
    assert!(b(f32::NAN).nan_test());
    assert!(!b(f32::INFINITY).nan_test());
    assert!(b(-0.0).is_sign_negative());
    assert!(b(-0.0).equals(b(0.0)));
    assert!(b(-0.0) != b(0.0));
}

#[test]
fn ties_go_to_the_even_neighbour() {
    // 2^24 + 1 lies halfway between two numbers; the even one is 2^24.
    assert_eq!(f(Binary32::from_u32(16777217)), 16777216.0);
    // 2^24 + 3 lies halfway too; the even one is 2^24 + 4.
    assert_eq!(f(Binary32::from_u32(16777219)), 16777220.0);
    assert_eq!(f(b(16777216.0) + b(1.0)), 16777216.0);
    assert_eq!(f(b(16777218.0) + b(1.0)), 16777220.0);
    // half of the smallest number rounds to zero, three halves of it to two of it
    let least = f32::from_bits(1);
    assert_eq!((b(least) * b(0.5)).to_bits(), 0);
    assert_eq!((b(least) * b(1.5)).to_bits(), 2);
    assert_eq!((b(least) / b(2.0)).to_bits(), 0);
    // beyond the largest number lies infinity
    assert_eq!(f(b(f32::MAX) + b(f32::MAX)), f32::INFINITY);
    assert_eq!(f(b(f32::MAX) * b(2.0)), f32::INFINITY);
    assert_eq!(f(b(f32::MAX) + b(1.0)), f32::MAX);
    assert_eq!(f(b(1.0) / b(0.0)), f32::INFINITY);
    assert_eq!(f(b(-1.0) / b(0.0)), f32::NEG_INFINITY);
    assert!(f(b(0.0) / b(0.0)).is_nan());
    assert!(f(b(f32::INFINITY) - b(f32::INFINITY)).is_nan());
    assert!(f(b(-1.0).sqrt()).is_nan());
    assert_eq!(b(-0.0).sqrt().to_bits(), (-0.0f32).to_bits());
    assert_eq!(f(b(2.0).sqrt()), 1.4142135);
}

#[test]
fn sums_of_zeros_keep_the_sign_the_format_gives() {
    assert_eq!((b(0.0) + b(-0.0)).to_bits(), 0);
    assert_eq!((b(-0.0) + b(-0.0)).to_bits(), (-0.0f32).to_bits());
    assert_eq!((b(1.5) - b(1.5)).to_bits(), 0);
    assert_eq!((b(-1.5) + b(1.5)).to_bits(), 0);
    assert_eq!((b(-0.0) * b(3.0)).to_bits(), (-0.0f32).to_bits());
}

#[test]
fn root_of_a_square_is_the_number_between_the_limits_of_the_squares() {
    let mut state: u32 = 577215;
    let mut k = -63;
    while k <= 62 {
        for _ in 0..200 {
            state = state.wrapping_mul(1664525).wrapping_add(1013904223);
            let x = (1.0 + (state >> 9) as f32 / 8388608.0) * (k as f32).exp2();
            assert_eq!((b(x) * b(x)).sqrt().to_bits(), x.to_bits());
        }
        k += 1;
    }
    for x in [(-63.0f32).exp2(), 63.0f32.exp2(), 1.0, 1.9999999, 3.0e-19] {
        assert_eq!((b(x) * b(x)).sqrt().to_bits(), x.to_bits());
    }
    // Below the limit the square fades, and the root is not the number.
    let faded = 1.673f32 * (-75.0f32).exp2();
    assert_ne!((b(faded) * b(faded)).sqrt().to_bits(), faded.to_bits());
}

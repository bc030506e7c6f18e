use pathtracer::binary32::Binary32;
use pathtracer::ppm::Pixel;
use pathtracer::ray::Ray;
use pathtracer::vec3f::Vec3f32;

fn b(x: f32) -> Binary32 {
    Binary32::from_bits(x.to_bits())
}

fn f(x: Binary32) -> f32 {
    f32::from_bits(x.to_bits())
}

fn v3(x: f32, y: f32, z: f32) -> Vec3f32 {
    Vec3f32::new_from_points(b(x), b(y), b(z))
}

fn arr(v: Vec3f32) -> [f32; 3] {
    [f(v.x), f(v.y), f(v.z)]
}

/// The patterns of three numbers, with every NaN shown as the same one.
fn bits(v: [f32; 3]) -> [u32; 3] {
    v.map(|x| if x.is_nan() { 0x7fc0_0000 } else { x.to_bits() })
}

fn samples() -> Vec<[f32; 3]> {
    let mut out: Vec<[f32; 3]> = vec![
        [1.0, 0.0, 0.0],
        [0.0, 1.0, 0.0],
        [0.0, 0.0, 1.0],
        [1.0, 2.0, 3.0],
        [-4.0, 5.5, 0.25],
        [13.0, 2.0, 3.0],
        [0.1, 0.2, 0.3],
        [-0.7, 0.7, 1.0e-3],
        [1000.0, -1000.0, 0.5],
        [3.0e-20, 4.0e-20, 0.0],
    ];
    let mut state: u32 = 99;
    let mut i = 0;
    while i < 60 {
        let mut c = [0.0f32; 3];
        let mut k = 0;
        while k < 3 {
            state = state.wrapping_mul(1664525).wrapping_add(1013904223);
            c[k] = ((state >> 8) as f32 / 16777216.0 - 0.5) * 20.0;
            k += 1;
        }
        out.push(c);
        i += 1;
    }
    out
}

#[test]
fn zeroes_is_three_positive_zeros() {
    let z = Vec3f32::zeroes();
    assert_eq!(z.x.to_bits(), 0);
    assert_eq!(z.y.to_bits(), 0);
    assert_eq!(z.z.to_bits(), 0);
}

#[test]
fn new_from_points_keeps_the_components() {
    let v = v3(1.5, -2.0, 0.25);
    assert_eq!(arr(v), [1.5, -2.0, 0.25]);
}

#[test]
fn vector_operators_match_float_arithmetic() {
    let all = samples();
    for p in &all {
        for q in &all {
            let a = v3(p[0], p[1], p[2]);
            let c = v3(q[0], q[1], q[2]);
            assert_eq!(bits(arr(a + c)), bits([p[0] + q[0], p[1] + q[1], p[2] + q[2]]));
            assert_eq!(bits(arr(a - c)), bits([p[0] - q[0], p[1] - q[1], p[2] - q[2]]));
            assert_eq!(bits(arr(a * c)), bits([p[0] * q[0], p[1] * q[1], p[2] * q[2]]));
            let k = q[0];
            assert_eq!(bits(arr(a + b(k))), bits([p[0] + k, p[1] + k, p[2] + k]));
            assert_eq!(bits(arr(a - b(k))), bits([p[0] - k, p[1] - k, p[2] - k]));
            assert_eq!(bits(arr(a * b(k))), bits([p[0] * k, p[1] * k, p[2] * k]));
            assert_eq!(bits(arr(a / b(k))), bits([p[0] / k, p[1] / k, p[2] / k]));
        }
    }
}

#[test]
fn negation_turns_each_component() {
    let v = -v3(1.0, -2.0, 0.0);
    assert_eq!(bits(arr(v)), bits([-1.0, 2.0, -0.0]));
}

#[test]
fn mul_assign_scales_in_place() {
    let mut v = v3(1.0, -2.0, 0.5);
    v *= b(3.0);
    assert_eq!(arr(v), [3.0, -6.0, 1.5]);
    v *= v3(2.0, 0.5, 4.0);
    assert_eq!(arr(v), [6.0, -3.0, 6.0]);
}

#[test]
fn dot_product_sums_from_left_to_right() {
    let all = samples();
    for p in &all {
        for q in &all {
            let ours = v3(p[0], p[1], p[2]).dot_product(&v3(q[0], q[1], q[2]));
            let theirs = (p[0] * q[0]) + (p[1] * q[1]) + (p[2] * q[2]);
            assert_eq!(ours.to_bits(), theirs.to_bits());
        }
    }
    assert_eq!(f(v3(1.0, 2.0, 3.0).dot_product(&v3(4.0, -5.0, 6.0))), 12.0);
}

#[test]
fn cross_product_matches_its_formula() {
    let all = samples();
    for p in &all {
        for q in &all {
            let ours = v3(p[0], p[1], p[2]).cross_product(&v3(q[0], q[1], q[2]));
            let theirs = [
                p[1] * q[2] - p[2] * q[1],
                p[2] * q[0] - p[0] * q[2],
                p[0] * q[1] - p[1] * q[0],
            ];
            assert_eq!(bits(arr(ours)), bits(theirs));
        }
    }
    assert_eq!(arr(v3(1.0, 0.0, 0.0).cross_product(&v3(0.0, 1.0, 0.0))), [0.0, 0.0, 1.0]);
}

#[test]
fn cross_product_is_orthogonal_to_both_factors() {
    let all = samples();
    for p in &all {
        for q in &all {
            let a = v3(p[0], p[1], p[2]);
            let c = v3(q[0], q[1], q[2]);
            let x = a.cross_product(&c);
            let scale = f(a.length()) * f(c.length());
            let bound = 1.0e-5 * scale * (f(a.length()) + f(c.length())) + 1.0e-30;
            assert!(f(x.dot_product(&a)).abs() <= bound, "{:?} x {:?}", p, q);
            assert!(f(x.dot_product(&c)).abs() <= bound, "{:?} x {:?}", p, q);
        }
    }
    let x = v3(1.0, 2.0, 3.0).cross_product(&v3(-4.0, 5.0, 0.5));
    assert_eq!(f(x.dot_product(&v3(1.0, 2.0, 3.0))), 0.0);
    assert_eq!(f(x.dot_product(&v3(-4.0, 5.0, 0.5))), 0.0);
}

#[test]
fn norm_and_length_are_the_euclidean_norm() {
    let v = v3(3.0, 4.0, 12.0);
    assert_eq!(f(v.norm()), 13.0);
    assert_eq!(f(v.length()), 13.0);
    assert_eq!(f(v.squared_length()), 169.0);
    let all = samples();
    for p in &all {
        let ours = v3(p[0], p[1], p[2]);
        let squared = (p[0] * p[0]) + (p[1] * p[1]) + (p[2] * p[2]);
        assert_eq!(ours.squared_length().to_bits(), squared.to_bits());
        assert_eq!(ours.length().to_bits(), squared.sqrt().to_bits());
        assert_eq!(ours.norm().to_bits(), squared.sqrt().to_bits());
    }
}

#[test]
fn normalize_gives_unit_length() {
    let all = samples();
    for p in &all {
        let n = v3(p[0], p[1], p[2]).normalize();
        assert!((f(n.length()) - 1.0).abs() < 1.0e-5, "{:?}", p);
    }
}

#[test]
fn normalize_multiplies_by_the_inverse_length() {
    let all = samples();
    for p in &all {
        let n = v3(p[0], p[1], p[2]).normalize();
        let magnitude = ((p[0] * p[0]) + (p[1] * p[1]) + (p[2] * p[2])).sqrt();
        let inverse = 1.0 / magnitude;
        assert_eq!(bits(arr(n)), bits([p[0] * inverse, p[1] * inverse, p[2] * inverse]));
    }
    assert_eq!(arr(v3(0.0, 3.0, 4.0).normalize()), [0.0, 3.0 * (1.0f32 / 5.0), 4.0 * (1.0f32 / 5.0)]);
}

#[test]
fn normalize_leaves_the_zero_vector() {
    let n = Vec3f32::zeroes().normalize();
    assert_eq!(bits(arr(n)), [0, 0, 0]);
    let m = v3(-0.0, 0.0, -0.0).normalize();
    assert_eq!(bits(arr(m)), bits([-0.0, 0.0, -0.0]));
}

#[test]
fn unit_vector_divides_by_the_length() {
    let all = samples();
    for p in &all {
        let n = v3(p[0], p[1], p[2]).unit_vector();
        let magnitude = ((p[0] * p[0]) + (p[1] * p[1]) + (p[2] * p[2])).sqrt();
        assert_eq!(bits(arr(n)), bits([p[0] / magnitude, p[1] / magnitude, p[2] / magnitude]));
        assert!((f(n.length()) - 1.0).abs() < 1.0e-5);
    }
    let z = Vec3f32::zeroes().unit_vector();
    assert!(f(z.x).is_nan() && f(z.y).is_nan() && f(z.z).is_nan());
}

#[test]
fn as_pixel_cuts_off_towards_zero() {
    assert_eq!(v3(255.99, 0.99, 128.5).as_pixel(), Pixel { r: 255, g: 0, b: 128 });
    assert_eq!(v3(-1.5, 300.7, -0.2).as_pixel(), Pixel { r: -1, g: 300, b: 0 });
}

#[test]
fn write_vec_as_int_appends_one_line() {
    let mut out: Vec<u8> = Vec::new();
    v3(255.99, 0.0, 12.7).write_vec_as_int(&mut out);
    assert_eq!(out, b"255 0 12\n".to_vec());
    v3(-3.9, 1000000.0, 7.0).write_vec_as_int(&mut out);
    assert_eq!(out, b"255 0 12\n-3 1000000 7\n".to_vec());
}

#[test]
fn ray_zeroes_has_zero_origin_and_direction() {
    let mut r = Ray::zeroes();
    assert_eq!(r.origin(), Vec3f32::zeroes());
    assert_eq!(r.direction(), Vec3f32::zeroes());
}

#[test]
fn ray_keeps_origin_and_direction() {
    let a = v3(1.0, 2.0, 3.0);
    let d = v3(0.0, -1.0, 0.5);
    let mut r = Ray::new_from_vector(&a, &d);
    assert_eq!(r.origin(), a);
    assert_eq!(r.direction(), d);
    assert_eq!(r.origin(), a);
    assert_eq!(r.a, a);
    assert_eq!(r.b, d);
}

#[test]
fn point_at_parameter_walks_along_the_ray() {
    let r = Ray::new_from_vector(&v3(1.0, 2.0, 3.0), &v3(0.0, -1.0, 0.5));
    assert_eq!(arr(r.point_at_parameter(&b(2.0))), [1.0, 0.0, 4.0]);
    assert_eq!(arr(r.point_at_parameter(&b(0.0))), [1.0, 2.0, 3.0]);
    let all = samples();
    for p in &all {
        for q in &all {
            let ray = Ray::new_from_vector(&v3(p[0], p[1], p[2]), &v3(q[0], q[1], q[2]));
            let t = p[2] - q[1];
            let theirs = [p[0] + q[0] * t, p[1] + q[1] * t, p[2] + q[2] * t];
            assert_eq!(bits(arr(ray.point_at_parameter(&b(t)))), bits(theirs));
        }
    }
}

#[test]
fn cross_product_of_unit_cube_vectors_is_orthogonal_within_two_to_minus_sixteen() {
    let mut state: u32 = 31337;
    let mut next = move || {
        state = state.wrapping_mul(1664525).wrapping_add(1013904223);
        (state >> 8) as f32 / 8388608.0 - 1.0
    };
    let bound = 1.0f32 / 65536.0;
    let mut worst = 0.0f32;
    for _ in 0..5000 {
        let a = v3(next(), next(), next());
        let c = v3(next(), next(), next());
        let x = a.cross_product(&c);
        let da = f(x.dot_product(&a)).abs();
        let dc = f(x.dot_product(&c)).abs();
        assert!(da <= bound && dc <= bound);
        worst = worst.max(da).max(dc);
    }
    assert!(worst > 0.0);
}

#[test]
fn normalized_vectors_of_any_moderate_size_have_unit_length() {
    let mut state: u32 = 271828;
    let mut next = move || {
        state = state.wrapping_mul(1664525).wrapping_add(1013904223);
        (state >> 8) as f32 / 8388608.0 - 1.0
    };
    let mut scale = 1.0e-12f32;
    while scale < 1.0e12 {
        for _ in 0..40 {
            let v = v3(next() * scale, next() * scale, next() * scale);
            let l = f(v.normalize().length());
            assert!((l - 1.0).abs() <= 1.0e-5, "{:?}", arr(v));
        }
        scale *= 16.0;
    }
}

#[test]
fn normalized_vectors_have_unit_length_up_to_the_limits_of_the_squares() {
    let mut state: u32 = 161803;
    let mut next = move || {
        state = state.wrapping_mul(1664525).wrapping_add(1013904223);
        (state >> 8) as f32 / 8388608.0 - 1.0
    };
    // components up to 2^63 in size, the largest at least 2^-63
    let mut k = -62;
    while k <= 63 {
        let scale = (k as f32).exp2();
        for _ in 0..20 {
            let mut c = [next() * scale, next() * scale, next() * scale];
            c[0] = scale * if c[0] < 0.0 { -0.75 } else { 0.75 };
            let v = v3(c[0], c[1], c[2]);
            let l = f(v.normalize().length());
            assert!((l - 1.0).abs() <= 1.0e-5, "{:?}", c);
            let u = f(v.unit_vector().length());
            assert!((u - 1.0).abs() <= 1.0e-5, "{:?}", c);
        }
        k += 1;
    }
    // beyond them the squares run over or fade
    let huge = v3((100.0f32).exp2(), 0.0, 0.0);
    assert_eq!(arr(huge.normalize()), [0.0, 0.0, 0.0]);
    let tiny = v3((-100.0f32).exp2(), 0.0, 0.0);
    assert_eq!(arr(tiny.normalize()), arr(tiny));
}

#[test]
fn cross_product_is_orthogonal_within_four_parts_in_a_million_of_the_sizes() {
    let mut state: u32 = 161803;
    let mut next = move || {
        state = state.wrapping_mul(1664525).wrapping_add(1013904223);
        (state >> 8) as f32 / 8388608.0 - 1.0
    };
    let part = (-18.0f64).exp2();
    let mut worst = 0.0f64;
    let mut j = -40;
    while j <= 39 {
        let mut k = -40;
        while k <= 39 {
            let (sa, sc) = ((j as f32).exp2(), (k as f32).exp2());
            for _ in 0..20 {
                let p = [next() * sa, next() * sa, next() * sa];
                let q = [next() * sc, next() * sc, next() * sc];
                let x = v3(p[0], p[1], p[2]).cross_product(&v3(q[0], q[1], q[2]));
                let dp = f(x.dot_product(&v3(p[0], p[1], p[2]))).abs() as f64;
                let dq = f(x.dot_product(&v3(q[0], q[1], q[2]))).abs() as f64;
                let big_p = p.iter().fold(0.0f64, |m, c| m.max(c.abs() as f64));
                let big_q = q.iter().fold(0.0f64, |m, c| m.max(c.abs() as f64));
                assert!(dp <= part * (big_p * big_p * big_q).max(1.0));
                assert!(dq <= part * (big_p * big_q * big_q).max(1.0));
                let len_p = p.iter().map(|c| (*c as f64) * (*c as f64)).sum::<f64>().sqrt();
                let len_q = q.iter().map(|c| (*c as f64) * (*c as f64)).sum::<f64>().sqrt();
                assert!(dp <= 1.0e-5 * (len_p * len_p * len_q).max(1.0));
                assert!(dq <= 1.0e-5 * (len_p * len_q * len_q).max(1.0));
                if big_p * big_p * big_q > 0.0 {
                    worst = worst.max(dp / (big_p * big_p * big_q));
                }
            }
            k += 7;
        }
        j += 7;
    }
    assert!(worst > 0.0);
}

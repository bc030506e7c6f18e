use pathtracer::binary32::Binary32;
use pathtracer::ray::Ray;
use pathtracer::sampling::BounceSample;
use pathtracer::scatter::{
    fifth_power, reflect, scatter, scatter_dielectric, scatter_lambertian, scatter_metal, schlick,
};
use pathtracer::sphere::{HitRecord, Material};
use pathtracer::vec3f::Vec3f32;

fn b(x: f32) -> Binary32 {
    Binary32::from_bits(x.to_bits())
}

fn f(x: Binary32) -> f32 {
    f32::from_bits(x.to_bits())
}

fn v3(v: [f32; 3]) -> Vec3f32 {
    Vec3f32::new_from_points(b(v[0]), b(v[1]), b(v[2]))
}

fn arr(v: Vec3f32) -> [f32; 3] {
    [f(v.x), f(v.y), f(v.z)]
}

fn bits(v: [f32; 3]) -> [u32; 3] {
    v.map(|x| if x.is_nan() { 0x7fc0_0000 } else { x.to_bits() })
}

fn dot(a: [f32; 3], c: [f32; 3]) -> f32 {
    (a[0] * c[0]) + (a[1] * c[1]) + (a[2] * c[2])
}

fn length(a: [f32; 3]) -> f32 {
    dot(a, a).sqrt()
}

fn unit(a: [f32; 3]) -> [f32; 3] {
    let l = length(a);
    [a[0] / l, a[1] / l, a[2] / l]
}

fn scale(a: [f32; 3], k: f32) -> [f32; 3] {
    [a[0] * k, a[1] * k, a[2] * k]
}

fn sub(a: [f32; 3], c: [f32; 3]) -> [f32; 3] {
    [a[0] - c[0], a[1] - c[1], a[2] - c[2]]
}

fn add(a: [f32; 3], c: [f32; 3]) -> [f32; 3] {
    [a[0] + c[0], a[1] + c[1], a[2] + c[2]]
}

fn reference_reflect(v: [f32; 3], n: [f32; 3]) -> [f32; 3] {
    sub(v, scale(scale(n, 2.0), dot(v, n)))
}

/// Glass, written with the machine's own arithmetic.
fn reference_dielectric(refraction: f32, d: [f32; 3], n: [f32; 3], draw: f32) -> [f32; 3] {
    let unit_direction = unit(d);
    let reflected = reference_reflect(unit_direction, n);
    let outward_normal: [f32; 3];
    let ni_over_nt: f32;
    let cosine: f32;
    if dot(d, n) > 0.0 {
        outward_normal = [-n[0], -n[1], -n[2]];
        ni_over_nt = refraction;
        cosine = ni_over_nt * dot(d, n) / length(d);
    } else {
        outward_normal = n;
        ni_over_nt = 1.0 / refraction;
        cosine = -dot(d, n) / length(d);
    }
    let dt = dot(unit_direction, outward_normal);
    let discriminant = 1.0 - ni_over_nt * ni_over_nt * (1.0 - dt * dt);
    let mut refracted = [0.0f32; 3];
    let reflect_prob: f32;
    if discriminant > 0.0 {
        refracted = sub(
            scale(sub(unit_direction, scale(outward_normal, dt)), ni_over_nt),
            scale(outward_normal, discriminant.sqrt()),
        );
        let mut r0 = (1.0 - refraction) / (1.0 + refraction);
        r0 = r0 * r0;
        let x = 1.0 - cosine;
        let square = x * x;
        reflect_prob = r0 + (1.0 - r0) * (square * square * x);
    } else {
        reflect_prob = 1.0;
    }
    if draw < reflect_prob {
        reflected
    } else {
        refracted
    }
}

fn record(p: [f32; 3], n: [f32; 3]) -> HitRecord {
    HitRecord { t: b(1.0), p: v3(p), normal: v3(n) }
}

fn sample(point: [f32; 3], draw: f32) -> BounceSample {
    BounceSample { point: v3(point), draw: b(draw) }
}

fn noise(count: usize, seed: u32) -> Vec<f32> {
    let mut state = seed;
    let mut out = Vec::new();
    let mut i = 0;
    while i < count {
        state = state.wrapping_mul(1664525).wrapping_add(1013904223);
        out.push((state >> 8) as f32 / 16777216.0);
        i += 1;
    }
    out
}

#[test]
fn lambertian_attenuation_is_the_albedo() {
    let draws = noise(300, 5);
    let mut i = 0;
    while i + 9 <= draws.len() {
        let albedo = [draws[i], draws[i + 1], draws[i + 2]];
        let n = unit([draws[i + 3] - 0.5, draws[i + 4] - 0.5, draws[i + 5] - 0.5]);
        let point = scale([draws[i + 6] - 0.5, draws[i + 7] - 0.5, draws[i + 8] - 0.5], 1.1);
        let rec = record([1.0, 2.0, 3.0], n);
        let s = scatter_lambertian(&v3(albedo), &rec, &sample(point, 0.5));
        assert_eq!(bits(arr(s.attenuation)), bits(albedo));
        assert!(s.proceed);
        assert_eq!(arr(s.scattered.a), [1.0, 2.0, 3.0]);
        assert_eq!(bits(arr(s.scattered.b)), bits(add(n, point)));
        i += 9;
    }
}

#[test]
fn reflect_mirrors_at_the_surface() {
    let r = reflect(&v3([1.0, -1.0, 0.0]), &v3([0.0, 1.0, 0.0]));
    assert_eq!(arr(r), [1.0, 1.0, 0.0]);
    let draws = noise(600, 11);
    let mut i = 0;
    while i + 6 <= draws.len() {
        let v = [draws[i] - 0.5, draws[i + 1] - 0.5, draws[i + 2] - 0.5];
        let n = unit([draws[i + 3] - 0.5, draws[i + 4] - 0.5, draws[i + 5] - 0.5]);
        let ours = reflect(&v3(v), &v3(n));
        assert_eq!(bits(arr(ours)), bits(reference_reflect(v, n)));
        i += 6;
    }
}

#[test]
fn smooth_metal_is_a_perfect_mirror() {
    let draws = noise(900, 17);
    let mut i = 0;
    while i + 9 <= draws.len() {
        let d = [draws[i] - 0.5, draws[i + 1] - 0.5, draws[i + 2] - 0.5];
        let n = unit([draws[i + 3] - 0.5, draws[i + 4] - 0.5, draws[i + 5] - 0.5]);
        let point = [draws[i + 6] - 0.5, draws[i + 7] - 0.5, draws[i + 8] - 0.5];
        let r_in = Ray::new_from_vector(&v3([0.0, 0.0, 0.0]), &v3(d));
        let rec = record([0.5, 0.5, 0.5], n);
        let albedo = [0.8, 0.6, 0.5];
        let s = scatter_metal(&v3(albedo), b(0.0), &r_in, &rec, &sample(point, 0.3));
        let incoming = unit(d);
        let out = arr(s.scattered.b);
        assert!((dot(out, n) - dot([-incoming[0], -incoming[1], -incoming[2]], n)).abs() < 1.0e-5);
        assert!((length(out) - 1.0).abs() < 1.0e-5);
        assert_eq!(bits(arr(s.attenuation)), bits(albedo));
        assert_eq!(s.proceed, dot(out, n) > 0.0);
        i += 9;
    }
}

#[test]
fn metal_follows_its_formula() {
    let draws = noise(1000, 23);
    let mut absorbed = 0;
    let mut went_on = 0;
    let mut i = 0;
    while i + 10 <= draws.len() {
        let d = [draws[i] - 0.5, draws[i + 1] - 0.5, draws[i + 2] - 0.5];
        let n = unit([draws[i + 3] - 0.5, draws[i + 4] - 0.5, draws[i + 5] - 0.5]);
        let point = [draws[i + 6] - 0.5, draws[i + 7] - 0.5, draws[i + 8] - 0.5];
        let fuzz = draws[i + 9];
        let r_in = Ray::new_from_vector(&v3([0.0, 0.0, 0.0]), &v3(d));
        let rec = record([0.5, 0.5, 0.5], n);
        let s = scatter_metal(&v3([0.8, 0.6, 0.5]), b(fuzz), &r_in, &rec, &sample(point, 0.3));
        let direction = add(reference_reflect(unit(d), n), scale(point, fuzz));
        assert_eq!(bits(arr(s.scattered.b)), bits(direction));
        assert_eq!(arr(s.scattered.a), [0.5, 0.5, 0.5]);
        assert_eq!(s.proceed, dot(direction, n) > 0.0);
        if s.proceed {
            went_on += 1;
        } else {
            absorbed += 1;
        }
        i += 10;
    }
    assert!(absorbed > 0 && went_on > 0);
}

#[test]
fn fifth_power_multiplies_five_times() {
    assert_eq!(f(fifth_power(b(2.0))), 32.0);
    assert_eq!(f(fifth_power(b(-3.0))), -243.0);
    for &x in &noise(200, 3) {
        assert!((f(fifth_power(b(x))) - x.powi(5)).abs() <= 1.0e-6 * x.powi(5).abs());
    }
}

#[test]
fn schlick_matches_its_formula() {
    // Straight on, glass of index 1.5 reflects ((1 - 1.5) / (1 + 1.5))^2 = 0.04.
    let ratio = (1.0f32 - 1.5) / (1.0 + 1.5);
    assert_eq!(f(schlick(b(1.0), b(1.5))), ratio * ratio);
    assert!((f(schlick(b(1.0), b(1.5))) - 0.04).abs() < 1.0e-7);
    // At a grazing angle everything is reflected.
    assert_eq!(f(schlick(b(0.0), b(1.5))), 1.0);
    for &c in &noise(100, 8) {
        let mut r0 = (1.0f32 - 1.5) / (1.0 + 1.5);
        r0 = r0 * r0;
        let x = 1.0 - c;
        let square = x * x;
        let expected = r0 + (1.0 - r0) * (square * square * x);
        assert_eq!(f(schlick(b(c), b(1.5))).to_bits(), expected.to_bits());
    }
}

#[test]
fn glass_follows_its_formula() {
    let draws = noise(4000, 31);
    let mut reflected = 0;
    let mut refracted = 0;
    let mut i = 0;
    while i + 8 <= draws.len() {
        let d = [draws[i] - 0.5, draws[i + 1] - 0.5, draws[i + 2] - 0.5];
        let n = unit([draws[i + 3] - 0.5, draws[i + 4] - 0.5, draws[i + 5] - 0.5]);
        let refraction = 1.0 + draws[i + 6];
        let draw = draws[i + 7];
        let r_in = Ray::new_from_vector(&v3([0.0, 0.0, 0.0]), &v3(d));
        let rec = record([0.5, 0.5, 0.5], n);
        let s = scatter_dielectric(b(refraction), &r_in, &rec, &sample([0.0, 0.0, 0.0], draw));
        let expected = reference_dielectric(refraction, d, n, draw);
        assert_eq!(bits(arr(s.scattered.b)), bits(expected));
        assert_eq!(arr(s.attenuation), [1.0, 1.0, 1.0]);
        assert!(s.proceed);
        assert_eq!(arr(s.scattered.a), [0.5, 0.5, 0.5]);
        if bits(expected) == bits(reference_reflect(unit(d), n)) {
            reflected += 1;
        } else {
            refracted += 1;
        }
        i += 8;
    }
    assert!(reflected > 10 && refracted > 10);
}

#[test]
fn glass_lets_a_ray_straight_through() {
    let r_in = Ray::new_from_vector(&v3([0.0, 0.0, 1.0]), &v3([0.0, 0.0, -1.0]));
    let rec = record([0.0, 0.0, 0.0], [0.0, 0.0, 1.0]);
    // straight on the chance of reflection is 0.04, so a draw of 0.5 refracts
    let s = scatter_dielectric(b(1.5), &r_in, &rec, &sample([0.0, 0.0, 0.0], 0.5));
    assert_eq!(arr(s.scattered.b), [0.0, 0.0, -1.0]);
    // and a draw of 0.01 reflects
    let back = scatter_dielectric(b(1.5), &r_in, &rec, &sample([0.0, 0.0, 0.0], 0.01));
    assert_eq!(arr(back.scattered.b), [0.0, 0.0, 1.0]);
}

#[test]
fn total_internal_reflection_always_reflects() {
    // Leaving glass of index 1.5 at a flat angle: refraction is impossible.
    let d = [1.0f32, 0.0, 0.2];
    let n = [0.0f32, 0.0, 1.0];
    let r_in = Ray::new_from_vector(&v3([0.0, 0.0, 0.0]), &v3(d));
    let rec = record([0.0, 0.0, 0.0], n);
    let mirror = reference_reflect(unit(d), n);
    let mut draws = noise(500, 77);
    draws.push(0.0);
    draws.push(0.99999994);
    for &draw in &draws {
        let s = scatter_dielectric(b(1.5), &r_in, &rec, &sample([0.0, 0.0, 0.0], draw));
        assert_eq!(bits(arr(s.scattered.b)), bits(mirror));
        assert!(s.proceed);
    }
}

#[test]
fn scatter_goes_by_the_material() {
    let r_in = Ray::new_from_vector(&v3([0.0, 0.0, 1.0]), &v3([0.3, -0.2, -1.0]));
    let rec = record([0.1, 0.2, 0.0], [0.0, 0.0, 1.0]);
    let chance = sample([0.1, -0.3, 0.2], 0.6);
    let albedo = v3([0.4, 0.2, 0.1]);
    let diffuse = scatter(&Material::Lambertian { albedo }, &r_in, &rec, &chance);
    assert_eq!(diffuse, scatter_lambertian(&albedo, &rec, &chance));
    assert_eq!(diffuse.attenuation, albedo);
    let metal = scatter(&Material::Metal { albedo, fuzz: b(0.3) }, &r_in, &rec, &chance);
    assert_eq!(metal, scatter_metal(&albedo, b(0.3), &r_in, &rec, &chance));
    let glass = scatter(&Material::Dielectric { refractive_index: b(1.5) }, &r_in, &rec, &chance);
    assert_eq!(glass, scatter_dielectric(b(1.5), &r_in, &rec, &chance));
    assert_eq!(arr(glass.attenuation), [1.0, 1.0, 1.0]);
}

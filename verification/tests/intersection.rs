use pathtracer::binary32::Binary32;
use pathtracer::ray::Ray;
use pathtracer::sphere::{closest_hit, hit_sphere, HitRecord, Material, Sphere};
use pathtracer::vec3f::Vec3f32;

fn b(x: f32) -> Binary32 {
    Binary32::from_bits(x.to_bits())
}

fn f(x: Binary32) -> f32 {
    f32::from_bits(x.to_bits())
}

fn v3(x: f32, y: f32, z: f32) -> Vec3f32 {
    Vec3f32::new_from_points(b(x), b(y), b(z))
}

fn arr(v: Vec3f32) -> [f32; 3] {
    [f(v.x), f(v.y), f(v.z)]
}

fn ray(o: [f32; 3], d: [f32; 3]) -> Ray {
    Ray::new_from_vector(&v3(o[0], o[1], o[2]), &v3(d[0], d[1], d[2]))
}

fn grey(center: [f32; 3], radius: f32) -> Sphere {
    Sphere {
        center: v3(center[0], center[1], center[2]),
        radius: b(radius),
        material: Material::Lambertian { albedo: v3(0.5, 0.5, 0.5) },
    }
}

fn dot(a: [f32; 3], c: [f32; 3]) -> f32 {
    (a[0] * c[0]) + (a[1] * c[1]) + (a[2] * c[2])
}

/// The intersection written with the machine's own arithmetic.
fn reference_hit(
    center: [f32; 3],
    radius: f32,
    o: [f32; 3],
    d: [f32; 3],
    tmin: f32,
    tmax: f32,
) -> Option<(f32, [f32; 3], [f32; 3])> {
    let oc = [o[0] - center[0], o[1] - center[1], o[2] - center[2]];
    let a = dot(d, d);
    let bb = dot(oc, d);
    let c = dot(oc, oc) - radius * radius;
    let discriminant = bb * bb - a * c;
    if discriminant > 0.0 {
        let mut temp = (-bb - discriminant.sqrt()) / a;
        if temp < tmax && temp > tmin {
            let p = [o[0] + d[0] * temp, o[1] + d[1] * temp, o[2] + d[2] * temp];
            let n = [
                (p[0] - center[0]) / radius,
                (p[1] - center[1]) / radius,
                (p[2] - center[2]) / radius,
            ];
            return Some((temp, p, n));
        }
        temp = (-bb + discriminant.sqrt()) / a;
        if temp < tmax && temp > tmin {
            let p = [o[0] + d[0] * temp, o[1] + d[1] * temp, o[2] + d[2] * temp];
            let n = [
                (p[0] - center[0]) / radius,
                (p[1] - center[1]) / radius,
                (p[2] - center[2]) / radius,
            ];
            return Some((temp, p, n));
        }
    }
    None
}

fn same_hit(ours: Option<HitRecord>, theirs: Option<(f32, [f32; 3], [f32; 3])>) -> bool {
    match (ours, theirs) {
        (None, None) => true,
        (Some(rec), Some((t, p, n))) => {
            rec.t.to_bits() == t.to_bits()
                && arr(rec.p).map(|x| x.to_bits()) == p.map(|x| x.to_bits())
                && arr(rec.normal).map(|x| x.to_bits()) == n.map(|x| x.to_bits())
        }
        _ => false,
    }
}

#[test]
fn ray_aimed_at_the_centre_hits_at_distance_less_radius() {
    let hit = hit_sphere(
        &v3(0.0, 0.0, -5.0),
        b(1.0),
        &ray([0.0, 0.0, 0.0], [0.0, 0.0, -1.0]),
        b(0.001),
        b(f32::MAX),
    );
    let rec = hit.expect("the ray meets the sphere");
    assert_eq!(f(rec.t), 4.0);
    assert_eq!(arr(rec.p), [0.0, 0.0, -4.0]);
    assert_eq!(arr(rec.normal), [0.0, 0.0, 1.0]);
}

#[test]
fn ray_aimed_at_the_centre_from_any_side() {
    let centers: [[f32; 3]; 4] =
        [[3.0, 4.0, 0.0], [-6.0, 0.0, 8.0], [0.0, -2.0, 0.0], [1.0, 2.0, 2.0]];
    for c in &centers {
        let distance = dot(*c, *c).sqrt();
        let d = [c[0] / distance, c[1] / distance, c[2] / distance];
        let radius = 0.5f32;
        let hit = hit_sphere(
            &v3(c[0], c[1], c[2]),
            b(radius),
            &ray([0.0, 0.0, 0.0], d),
            b(0.001),
            b(f32::MAX),
        );
        let rec = hit.expect("the ray meets the sphere");
        assert!((f(rec.t) - (distance - radius)).abs() < 1.0e-5);
    }
}

#[test]
fn direction_need_not_have_unit_length() {
    let hit = hit_sphere(
        &v3(0.0, 0.0, -5.0),
        b(1.0),
        &ray([0.0, 0.0, 0.0], [0.0, 0.0, -2.0]),
        b(0.001),
        b(f32::MAX),
    );
    let rec = hit.expect("the ray meets the sphere");
    assert_eq!(f(rec.t), 2.0);
    assert_eq!(arr(rec.p), [0.0, 0.0, -4.0]);
}

#[test]
fn ray_aimed_away_misses() {
    let hit = hit_sphere(
        &v3(0.0, 0.0, -5.0),
        b(1.0),
        &ray([0.0, 0.0, 0.0], [0.0, 0.0, 1.0]),
        b(0.001),
        b(f32::MAX),
    );
    assert_eq!(hit, None);
    let side = hit_sphere(
        &v3(0.0, 0.0, -5.0),
        b(1.0),
        &ray([0.0, 0.0, 0.0], [1.0, 0.0, 0.0]),
        b(0.001),
        b(f32::MAX),
    );
    assert_eq!(side, None);
}

#[test]
fn tangent_ray_misses() {
    // The ray x = 1 grazes the unit sphere: the discriminant is exactly zero.
    let hit = hit_sphere(
        &v3(0.0, 0.0, -5.0),
        b(1.0),
        &ray([1.0, 0.0, 0.0], [0.0, 0.0, -1.0]),
        b(0.001),
        b(f32::MAX),
    );
    assert_eq!(hit, None);
    let inside = hit_sphere(
        &v3(0.0, 0.0, -5.0),
        b(1.0),
        &ray([0.999, 0.0, 0.0], [0.0, 0.0, -1.0]),
        b(0.001),
        b(f32::MAX),
    );
    assert!(inside.is_some());
}

#[test]
fn near_root_out_of_range_gives_the_far_root() {
    // From inside the sphere the smaller solution lies behind the ray.
    let hit = hit_sphere(
        &v3(0.0, 0.0, 0.0),
        b(2.0),
        &ray([0.0, 0.0, 0.0], [0.0, 1.0, 0.0]),
        b(0.001),
        b(f32::MAX),
    );
    let rec = hit.expect("the ray leaves the sphere");
    assert_eq!(f(rec.t), 2.0);
    assert_eq!(arr(rec.normal), [0.0, 1.0, 0.0]);
}

#[test]
fn range_ends_are_excluded() {
    let c = v3(0.0, 0.0, -5.0);
    let r = ray([0.0, 0.0, 0.0], [0.0, 0.0, -1.0]);
    assert_eq!(hit_sphere(&c, b(1.0), &r, b(0.001), b(4.0)), None);
    assert_eq!(f(hit_sphere(&c, b(1.0), &r, b(4.0), b(10.0)).unwrap().t), 6.0);
    assert_eq!(hit_sphere(&c, b(1.0), &r, b(4.0), b(6.0)), None);
    assert_eq!(hit_sphere(&c, b(1.0), &r, b(6.0), b(f32::MAX)), None);
}

#[test]
fn negative_radius_turns_the_normal_inwards() {
    let hit = hit_sphere(
        &v3(0.0, 0.0, -5.0),
        b(-1.0),
        &ray([0.0, 0.0, 0.0], [0.0, 0.0, -1.0]),
        b(0.001),
        b(f32::MAX),
    );
    let rec = hit.expect("the ray meets the sphere");
    assert_eq!(f(rec.t), 4.0);
    assert_eq!(arr(rec.normal), [-0.0, -0.0, -1.0]);
}

#[test]
fn hits_match_float_arithmetic() {
    let mut state: u32 = 7;
    let mut next = move || {
        state = state.wrapping_mul(1664525).wrapping_add(1013904223);
        ((state >> 8) as f32 / 16777216.0 - 0.5) * 8.0
    };
    let mut hits = 0;
    let mut i = 0;
    while i < 3000 {
        let center = [next(), next(), next()];
        let radius = next() * 0.5;
        let o = [next(), next(), next()];
        let d = [
            center[0] - o[0] + next() * 0.2,
            center[1] - o[1] + next() * 0.2,
            center[2] - o[2] + next() * 0.2,
        ];
        let ours =
            hit_sphere(&v3(center[0], center[1], center[2]), b(radius), &ray(o, d), b(0.001), b(f32::MAX));
        let theirs = reference_hit(center, radius, o, d, 0.001, f32::MAX);
        if theirs.is_some() {
            hits += 1;
        }
        assert!(same_hit(ours, theirs));
        i += 1;
    }
    assert!(hits > 100);
}

#[test]
fn empty_scene_has_no_hit() {
    let spheres: Vec<Sphere> = Vec::new();
    let hit = closest_hit(&ray([0.0, 0.0, 0.0], [0.0, 0.0, -1.0]), &spheres, b(0.001), b(f32::MAX));
    assert_eq!(hit, None);
}

#[test]
fn closest_hit_is_the_nearest_whatever_the_order() {
    let near = grey([0.0, 0.0, -3.0], 1.0);
    let far = grey([0.0, 0.0, -10.0], 1.0);
    let aside = grey([50.0, 0.0, -3.0], 1.0);
    let r = ray([0.0, 0.0, 0.0], [0.0, 0.0, -1.0]);
    let first = closest_hit(&r, &vec![near, far, aside], b(0.001), b(f32::MAX));
    let (i, rec) = first.expect("the ray meets a sphere");
    assert_eq!(i, 0);
    assert_eq!(f(rec.t), 2.0);
    let second = closest_hit(&r, &vec![aside, far, near], b(0.001), b(f32::MAX));
    let (k, rec2) = second.expect("the ray meets a sphere");
    assert_eq!(k, 2);
    assert_eq!(f(rec2.t), 2.0);
    assert_eq!(rec2, rec);
}

#[test]
fn closest_hit_respects_the_range() {
    let near = grey([0.0, 0.0, -3.0], 1.0);
    let far = grey([0.0, 0.0, -10.0], 1.0);
    let r = ray([0.0, 0.0, 0.0], [0.0, 0.0, -1.0]);
    let hit = closest_hit(&r, &vec![near, far], b(5.0), b(f32::MAX));
    let (i, rec) = hit.expect("the ray meets the far sphere");
    assert_eq!(i, 1);
    assert_eq!(f(rec.t), 9.0);
    assert_eq!(closest_hit(&r, &vec![near, far], b(0.001), b(1.5)), None);
}

#[test]
fn closest_hit_matches_a_scan_in_float_arithmetic() {
    let mut state: u32 = 4242;
    let mut next = move || {
        state = state.wrapping_mul(1664525).wrapping_add(1013904223);
        ((state >> 8) as f32 / 16777216.0 - 0.5) * 10.0
    };
    let mut scene: Vec<Sphere> = Vec::new();
    let mut plain: Vec<([f32; 3], f32)> = Vec::new();
    let mut i = 0;
    while i < 12 {
        let c = [next(), next(), next()];
        let radius = next().abs() * 0.3 + 0.1;
        scene.push(grey(c, radius));
        plain.push((c, radius));
        i += 1;
    }
    let mut found = 0;
    let mut k = 0;
    while k < 400 {
        let o = [next(), next(), next()];
        let d = [next(), next(), next()];
        let mut best: Option<(usize, (f32, [f32; 3], [f32; 3]))> = None;
        let mut closest = f32::MAX;
        for (n, s) in plain.iter().enumerate() {
            if let Some(h) = reference_hit(s.0, s.1, o, d, 0.001, closest) {
                closest = h.0;
                best = Some((n, h));
            }
        }
        let ours = closest_hit(&ray(o, d), &scene, b(0.001), b(f32::MAX));
        match (ours, best) {
            (None, None) => {}
            (Some((n, rec)), Some((m, h))) => {
                found += 1;
                assert_eq!(n, m);
                assert!(same_hit(Some(rec), Some(h)));
            }
            _ => panic!("the scans disagree"),
        }
        k += 1;
    }
    assert!(found > 20);
}

#[test]
fn rays_that_point_away_from_a_sphere_miss_it() {
    let mut state: u32 = 8086;
    let mut next = move || {
        state = state.wrapping_mul(1664525).wrapping_add(1013904223);
        ((state >> 8) as f32 / 16777216.0 - 0.5) * 8.0
    };
    let mut tried = 0;
    let mut i = 0;
    while i < 20000 {
        let center = [next(), next(), next()];
        let radius = next() * 0.25;
        let o = [next(), next(), next()];
        let d = [next(), next(), next()];
        let oc = [o[0] - center[0], o[1] - center[1], o[2] - center[2]];
        let along = dot(oc, d);
        let outside = dot(oc, oc) - radius * radius;
        if along >= 0.0 && outside >= 0.0 {
            tried += 1;
            let hit = hit_sphere(
                &v3(center[0], center[1], center[2]),
                b(radius),
                &ray(o, d),
                b(0.0),
                b(f32::MAX),
            );
            assert_eq!(hit, None);
        }
        i += 1;
    }
    assert!(tried > 5000);
    // all of a scene
    let scene = vec![grey([0.0, 0.0, -3.0], 1.0), grey([2.0, 0.0, -3.0], 0.5), grey([0.0, 5.0, 0.0], 2.0)];
    let away = ray([0.0, 0.0, 0.0], [0.0, -1.0, 1.0]);
    assert_eq!(closest_hit(&away, &scene, b(0.001), b(f32::MAX)), None);
}

#[test]
fn small_far_sphere_is_lost_in_rounding() {
    // Aimed at the centre of a sphere of radius 1 at distance 10000 along a
    // unit direction: the squared radius is less than half a step of the
    // squared distance, so the discriminant rounds to zero and the ray is
    // taken to miss. Nearer by, the same sphere is hit at distance less radius.
    let far = hit_sphere(
        &v3(0.0, 0.0, -10000.0),
        b(1.0),
        &ray([0.0, 0.0, 0.0], [0.0, 0.0, -1.0]),
        b(0.001),
        b(f32::MAX),
    );
    assert_eq!(far, None);
    assert!(same_hit(
        far,
        reference_hit([0.0, 0.0, -10000.0], 1.0, [0.0, 0.0, 0.0], [0.0, 0.0, -1.0], 0.001, f32::MAX)
    ));
    let near = hit_sphere(
        &v3(0.0, 0.0, -100.0),
        b(1.0),
        &ray([0.0, 0.0, 0.0], [0.0, 0.0, -1.0]),
        b(0.001),
        b(f32::MAX),
    );
    assert_eq!(f(near.expect("the ray meets the sphere").t), 99.0);
}

#[test]
fn ray_aimed_at_the_centre_hits_short_of_it_by_the_radius() {
    let mut state: u32 = 141421;
    let mut next = move || {
        state = state.wrapping_mul(1664525).wrapping_add(1013904223);
        (state >> 8) as f32 / 16777216.0
    };
    let mut worst = 0.0f64;
    let mut k = -20;
    while k <= 29 {
        for _ in 0..40 {
            let size = (k as f32).exp2();
            let origin = [
                (next() - 0.5) * size,
                (next() - 0.5) * size,
                (next() - 0.5) * size,
            ];
            let offset = [(next() - 0.5) * size, (next() - 0.5) * size, size];
            let center = [origin[0] + offset[0], origin[1] + offset[1], origin[2] + offset[2]];
            let direction =
                [center[0] - origin[0], center[1] - origin[1], center[2] - origin[2]];
            let distance = direction
                .iter()
                .map(|c| (*c as f64) * (*c as f64))
                .sum::<f64>()
                .sqrt();
            let radius = (distance * (0.25 + 0.25 * next() as f64)) as f32;
            if (radius as f64) * 2.0 > distance || (radius as f64) * 4.0 < distance {
                continue;
            }
            let hit = hit_sphere(
                &v3(center[0], center[1], center[2]),
                b(radius),
                &ray(origin, direction),
                b(0.0),
                b(f32::MAX),
            );
            let t = f(hit.expect("a ray aimed at the centre hits").t) as f64;
            assert!(t > 0.0 && t < 1.0);
            let covered = t * distance;
            let expected = distance - radius as f64;
            assert!((covered - expected).abs() <= 8.0e-6 * radius as f64);
            assert!((covered - expected).abs() <= 1.0e-5 * expected);
            worst = worst.max((covered - expected).abs() / expected);
        }
        k += 1;
    }
    assert!(worst > 0.0);
}

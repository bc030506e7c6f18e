use pathtracer::binary32::Binary32;
use pathtracer::ray::Ray;
use pathtracer::sampling::{
    ball_from_words, ball_point, disk_from_words, disk_point, inside_unit, random_bounce,
    random_bounces, random_in_unit_disk, random_in_unit_sphere, random_unit, unit_from_word,
    BounceSample, MAX_DEPTH,
};
use pathtracer::sphere::{Material, Sphere};
use pathtracer::trace::{color, color_with, sky};
use pathtracer::vec3f::Vec3f32;

fn b(x: f32) -> Binary32 {
    Binary32::from_bits(x.to_bits())
}

fn f(x: Binary32) -> f32 {
    f32::from_bits(x.to_bits())
}

fn v3(v: [f32; 3]) -> Vec3f32 {
    Vec3f32::new_from_points(b(v[0]), b(v[1]), b(v[2]))
}

fn arr(v: Vec3f32) -> [f32; 3] {
    [f(v.x), f(v.y), f(v.z)]
}

fn bits(v: [f32; 3]) -> [u32; 3] {
    v.map(|x| if x.is_nan() { 0x7fc0_0000 } else { x.to_bits() })
}

fn ray(o: [f32; 3], d: [f32; 3]) -> Ray {
    Ray::new_from_vector(&v3(o), &v3(d))
}

fn dot(a: [f32; 3], c: [f32; 3]) -> f32 {
    (a[0] * c[0]) + (a[1] * c[1]) + (a[2] * c[2])
}

fn length(a: [f32; 3]) -> f32 {
    dot(a, a).sqrt()
}

fn unit(a: [f32; 3]) -> [f32; 3] {
    let l = length(a);
    [a[0] / l, a[1] / l, a[2] / l]
}

fn scale(a: [f32; 3], k: f32) -> [f32; 3] {
    [a[0] * k, a[1] * k, a[2] * k]
}

fn sub(a: [f32; 3], c: [f32; 3]) -> [f32; 3] {
    [a[0] - c[0], a[1] - c[1], a[2] - c[2]]
}

fn add(a: [f32; 3], c: [f32; 3]) -> [f32; 3] {
    [a[0] + c[0], a[1] + c[1], a[2] + c[2]]
}

fn mul(a: [f32; 3], c: [f32; 3]) -> [f32; 3] {
    [a[0] * c[0], a[1] * c[1], a[2] * c[2]]
}

#[derive(Clone, Copy)]
enum Stuff {
    Diffuse([f32; 3]),
    Metal([f32; 3], f32),
    Glass(f32),
}

#[derive(Clone, Copy)]
struct Ball {
    center: [f32; 3],
    radius: f32,
    stuff: Stuff,
}

fn library_scene(scene: &[Ball]) -> Vec<Sphere> {
    scene
        .iter()
        .map(|s| Sphere {
            center: v3(s.center),
            radius: b(s.radius),
            material: match s.stuff {
                Stuff::Diffuse(a) => Material::Lambertian { albedo: v3(a) },
                Stuff::Metal(a, z) => Material::Metal { albedo: v3(a), fuzz: b(z) },
                Stuff::Glass(n) => Material::Dielectric { refractive_index: b(n) },
            },
        })
        .collect()
}

fn reference_hit(
    s: &Ball,
    o: [f32; 3],
    d: [f32; 3],
    tmin: f32,
    tmax: f32,
) -> Option<(f32, [f32; 3], [f32; 3])> {
    let oc = sub(o, s.center);
    let a = dot(d, d);
    let bb = dot(oc, d);
    let c = dot(oc, oc) - s.radius * s.radius;
    let discriminant = bb * bb - a * c;
    if discriminant > 0.0 {
        let mut temp = (-bb - discriminant.sqrt()) / a;
        if temp < tmax && temp > tmin {
            let p = add(o, scale(d, temp));
            let n = sub(p, s.center).map(|x| x / s.radius);
            return Some((temp, p, n));
        }
        temp = (-bb + discriminant.sqrt()) / a;
        if temp < tmax && temp > tmin {
            let p = add(o, scale(d, temp));
            let n = sub(p, s.center).map(|x| x / s.radius);
            return Some((temp, p, n));
        }
    }
    None
}

fn reference_sky(d: [f32; 3]) -> [f32; 3] {
    let unit_direction = unit(d);
    let t = 0.5 * (unit_direction[1] + 1.0);
    add(scale([1.0, 1.0, 1.0], 1.0 - t), scale([0.5, 0.7, 1.0], t))
}

/// The whole path, written with the machine's own arithmetic.
fn reference_color(
    o: [f32; 3],
    d: [f32; 3],
    scene: &[Ball],
    tmin: f32,
    tmax: f32,
    depth: usize,
    chance: &[([f32; 3], f32)],
) -> [f32; 3] {
    let mut best: Option<(usize, (f32, [f32; 3], [f32; 3]))> = None;
    let mut closest = tmax;
    for (n, s) in scene.iter().enumerate() {
        if let Some(h) = reference_hit(s, o, d, tmin, closest) {
            closest = h.0;
            best = Some((n, h));
        }
    }
    let (index, (_, p, normal)) = match best {
        None => return reference_sky(d),
        Some(found) => found,
    };
    if depth >= 50 || depth >= chance.len() {
        return [0.0; 3];
    }
    let (point, draw) = chance[depth];
    let reflected = {
        let u = unit(d);
        sub(u, scale(scale(normal, 2.0), dot(u, normal)))
    };
    let (attenuation, direction, proceed) = match scene[index].stuff {
        Stuff::Diffuse(albedo) => (albedo, add(normal, point), true),
        Stuff::Metal(albedo, fuzz) => {
            let direction = add(reflected, scale(point, fuzz));
            (albedo, direction, dot(direction, normal) > 0.0)
        }
        Stuff::Glass(refraction) => {
            let unit_direction = unit(d);
            let outward: [f32; 3];
            let ni_over_nt: f32;
            let cosine: f32;
            if dot(d, normal) > 0.0 {
                outward = normal.map(|x| -x);
                ni_over_nt = refraction;
                cosine = ni_over_nt * dot(d, normal) / length(d);
            } else {
                outward = normal;
                ni_over_nt = 1.0 / refraction;
                cosine = -dot(d, normal) / length(d);
            }
            let dt = dot(unit_direction, outward);
            let discriminant = 1.0 - ni_over_nt * ni_over_nt * (1.0 - dt * dt);
            let mut refracted = [0.0f32; 3];
            let reflect_prob: f32;
            if discriminant > 0.0 {
                refracted = sub(
                    scale(sub(unit_direction, scale(outward, dt)), ni_over_nt),
                    scale(outward, discriminant.sqrt()),
                );
                let mut r0 = (1.0 - refraction) / (1.0 + refraction);
                r0 = r0 * r0;
                let x = 1.0 - cosine;
                let square = x * x;
                reflect_prob = r0 + (1.0 - r0) * (square * square * x);
            } else {
                reflect_prob = 1.0;
            }
            ([1.0, 1.0, 1.0], if draw < reflect_prob { reflected } else { refracted }, true)
        }
    };
    if proceed {
        mul(attenuation, reference_color(p, direction, scene, tmin, tmax, depth + 1, chance))
    } else {
        [0.0; 3]
    }
}

struct Words {
    state: u32,
}

impl Words {
    fn next(&mut self) -> u32 {
        self.state = self.state.wrapping_mul(1664525).wrapping_add(1013904223);
        self.state ^ (self.state >> 15)
    }

    fn unit(&mut self) -> Binary32 {
        unit_from_word(self.next())
    }

    fn bounce(&mut self) -> BounceSample {
        loop {
            let p = ball_point(self.unit(), self.unit(), self.unit());
            if inside_unit(&p) {
                return BounceSample { point: p, draw: self.unit() };
            }
        }
    }

    fn bounces(&mut self) -> Vec<BounceSample> {
        (0..50).map(|_| self.bounce()).collect()
    }
}

fn plain_chance(bounces: &[BounceSample]) -> Vec<([f32; 3], f32)> {
    bounces.iter().map(|s| (arr(s.point), f(s.draw))).collect()
}

fn test_scene() -> Vec<Ball> {
    vec![
        Ball { center: [0.0, -100.5, -1.0], radius: 100.0, stuff: Stuff::Diffuse([0.8, 0.8, 0.0]) },
        Ball { center: [0.0, 0.0, -1.0], radius: 0.5, stuff: Stuff::Diffuse([0.8, 0.3, 0.3]) },
        Ball { center: [1.0, 0.0, -1.0], radius: 0.5, stuff: Stuff::Metal([0.8, 0.6, 0.2], 0.3) },
        Ball { center: [-1.0, 0.0, -1.0], radius: 0.5, stuff: Stuff::Glass(1.5) },
        Ball { center: [-1.0, 0.0, -1.0], radius: -0.45, stuff: Stuff::Glass(1.5) },
        Ball { center: [0.3, 0.2, -0.4], radius: 0.1, stuff: Stuff::Metal([0.9, 0.9, 0.9], 0.0) },
    ]
}

#[test]
fn sky_blends_white_into_blue_by_height() {
    // Straight up the blend factor is one: all sky blue.
    assert_eq!(arr(sky(&ray([0.0; 3], [0.0, 1.0, 0.0]))), [0.5, 0.7, 1.0]);
    // Straight down it is zero: all white.
    assert_eq!(arr(sky(&ray([0.0; 3], [0.0, -2.0, 0.0]))), [1.0, 1.0, 1.0]);
    // Level it is a half.
    assert_eq!(
        bits(arr(sky(&ray([0.0; 3], [0.0, 0.0, -1.0])))),
        bits([0.5 + 0.5 * 0.5, 0.5 + 0.7 * 0.5, 0.5 + 1.0 * 0.5])
    );
    let mut words = Words { state: 3 };
    for _ in 0..200 {
        let d = [f(words.unit()) - 0.5, f(words.unit()) - 0.5, f(words.unit()) - 0.5];
        assert_eq!(bits(arr(sky(&ray([1.0, 2.0, 3.0], d)))), bits(reference_sky(d)));
    }
}

#[test]
fn empty_scene_shows_the_sky() {
    let scene: Vec<Sphere> = Vec::new();
    let r = ray([0.0; 3], [0.2, 0.5, -1.0]);
    let c = color(&r, &scene, b(0.001), b(f32::MAX), 0);
    assert_eq!(c, sky(&r));
    let mut words = Words { state: 1 };
    assert_eq!(color_with(&r, &scene, b(0.001), b(f32::MAX), 0, &words.bounces()), sky(&r));
}

#[test]
fn ray_that_misses_shows_the_sky() {
    let scene = library_scene(&test_scene());
    let r = ray([0.0, 0.0, 0.0], [0.0, 1.0, 0.1]);
    assert_eq!(color(&r, &scene, b(0.001), b(f32::MAX), 0), sky(&r));
}

#[test]
fn path_is_cut_off_at_the_depth_ceiling() {
    let scene = library_scene(&test_scene());
    let r = ray([0.0, 0.0, 0.0], [0.0, 0.0, -1.0]);
    let mut words = Words { state: 9 };
    let mut chance = words.bounces();
    chance[49] = BounceSample { point: v3([0.0, 0.9, 0.0]), draw: b(0.5) };
    assert_eq!(MAX_DEPTH, 50);
    assert_eq!(arr(color_with(&r, &scene, b(0.001), b(f32::MAX), 50, &chance)), [0.0; 3]);
    assert_eq!(arr(color_with(&r, &scene, b(0.001), b(f32::MAX), 51, &chance)), [0.0; 3]);
    assert_eq!(arr(color(&r, &scene, b(0.001), b(f32::MAX), 50)), [0.0; 3]);
    assert_eq!(arr(color(&r, &scene, b(0.001), b(f32::MAX), 4000000000)), [0.0; 3]);
    // one level above the ceiling the path still takes a bounce
    // towards the sky: the ray hits the red sphere at (0, 0, -0.5), where the normal is (0, 0, 1)
    let last = color_with(&r, &scene, b(0.001), b(f32::MAX), 49, &chance);
    let beyond = reference_sky([0.0, 0.9, 1.0]);
    assert_eq!(bits(arr(last)), bits([0.8 * beyond[0], 0.3 * beyond[1], 0.3 * beyond[2]]));
    // a miss shows the sky at any depth
    let up = ray([0.0, 0.0, 0.0], [0.0, 1.0, 0.0]);
    assert_eq!(color_with(&up, &scene, b(0.001), b(f32::MAX), 50, &chance), sky(&up));
}

#[test]
fn path_without_chance_is_black() {
    let scene = library_scene(&test_scene());
    let r = ray([0.0, 0.0, 0.0], [0.0, 0.0, -1.0]);
    let none: Vec<BounceSample> = Vec::new();
    assert_eq!(arr(color_with(&r, &scene, b(0.001), b(f32::MAX), 0, &none)), [0.0; 3]);
}

#[test]
fn two_facing_mirrors_end_in_black() {
    // A ray caught between two mirrors bounces until the ceiling cuts it off.
    let scene = library_scene(&[
        Ball { center: [0.0, 0.0, -3.0], radius: 1.0, stuff: Stuff::Metal([1.0, 1.0, 1.0], 0.0) },
        Ball { center: [0.0, 0.0, 3.0], radius: 1.0, stuff: Stuff::Metal([1.0, 1.0, 1.0], 0.0) },
    ]);
    let r = ray([0.0, 0.0, 0.0], [0.0, 0.0, -1.0]);
    let mut words = Words { state: 21 };
    let c = color_with(&r, &scene, b(0.001), b(f32::MAX), 0, &words.bounces());
    assert_eq!(arr(c), [0.0; 3]);
    assert_eq!(arr(color(&r, &scene, b(0.001), b(f32::MAX), 0)), [0.0; 3]);
}

#[test]
fn diffuse_bounce_tints_the_sky() {
    let scene = library_scene(&[Ball {
        center: [0.0, 0.0, -2.0],
        radius: 1.0,
        stuff: Stuff::Diffuse([0.5, 0.25, 1.0]),
    }]);
    let r = ray([0.0, 0.0, 0.0], [0.0, 0.0, -1.0]);
    let mut chance = (Words { state: 2 }).bounces();
    chance[0] = BounceSample { point: v3([0.0, 0.0, 0.0]), draw: b(0.0) };
    // The ray hits at (0, 0, -1) and leaves along the normal (0, 0, 1), level.
    let c = color_with(&r, &scene, b(0.001), b(f32::MAX), 0, &chance);
    let level = reference_sky([0.0, 0.0, 1.0]);
    assert_eq!(bits(arr(c)), bits([0.5 * level[0], 0.25 * level[1], 1.0 * level[2]]));
}

#[test]
fn paths_match_float_arithmetic() {
    let plain = test_scene();
    let scene = library_scene(&plain);
    let mut words = Words { state: 1234 };
    let mut deep = 0;
    for _ in 0..400 {
        let chance = words.bounces();
        let o = [0.0f32, 0.0, 0.0];
        let d = [f(words.unit()) * 4.0 - 2.0, f(words.unit()) * 2.0 - 1.0, -1.0];
        let ours = color_with(&ray(o, d), &scene, b(0.001), b(f32::MAX), 0, &chance);
        let theirs = reference_color(o, d, &plain, 0.001, f32::MAX, 0, &plain_chance(&chance));
        assert_eq!(bits(arr(ours)), bits(theirs));
        if bits(theirs) != bits(reference_sky(d)) {
            deep += 1;
        }
    }
    assert!(deep > 100);
}

#[test]
fn same_chance_gives_the_same_colour() {
    let scene = library_scene(&test_scene());
    let r = ray([0.0, 0.0, 0.0], [0.1, -0.1, -1.0]);
    let chance = (Words { state: 77 }).bounces();
    let again = (Words { state: 77 }).bounces();
    assert_eq!(chance, again);
    assert_eq!(
        color_with(&r, &scene, b(0.001), b(f32::MAX), 0, &chance),
        color_with(&r, &scene, b(0.001), b(f32::MAX), 0, &again)
    );
}

#[test]
fn colours_stay_within_zero_and_one() {
    let scene = library_scene(&test_scene());
    let mut words = Words { state: 5 };
    for _ in 0..300 {
        let d = [f(words.unit()) * 4.0 - 2.0, f(words.unit()) * 2.0 - 1.0, -1.0];
        let c = arr(color(&ray([0.0; 3], d), &scene, b(0.001), b(f32::MAX), 0));
        for x in c {
            assert!(x >= 0.0 && x <= 1.0);
        }
    }
}

#[test]
fn every_word_stands_for_a_draw_below_one() {
    assert_eq!(f(unit_from_word(0)), 0.0);
    assert_eq!(f(unit_from_word(255)), 0.0);
    assert_eq!(f(unit_from_word(256)), 1.0 / 16777216.0);
    assert_eq!(f(unit_from_word(0x8000_0000)), 0.5);
    assert_eq!(f(unit_from_word(u32::MAX)), 0.99999994);
    let mut words = Words { state: 8 };
    for _ in 0..2000 {
        let w = words.next();
        let x = f(unit_from_word(w));
        assert!(x >= 0.0 && x < 1.0);
        assert_eq!(x.to_bits(), ((1.0f32 / 16777216.0) * ((w >> 8) as f32)).to_bits());
    }
}

#[test]
fn random_draws_lie_below_one() {
    let mut sum = 0.0f32;
    for _ in 0..2000 {
        let x = f(random_unit());
        assert!(x >= 0.0 && x < 1.0);
        sum += x;
    }
    assert!(sum > 800.0 && sum < 1200.0);
}

#[test]
fn disk_and_ball_points_double_and_shift() {
    assert_eq!(arr(disk_point(b(0.0), b(1.0))), [-1.0, 1.0, 0.0]);
    assert_eq!(arr(disk_point(b(0.5), b(0.75))), [0.0, 0.5, 0.0]);
    assert_eq!(arr(ball_point(b(0.0), b(0.5), b(1.0))), [-1.0, 0.0, 1.0]);
    assert!(inside_unit(&v3([0.5, 0.5, 0.5])));
    assert!(!inside_unit(&v3([1.0, 0.0, 0.0])));
    assert!(!inside_unit(&v3([0.6, 0.6, 0.6])));
    assert!(inside_unit(&v3([0.0, 0.0, 0.0])));
}

#[test]
fn points_are_drawn_inside_the_unit_disk_and_sphere() {
    let mut far_out = 0;
    for _ in 0..500 {
        let p = random_in_unit_disk();
        assert!(inside_unit(&p));
        assert_eq!(p.z.to_bits(), 0);
        let q = random_in_unit_sphere();
        assert!(inside_unit(&q));
        if length(arr(q)) > 0.5 {
            far_out += 1;
        }
        let s = random_bounce();
        assert!(inside_unit(&s.point));
        assert!(f(s.draw) >= 0.0 && f(s.draw) < 1.0);
    }
    assert!(far_out > 300);
    assert_eq!(random_bounces().len(), 50);
}

#[test]
fn words_spell_the_first_point_inside() {
    // 0x8000_0000 stands for 0.5, so three such words spell the centre of the cube.
    let centre = ball_from_words(&vec![0x8000_0000, 0x8000_0000, 0x8000_0000]);
    assert_eq!(arr(centre), [0.0, 0.0, 0.0]);
    // A corner of the cube lies outside the sphere; the next point is taken.
    let second = ball_from_words(&vec![
        u32::MAX,
        u32::MAX,
        u32::MAX,
        0xc000_0000,
        0x8000_0000,
        0x4000_0000,
    ]);
    assert_eq!(arr(second), [0.5, 0.0, -0.5]);
    // Where the words run out the centre stands in.
    assert_eq!(arr(ball_from_words(&vec![u32::MAX, u32::MAX, u32::MAX, 1, 2])), [0.0, 0.0, 0.0]);
    assert_eq!(arr(ball_from_words(&Vec::new())), [0.0, 0.0, 0.0]);
    // The disk takes two words for a point.
    let flat = disk_from_words(&vec![0, 0, 0xc000_0000, 0x4000_0000]);
    assert_eq!(arr(flat), [0.5, -0.5, 0.0]);
    assert_eq!(arr(disk_from_words(&vec![0, 0, 7])), [0.0, 0.0, 0.0]);
    // However many points fail, the search goes on as far as the words go.
    let mut many: Vec<u32> = vec![u32::MAX; 300];
    many.extend_from_slice(&[0x8000_0000, 0xa000_0000, 0x8000_0000]);
    assert_eq!(arr(ball_from_words(&many)), [0.0, 0.25, 0.0]);
    let mut corners: Vec<u32> = vec![0; 300];
    corners.extend_from_slice(&[0xc000_0000, 0xc000_0000, 0xc000_0000]);
    assert_eq!(arr(ball_from_words(&corners)), [0.5, 0.5, 0.5]);
    let mut far: Vec<u32> = vec![0; 4000];
    far.extend_from_slice(&[0xc000_0000, 0x4000_0000]);
    assert_eq!(arr(disk_from_words(&far)), [0.5, -0.5, 0.0]);
    let mut short: Vec<u32> = vec![0; 4000];
    short.push(0xc000_0000);
    assert_eq!(arr(disk_from_words(&short)), [0.0, 0.0, 0.0]);
    let mut words = Words { state: 14 };
    for _ in 0..200 {
        let tape: Vec<u32> = (0..12).map(|_| words.next()).collect();
        let p = ball_from_words(&tape);
        assert!(inside_unit(&p));
        let mut expected = [0.0f32; 3];
        let mut k = 0;
        while k + 3 <= tape.len() {
            let c = ball_point(
                unit_from_word(tape[k]),
                unit_from_word(tape[k + 1]),
                unit_from_word(tape[k + 2]),
            );
            if inside_unit(&c) {
                expected = arr(c);
                break;
            }
            k += 3;
        }
        assert_eq!(bits(arr(p)), bits(expected));
    }
}

#[test]
fn sky_is_brighter_than_white_only_along_a_vanishing_direction() {
    // Along a direction so short that its square is rounded off, the unit
    // direction is longer than one, and the sky is brighter than white.
    let short = -1.673f32 * (-75.0f32).exp2();
    let r = ray([0.0, 0.0, 0.0], [0.0, short, 0.0]);
    let c = arr(sky(&r));
    assert_eq!(bits(c), bits(reference_sky([0.0, short, 0.0])));
    assert!(c[0] > 1.0);
    // Along every direction of moderate size no channel is above one.
    let mut words = Words { state: 99 };
    let mut k = -60;
    while k <= 60 {
        let scale = (k as f32).exp2();
        for _ in 0..50 {
            let d = [
                (f(words.unit()) - 0.5) * scale,
                (f(words.unit()) - 0.5) * scale,
                (f(words.unit()) - 0.5) * scale,
            ];
            let c = arr(sky(&ray([0.0, 0.0, 0.0], d)));
            for x in c {
                assert!(x.is_nan() || (x >= 0.0 && x <= 1.0), "{:?}", d);
            }
        }
        k += 4;
    }
    for d in [[0.0f32, 1.0, 0.0], [0.0, -1.0, 0.0], [1.0, 0.0, 0.0], [0.0, -3.0e-19, 0.0]] {
        let c = arr(sky(&ray([0.0, 0.0, 0.0], d)));
        for x in c {
            assert!(x >= 0.0 && x <= 1.0);
        }
    }
}

use pathtracer::binary32::Binary32;
use pathtracer::camera::Camera;
use pathtracer::ppm::{ppm_text, push_decimal, push_header, push_int, push_pixel_line, Pixel};
use pathtracer::ray::Ray;
use pathtracer::render::{
    image_coordinate, path_color, path_color_with, pixel, pixel_with, quantize, render,
    render_with, PathChance,
};
use pathtracer::sampling::{ball_point, disk_point, inside_unit, unit_from_word, BounceSample};
use pathtracer::sphere::{Material, Sphere};
use pathtracer::trace::{color_with, sky};
use pathtracer::vec3f::Vec3f32;

/// The line that names the plain PPM format.
const MAGIC: &str = "P\x33";

fn b(x: f32) -> Binary32 {
    Binary32::from_bits(x.to_bits())
}

fn f(x: Binary32) -> f32 {
    f32::from_bits(x.to_bits())
}

fn v3(v: [f32; 3]) -> Vec3f32 {
    Vec3f32::new_from_points(b(v[0]), b(v[1]), b(v[2]))
}

fn arr(v: Vec3f32) -> [f32; 3] {
    [f(v.x), f(v.y), f(v.z)]
}

fn bits(v: [f32; 3]) -> [u32; 3] {
    v.map(|x| if x.is_nan() { 0x7fc0_0000 } else { x.to_bits() })
}

fn dot(a: [f32; 3], c: [f32; 3]) -> f32 {
    (a[0] * c[0]) + (a[1] * c[1]) + (a[2] * c[2])
}

fn cross(a: [f32; 3], c: [f32; 3]) -> [f32; 3] {
    [a[1] * c[2] - a[2] * c[1], a[2] * c[0] - a[0] * c[2], a[0] * c[1] - a[1] * c[0]]
}

fn normalize(a: [f32; 3]) -> [f32; 3] {
    let magnitude = dot(a, a).sqrt();
    if magnitude > 0.0 {
        let inverse = 1.0 / magnitude;
        [a[0] * inverse, a[1] * inverse, a[2] * inverse]
    } else {
        a
    }
}

fn scale(a: [f32; 3], k: f32) -> [f32; 3] {
    [a[0] * k, a[1] * k, a[2] * k]
}

fn sub(a: [f32; 3], c: [f32; 3]) -> [f32; 3] {
    [a[0] - c[0], a[1] - c[1], a[2] - c[2]]
}

fn add(a: [f32; 3], c: [f32; 3]) -> [f32; 3] {
    [a[0] + c[0], a[1] + c[1], a[2] + c[2]]
}

struct Words {
    state: u32,
}

impl Words {
    fn next(&mut self) -> u32 {
        self.state = self.state.wrapping_mul(1664525).wrapping_add(1013904223);
        self.state ^ (self.state >> 15)
    }

    fn unit(&mut self) -> Binary32 {
        unit_from_word(self.next())
    }

    fn bounce(&mut self) -> BounceSample {
        loop {
            let p = ball_point(self.unit(), self.unit(), self.unit());
            if inside_unit(&p) {
                return BounceSample { point: p, draw: self.unit() };
            }
        }
    }

    fn lens(&mut self) -> Vec3f32 {
        loop {
            let p = disk_point(self.unit(), self.unit());
            if inside_unit(&p) {
                return p;
            }
        }
    }

    fn path(&mut self) -> PathChance {
        PathChance {
            jitter_u: self.unit(),
            jitter_v: self.unit(),
            lens: self.lens(),
            bounces: (0..50).map(|_| self.bounce()).collect(),
        }
    }

    fn image(&mut self, pixels: usize, ns: usize) -> Vec<Vec<PathChance>> {
        (0..pixels).map(|_| (0..ns).map(|_| self.path()).collect()).collect()
    }
}

fn two_spheres() -> Vec<Sphere> {
    vec![
        Sphere {
            center: v3([0.0, 0.0, -1.0]),
            radius: b(0.5),
            material: Material::Lambertian { albedo: v3([0.8, 0.3, 0.3]) },
        },
        Sphere {
            center: v3([0.0, -100.5, -1.0]),
            radius: b(100.0),
            material: Material::Lambertian { albedo: v3([0.8, 0.8, 0.0]) },
        },
    ]
}

/// A pinhole camera at the origin that looks down -z, 90 degrees high, for
/// an image twice as wide as high.
fn pinhole() -> Camera {
    Camera::new(
        v3([0.0, 0.0, 0.0]),
        v3([0.0, 0.0, -1.0]),
        v3([0.0, 1.0, 0.0]),
        b(1.0),
        b(2.0),
        b(0.0),
        b(1.0),
    )
}

#[test]
fn camera_frame_is_right_handed_and_orthonormal() {
    let c = pinhole();
    assert_eq!(arr(c.w), [0.0, 0.0, 1.0]);
    assert_eq!(arr(c.u), [1.0, 0.0, 0.0]);
    assert_eq!(arr(c.v), [0.0, 1.0, 0.0]);
    assert_eq!(arr(c.origin), [0.0, 0.0, 0.0]);
    assert_eq!(arr(c.lower_left_corner), [-2.0, -1.0, -1.0]);
    assert_eq!(arr(c.horizontal), [4.0, 0.0, 0.0]);
    assert_eq!(arr(c.vertical), [0.0, 2.0, 0.0]);
    assert_eq!(f(c.lens_radius), 0.0);
    let tilted = Camera::new(
        v3([13.0, 2.0, 3.0]),
        v3([0.0, 0.0, 0.0]),
        v3([0.0, 1.0, 0.0]),
        b(0.17632698),
        b(2.0),
        b(0.1),
        b(10.0),
    );
    let (u, v, w) = (arr(tilted.u), arr(tilted.v), arr(tilted.w));
    assert!((dot(u, u) - 1.0).abs() < 1.0e-5);
    assert!((dot(v, v) - 1.0).abs() < 1.0e-5);
    assert!((dot(w, w) - 1.0).abs() < 1.0e-5);
    assert!(dot(u, v).abs() < 1.0e-6 && dot(v, w).abs() < 1.0e-6 && dot(w, u).abs() < 1.0e-6);
    let handed = cross(u, v);
    assert!((handed[0] - w[0]).abs() < 1.0e-6);
    assert!((handed[1] - w[1]).abs() < 1.0e-6);
    assert!((handed[2] - w[2]).abs() < 1.0e-6);
    assert_eq!(f(tilted.lens_radius), 0.05);
}

#[test]
fn camera_follows_its_formulas() {
    let look_from = [13.0f32, 2.0, 3.0];
    let look_at = [0.5f32, 0.25, -1.0];
    let vup = [0.0f32, 1.0, 0.0];
    let half_height = 0.17632698f32;
    let aspect = 2.0f32;
    let aperture = 0.1f32;
    let focus = 10.0f32;
    let c = Camera::new(
        v3(look_from),
        v3(look_at),
        v3(vup),
        b(half_height),
        b(aspect),
        b(aperture),
        b(focus),
    );
    let half_width = aspect * half_height;
    let w = normalize(sub(look_from, look_at));
    let u = normalize(cross(vup, w));
    let v = cross(w, u);
    assert_eq!(bits(arr(c.w)), bits(w));
    assert_eq!(bits(arr(c.u)), bits(u));
    assert_eq!(bits(arr(c.v)), bits(v));
    let corner = sub(
        sub(sub(look_from, scale(u, focus * half_width)), scale(v, focus * half_height)),
        scale(w, focus),
    );
    assert_eq!(bits(arr(c.lower_left_corner)), bits(corner));
    assert_eq!(bits(arr(c.horizontal)), bits(scale(u, focus * (2.0 * half_width))));
    assert_eq!(bits(arr(c.vertical)), bits(scale(v, focus * (2.0 * half_height))));
    assert_eq!(f(c.lens_radius).to_bits(), (aperture / 2.0).to_bits());
    // a ray through a point of the lens
    let lens = [0.3f32, -0.4, 0.0];
    let (s, t) = (0.25f32, 0.75f32);
    let r = c.get_ray_through(b(s), b(t), &v3(lens));
    let rd = scale(lens, aperture / 2.0);
    let offset = add(scale(u, rd[0]), scale(v, rd[1]));
    let horizontal = scale(u, focus * (2.0 * half_width));
    let vertical = scale(v, focus * (2.0 * half_height));
    let aim = sub(add(add(corner, scale(horizontal, s)), scale(vertical, t)), look_from);
    assert_eq!(bits(arr(r.a)), bits(add(look_from, offset)));
    assert_eq!(bits(arr(r.b)), bits(sub(aim, offset)));
}

#[test]
fn pinhole_rays_start_at_the_eye() {
    let c = pinhole();
    let centre = c.get_ray_through(b(0.5), b(0.5), &v3([0.0, 0.0, 0.0]));
    assert_eq!(arr(centre.a), [0.0, 0.0, 0.0]);
    assert_eq!(arr(centre.b), [0.0, 0.0, -1.0]);
    let corner = c.get_ray_through(b(0.0), b(0.0), &v3([0.7, -0.7, 0.0]));
    assert_eq!(arr(corner.a), [0.0, 0.0, 0.0]);
    assert_eq!(arr(corner.b), [-2.0, -1.0, -1.0]);
    for _ in 0..50 {
        let r = c.get_ray(b(1.0), b(1.0));
        assert_eq!(arr(r.a), [0.0, 0.0, 0.0]);
        assert_eq!(arr(r.b), [2.0, 1.0, -1.0]);
    }
}

#[test]
fn lens_rays_meet_on_the_focus_plane() {
    let c = Camera::new(
        v3([0.0, 0.0, 0.0]),
        v3([0.0, 0.0, -1.0]),
        v3([0.0, 1.0, 0.0]),
        b(1.0),
        b(2.0),
        b(0.5),
        b(4.0),
    );
    for _ in 0..50 {
        let r = c.get_ray(b(0.5), b(0.5));
        let o = arr(r.a);
        assert!(dot(o, o).sqrt() < 0.25);
        assert_eq!(o[2], 0.0);
        let end = add(o, arr(r.b));
        assert!((end[0]).abs() < 1.0e-6 && (end[1]).abs() < 1.0e-6);
        assert_eq!(end[2], -4.0);
    }
}

#[test]
fn image_coordinate_adds_the_jitter() {
    assert_eq!(f(image_coordinate(3, b(0.5), 7)), 0.5);
    assert_eq!(f(image_coordinate(0, b(0.0), 20)), 0.0);
    assert_eq!(f(image_coordinate(199, b(0.25), 200)).to_bits(), ((199.0f32 + 0.25) / 200.0).to_bits());
}

#[test]
fn quantize_takes_the_root_of_the_mean() {
    // a mean of (1, 0.25, 0) has the roots (1, 0.5, 0), which scale to (255.99, 127.995, 0)
    assert_eq!(quantize(&v3([4.0, 1.0, 0.0]), 4), Pixel { r: 255, g: 127, b: 0 });
    assert_eq!(quantize(&v3([1.0, 1.0, 1.0]), 1), Pixel { r: 255, g: 255, b: 255 });
    // brighter than white is not held back
    assert_eq!(quantize(&v3([4.0, 9.0, 16.0]), 1), Pixel { r: 511, g: 767, b: 1023 });
    let mean = [0.3f32 / 7.0, 2.0 / 7.0, 6.9 / 7.0];
    let expected = mean.map(|x| (x.sqrt() * 255.99) as i32);
    assert_eq!(
        quantize(&v3([0.3, 2.0, 6.9]), 7),
        Pixel { r: expected[0], g: expected[1], b: expected[2] }
    );
}

#[test]
fn path_through_the_pixel_follows_the_camera_ray() {
    let scene = two_spheres();
    let camera = pinhole();
    let mut words = Words { state: 31 };
    for _ in 0..40 {
        let chance = words.path();
        let (i, j) = (words.next() % 20, words.next() % 10);
        let ours = path_color_with(&camera, &scene, i, j, 20, 10, &chance);
        let u = image_coordinate(i, chance.jitter_u, 20);
        let v = image_coordinate(j, chance.jitter_v, 10);
        let r: Ray = camera.get_ray_through(u, v, &chance.lens);
        let expected = color_with(&r, &scene, b(0.001), b(f32::MAX), 0, &chance.bounces);
        assert_eq!(ours, expected);
    }
}

#[test]
fn pixel_is_the_quantized_sum_of_its_paths() {
    let scene = two_spheres();
    let camera = pinhole();
    let mut words = Words { state: 41 };
    let chances: Vec<PathChance> = (0..6).map(|_| words.path()).collect();
    let p = pixel_with(&camera, &scene, 10, 4, 20, 10, &chances);
    let mut sum = Vec3f32::zeroes();
    for c in &chances {
        sum = sum + path_color_with(&camera, &scene, 10, 4, 20, 10, c);
    }
    assert_eq!(p, quantize(&sum, 6));
}

#[test]
fn small_image_shows_sky_above_and_spheres_below() {
    let scene = two_spheres();
    let camera = pinhole();
    let (nx, ny, ns) = (20u32, 10u32, 8u32);
    let pixels = render(&camera, &scene, nx, ny, ns);
    assert_eq!(pixels.len(), 200);
    for p in &pixels {
        for channel in [p.r, p.g, p.b] {
            assert!(channel >= 0 && channel <= 255);
        }
    }
    // the top row is sky: blue is strongest, and it is bright
    for p in &pixels[0..20] {
        assert!(p.b >= p.g && p.g >= p.r);
        assert_eq!(p.b, 255);
        assert!(p.r > 150);
    }
    // the middle of the image shows the red sphere: red is strongest
    let middle = pixels[(5 * nx + 10) as usize];
    assert!(middle.r > middle.b && middle.r > middle.g);
    assert!(middle.b < 200);
    // the bottom row shows the yellow-green ground: blue is weakest and darker than the sky
    for p in &pixels[180..200] {
        assert!(p.b < p.r && p.b < p.g);
        assert!(p.b < 200);
    }
}

#[test]
fn small_image_is_written_as_plain_ppm() {
    let scene = two_spheres();
    let camera = pinhole();
    let pixels = render(&camera, &scene, 20, 10, 2);
    let text = String::from_utf8(ppm_text(20, 10, &pixels)).unwrap();
    let lines: Vec<&str> = text.lines().collect();
    assert_eq!(lines.len(), 203);
    assert_eq!(lines[0].as_bytes(), [b'P', b'3']);
    assert_eq!(lines[1], "20 10");
    assert_eq!(lines[2], "255");
    assert!(text.ends_with('\n'));
    for (k, line) in lines[3..].iter().enumerate() {
        let channels: Vec<i32> = line.split(' ').map(|x| x.parse().unwrap()).collect();
        assert_eq!(channels, vec![pixels[k].r, pixels[k].g, pixels[k].b]);
        assert!(channels.iter().all(|&c| c >= 0 && c <= 255));
    }
}

#[test]
fn pinhole_samples_converge_on_the_centre_sample() {
    // In the sky, paths through one pixel differ by their jitter only, and
    // the sky changes slowly: their mean is the colour through the centre.
    let scene = two_spheres();
    let camera = pinhole();
    let (i, j, nx, ny) = (3u32, 8u32, 20u32, 10u32);
    let many = pixel(&camera, &scene, i, j, nx, ny, 400);
    let centre = PathChance {
        jitter_u: b(0.5),
        jitter_v: b(0.5),
        lens: v3([0.0, 0.0, 0.0]),
        bounces: Vec::new(),
    };
    let one = pixel_with(&camera, &scene, i, j, nx, ny, &vec![centre]);
    assert!((many.r - one.r).abs() <= 2);
    assert!((many.g - one.g).abs() <= 2);
    assert!((many.b - one.b).abs() <= 2);
    // On the red sphere the bounces differ too; the mean still settles.
    let first = pixel(&camera, &scene, 10, 5, nx, ny, 600);
    let second = pixel(&camera, &scene, 10, 5, nx, ny, 600);
    assert!((first.r - second.r).abs() <= 12);
    assert!((first.g - second.g).abs() <= 12);
    assert!((first.b - second.b).abs() <= 12);
}

#[test]
fn lens_point_does_not_matter_without_an_aperture() {
    let camera = pinhole();
    let mut words = Words { state: 3 };
    for _ in 0..100 {
        let (s, t) = (words.unit(), words.unit());
        let through = camera.get_ray_through(s, t, &words.lens());
        let centre = camera.get_ray_through(s, t, &v3([0.0, 0.0, 0.0]));
        assert_eq!(arr(through.a), arr(centre.a));
        assert_eq!(arr(through.b), arr(centre.b));
    }
}

#[test]
fn same_chances_give_the_same_image() {
    let scene = two_spheres();
    let camera = pinhole();
    let first = render_with(&camera, &scene, 8, 4, &(Words { state: 2024 }).image(32, 3));
    let second = render_with(&camera, &scene, 8, 4, &(Words { state: 2024 }).image(32, 3));
    assert_eq!(first, second);
    assert_eq!(ppm_text(8, 4, &first), ppm_text(8, 4, &second));
    let other = render_with(&camera, &scene, 8, 4, &(Words { state: 2025 }).image(32, 3));
    assert!(first != other);
}

#[test]
fn pixels_come_row_by_row_from_the_top() {
    let scene = two_spheres();
    let camera = pinhole();
    let (nx, ny) = (5u32, 3u32);
    let chances = (Words { state: 6 }).image(15, 2);
    let pixels = render_with(&camera, &scene, nx, ny, &chances);
    assert_eq!(pixels.len(), 15);
    for k in 0..15u32 {
        let column = k % nx;
        let row = ny - 1 - k / nx;
        let expected = pixel_with(&camera, &scene, column, row, nx, ny, &chances[k as usize]);
        assert_eq!(pixels[k as usize], expected);
    }
}

#[test]
fn empty_image_has_no_pixels() {
    let scene = two_spheres();
    let camera = pinhole();
    assert_eq!(render(&camera, &scene, 0, 10, 4).len(), 0);
    assert_eq!(render(&camera, &scene, 10, 0, 4).len(), 0);
    assert_eq!(render_with(&camera, &scene, 0, 0, &Vec::new()).len(), 0);
    assert_eq!(ppm_text(0, 0, &Vec::new()), format!("{}\n0 0\n255\n", MAGIC).into_bytes());
}

#[test]
fn random_path_colour_is_a_colour_of_the_scene() {
    let scene = two_spheres();
    let camera = pinhole();
    for _ in 0..50 {
        let c = arr(path_color(&camera, &scene, 3, 9, 20, 10));
        // the top of the image is sky
        let d = arr(sky(&Ray::new_from_vector(&v3([0.0; 3]), &v3([-1.3, 0.9, -1.0]))));
        assert!((c[0] - d[0]).abs() < 0.05 && (c[2] - 1.0).abs() < 1.0e-6);
    }
}

#[test]
fn whole_numbers_are_written_in_decimal() {
    let cases: Vec<(u32, &str)> = vec![
        (0, "0"),
        (7, "7"),
        (9, "9"),
        (10, "10"),
        (99, "99"),
        (100, "100"),
        (255, "255"),
        (1000, "1000"),
        (600, "600"),
        (4294967295, "4294967295"),
        (1000000000, "1000000000"),
        (999999999, "999999999"),
    ];
    for (n, text) in cases {
        let mut out: Vec<u8> = Vec::new();
        push_decimal(&mut out, n);
        assert_eq!(out, text.as_bytes().to_vec());
    }
    let mut state: u32 = 1;
    for _ in 0..2000 {
        state = state.wrapping_mul(1664525).wrapping_add(1013904223);
        let n = state >> (state % 32);
        let mut out: Vec<u8> = vec![b'x'];
        push_decimal(&mut out, n);
        assert_eq!(String::from_utf8(out).unwrap(), format!("x{}", n));
        let v = state as i32;
        let mut signed: Vec<u8> = Vec::new();
        push_int(&mut signed, v);
        assert_eq!(String::from_utf8(signed).unwrap(), format!("{}", v));
    }
    let mut least: Vec<u8> = Vec::new();
    push_int(&mut least, i32::MIN);
    assert_eq!(least, b"-2147483648".to_vec());
}

#[test]
fn header_and_lines_follow_the_format() {
    let mut out: Vec<u8> = Vec::new();
    push_header(&mut out, 600, 300);
    assert_eq!(out, format!("{}\n600 300\n255\n", MAGIC).into_bytes());
    push_pixel_line(&mut out, &Pixel { r: 255, g: 0, b: 17 });
    assert_eq!(out, format!("{}\n600 300\n255\n255 0 17\n", MAGIC).into_bytes());
    let text = ppm_text(
        2,
        1,
        &vec![Pixel { r: 1, g: 2, b: 3 }, Pixel { r: -4, g: 256, b: 0 }],
    );
    assert_eq!(text, format!("{}\n2 1\n255\n1 2 3\n-4 256 0\n", MAGIC).into_bytes());
}

#[test]
fn no_channel_is_written_below_zero() {
    assert_eq!(quantize(&v3([-4.0, f32::NAN, -0.0]), 1), Pixel { r: 0, g: 0, b: 0 });
    assert_eq!(
        quantize(&v3([f32::NEG_INFINITY, f32::INFINITY, 1.0]), 3),
        Pixel { r: 0, g: i32::MAX, b: 147 }
    );
    let mut state: u32 = 5;
    for _ in 0..5000 {
        state = state.wrapping_mul(1664525).wrapping_add(1013904223);
        let x = f32::from_bits(state);
        state = state.wrapping_mul(1664525).wrapping_add(1013904223);
        let ns = state >> 20;
        let p = quantize(&v3([x, x * 0.5, -x]), ns);
        assert!(p.r >= 0 && p.g >= 0 && p.b >= 0);
        let mean = x / (ns as f32);
        if mean <= 1.0 {
            assert!(p.r <= 255);
        }
    }
}

#[test]
fn pinhole_directions_are_affine_in_the_image_point() {
    let camera = pinhole();
    let centre = v3([0.0, 0.0, 0.0]);
    let mut words = Words { state: 12 };
    for _ in 0..200 {
        let (s1, t1, s2, t2) = (f(words.unit()), f(words.unit()), f(words.unit()), f(words.unit()));
        let (sm, tm) = ((s1 + s2) / 2.0, (t1 + t2) / 2.0);
        let d1 = arr(camera.get_ray_through(b(s1), b(t1), &centre).b);
        let d2 = arr(camera.get_ray_through(b(s2), b(t2), &centre).b);
        let dm = arr(camera.get_ray_through(b(sm), b(tm), &centre).b);
        for k in 0..3 {
            assert!((d1[k] + d2[k] - 2.0 * dm[k]).abs() <= 2.0e-6);
        }
    }
}

#[test]
fn pinhole_directions_follow_the_exact_affine_combination() {
    let camera = Camera::new(
        v3([13.0, 2.0, 3.0]),
        v3([0.0, 0.5, -1.0]),
        v3([0.0, 1.0, 0.0]),
        b(0.17632698),
        b(1.5),
        b(0.0),
        b(10.0),
    );
    let (corner, across, up, eye) = (
        arr(camera.lower_left_corner),
        arr(camera.horizontal),
        arr(camera.vertical),
        arr(camera.origin),
    );
    let mut size = 0.0f64;
    for v in [corner, across, up, eye] {
        for x in v {
            size = size.max(x.abs() as f64);
        }
    }
    let part = (-18.0f64).exp2();
    let mut words = Words { state: 2718 };
    let mut worst = 0.0f64;
    for _ in 0..500 {
        let (s, t) = (f(words.unit()), f(words.unit()));
        let lens = v3([f(words.unit()) - 0.5, f(words.unit()) - 0.5, 0.0]);
        let d = arr(camera.get_ray_through(b(s), b(t), &lens).b);
        for k in 0..3 {
            let exact = corner[k] as f64 + across[k] as f64 * s as f64
                + up[k] as f64 * t as f64
                - eye[k] as f64;
            let off = (d[k] as f64 - exact).abs();
            assert!(off <= part * size);
            worst = worst.max(off);
        }
    }
    assert!(worst > 0.0);
}

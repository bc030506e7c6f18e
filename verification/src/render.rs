//! From a scene and a camera to pixels: many paths through each pixel,
//! their mean, and what is written of it.

use vstd::prelude::*;
use crate::binary32::Binary32;
use crate::vec3f::Vec3f32;
use crate::sphere::Sphere;
use crate::camera::Camera;
use crate::ppm::Pixel;
use crate::sampling::{
    BounceSample, is_unit_draw, inside_unit_spec, random_unit, random_in_unit_disk,
};
use crate::trace::{color, color_with, color_spec, full_chance};

verus! {

/// Pattern of the binary32 number nearest to 0.001: hits nearer than this
/// along a ray do not count, so that a scattered ray does not hit the
/// surface it starts from.
pub const T_MIN_BITS: u32 = 0x3a83_126f;

/// Pattern of the largest finite binary32 number: the far end of a ray.
pub const T_MAX_BITS: u32 = 0x7f7f_ffff;

/// Pattern of the binary32 number nearest to 255.99, by which a channel
/// from zero to one is scaled.
pub const CHANNEL_SCALE_BITS: u32 = 0x437f_fd71;

/// The chance that one path through a pixel may use: where in the pixel it
/// starts, where on the lens, and the chance for each of its bounces.
#[derive(Debug)]
pub struct PathChance {
    pub jitter_u: Binary32,
    pub jitter_v: Binary32,
    pub lens: Vec3f32,
    pub bounces: Vec<BounceSample>,
}

/// A `PathChance` as contracts speak of it.
pub struct PathChanceView {
    pub jitter_u: Binary32,
    pub jitter_v: Binary32,
    pub lens: Vec3f32,
    pub bounces: Seq<BounceSample>,
}

impl View for PathChance {
    type V = PathChanceView;

    open spec fn view(&self) -> PathChanceView {
        PathChanceView {
            jitter_u: self.jitter_u,
            jitter_v: self.jitter_v,
            lens: self.lens,
            bounces: self.bounces@,
        }
    }
}

impl PathChanceView {
    /// Both jitters are draws from zero up to, but not including, one, the
    /// lens point lies inside the unit disk, and there is a well-formed
    /// chance for every depth.
    pub open spec fn wf(self) -> bool {
        &&& is_unit_draw(self.jitter_u)
        &&& is_unit_draw(self.jitter_v)
        &&& inside_unit_spec(self.lens)
        &&& self.lens.z == (Binary32 { bits: 0 })
        &&& full_chance(self.bounces)
    }
}

/// The views of the chances in `v`.
pub open spec fn views_of(v: Seq<PathChance>) -> Seq<PathChanceView> {
    Seq::new(v.len(), |i: int| v[i]@)
}

/// A place on the image plane along one axis: the pixel's index plus the
/// jitter, over the number of pixels.
pub open spec fn image_coordinate_spec(index: u32, jitter: Binary32, size: u32) -> Binary32 {
    Binary32::spec_from_u32(index).spec_add(jitter).spec_div(Binary32::spec_from_u32(size))
}

/// The colour along one path through the pixel in column `i` and row `j`,
/// rows counted from the bottom, of an image `nx` wide and `ny` high.
pub open spec fn path_color_spec(
    camera: Camera,
    spheres: Seq<Sphere>,
    i: u32,
    j: u32,
    nx: u32,
    ny: u32,
    chance: PathChanceView,
) -> Vec3f32 {
    let u = image_coordinate_spec(i, chance.jitter_u, nx);
    let v = image_coordinate_spec(j, chance.jitter_v, ny);
    color_spec(
        camera.spec_ray_through(u, v, chance.lens),
        spheres,
        Binary32 { bits: T_MIN_BITS },
        Binary32 { bits: T_MAX_BITS },
        0,
        chance.bounces,
    )
}

/// The colours along the first `n` paths through a pixel, summed in order.
pub open spec fn light_sum_spec(
    camera: Camera,
    spheres: Seq<Sphere>,
    i: u32,
    j: u32,
    nx: u32,
    ny: u32,
    chances: Seq<PathChanceView>,
    n: nat,
) -> Vec3f32
    decreases n,
{
    if n == 0 || n > chances.len() {
        Vec3f32::spec_zeroes()
    } else {
        light_sum_spec(camera, spheres, i, j, nx, ny, chances, (n - 1) as nat).spec_add(
            path_color_spec(camera, spheres, i, j, nx, ny, chances[n - 1]),
        )
    }
}

/// The pixel for the sum of the colours along `ns` paths: the mean, its
/// square root by channel for a gamma of two, scaled by 255.99 and cut off
/// to whole numbers.
pub open spec fn quantize_spec(sum: Vec3f32, ns: u32) -> Pixel {
    let mean = sum.spec_shrink(Binary32::spec_from_u32(ns));
    let gamma = Vec3f32 { x: mean.x.spec_sqrt(), y: mean.y.spec_sqrt(), z: mean.z.spec_sqrt() };
    gamma.spec_scale(Binary32 { bits: CHANNEL_SCALE_BITS }).spec_as_pixel()
}

/// The pixel in column `i` and row `j` for the given chances, one for each
/// path.
pub open spec fn pixel_spec(
    camera: Camera,
    spheres: Seq<Sphere>,
    i: u32,
    j: u32,
    nx: u32,
    ny: u32,
    chances: Seq<PathChanceView>,
) -> Pixel {
    quantize_spec(
        light_sum_spec(camera, spheres, i, j, nx, ny, chances, chances.len()),
        chances.len() as u32,
    )
}

/// The sum of the first `n` colours does not depend on the chances after them.
pub proof fn lemma_light_sum_prefix(
    camera: Camera,
    spheres: Seq<Sphere>,
    i: u32,
    j: u32,
    nx: u32,
    ny: u32,
    c1: Seq<PathChanceView>,
    c2: Seq<PathChanceView>,
    n: nat,
)
    requires
        n <= c1.len(),
        n <= c2.len(),
        forall|k: int| 0 <= k < n ==> c1[k] == c2[k],
    ensures
        light_sum_spec(camera, spheres, i, j, nx, ny, c1, n) == light_sum_spec(
            camera,
            spheres,
            i,
            j,
            nx,
            ny,
            c2,
            n,
        ),
    decreases n,
{
    if n > 0 {
        lemma_light_sum_prefix(camera, spheres, i, j, nx, ny, c1, c2, (n - 1) as nat);
    }
}

/// A place on the image plane along one axis.
pub fn image_coordinate(index: u32, jitter: Binary32, size: u32) -> (r: Binary32)
    ensures
        r == image_coordinate_spec(index, jitter, size),
{
    (Binary32::from_u32(index) + jitter) / Binary32::from_u32(size)
}

/// The colour along one path, with the chance taken from `fixed` where that
/// is given and drawn where it is not. Returns the colour and the chance
/// that was used.
fn path_light(
    camera: &Camera,
    spheres: &Vec<Sphere>,
    i: u32,
    j: u32,
    nx: u32,
    ny: u32,
    fixed: Option<&PathChance>,
) -> (out: (Vec3f32, Ghost<PathChanceView>))
    ensures
        out.0 == path_color_spec(*camera, spheres@, i, j, nx, ny, out.1@),
        fixed matches Some(chance) ==> out.1@ == chance@,
        fixed is None ==> out.1@.wf(),
{
    let tmin = Binary32 { bits: T_MIN_BITS };
    let tmax = Binary32 { bits: T_MAX_BITS };
    match fixed {
        Some(chance) => {
            let u = image_coordinate(i, chance.jitter_u, nx);
            let v = image_coordinate(j, chance.jitter_v, ny);
            let r = camera.get_ray_through(u, v, &chance.lens);
            (color_with(&r, spheres, tmin, tmax, 0, &chance.bounces), Ghost(chance@))
        },
        None => {
            let jitter_u = random_unit();
            let jitter_v = random_unit();
            let lens = random_in_unit_disk();
            let u = image_coordinate(i, jitter_u, nx);
            let v = image_coordinate(j, jitter_v, ny);
            let r = camera.get_ray_through(u, v, &lens);
            let c = color(&r, spheres, tmin, tmax, 0);
            let ghost bounces = choose|bounces: Seq<BounceSample>|
                full_chance(bounces) && c == color_spec(r, spheres@, tmin, tmax, 0, bounces);
            (c, Ghost(PathChanceView { jitter_u, jitter_v, lens, bounces }))
        },
    }
}

/// The colour along one path through the pixel in column `i` and row `j`,
/// rows counted from the bottom, of an image `nx` wide and `ny` high, for
/// the given chance.
pub fn path_color_with(
    camera: &Camera,
    spheres: &Vec<Sphere>,
    i: u32,
    j: u32,
    nx: u32,
    ny: u32,
    chance: &PathChance,
) -> (c: Vec3f32)
    ensures
        c == path_color_spec(*camera, spheres@, i, j, nx, ny, chance@),
{
    let (c, _) = path_light(camera, spheres, i, j, nx, ny, Some(chance));
    c
}

/// The colour along one path through the pixel in column `i` and row `j`,
/// with its chance drawn from the thread's generator: the colour that
/// `path_color_with` gives for some well-formed chance.
pub fn path_color(camera: &Camera, spheres: &Vec<Sphere>, i: u32, j: u32, nx: u32, ny: u32) -> (c:
    Vec3f32)
    ensures
        exists|chance: PathChanceView|
            chance.wf() && c == path_color_spec(*camera, spheres@, i, j, nx, ny, chance),
{
    let (c, Ghost(used)) = path_light(camera, spheres, i, j, nx, ny, None);
    assert(used.wf() && c == path_color_spec(*camera, spheres@, i, j, nx, ny, used));
    c
}

/// The pixel for the sum of the colours along `ns` paths. No channel of it
/// is negative; a channel is above 255 only where the mean is above one.
pub fn quantize(sum: &Vec3f32, ns: u32) -> (p: Pixel)
    ensures
        p == quantize_spec(*sum, ns),
        p.r >= 0 && p.g >= 0 && p.b >= 0,
{
    proof {
        crate::channel::lemma_pixel_is_bytes(*sum, ns);
    }
    let mean = *sum / Binary32::from_u32(ns);
    let gamma = Vec3f32 { x: mean.x.sqrt(), y: mean.y.sqrt(), z: mean.z.sqrt() };
    (gamma * Binary32 { bits: CHANNEL_SCALE_BITS }).as_pixel()
}

/// Whether `chances` holds `ns` well-formed chances.
pub open spec fn pixel_chance(chances: Seq<PathChanceView>, ns: u32) -> bool {
    chances.len() == ns && forall|k: int| 0 <= k < chances.len() ==> (#[trigger] chances[k]).wf()
}

/// A pixel from `ns` paths, with the chances taken from `fixed` where that
/// is given and drawn where it is not. Returns the pixel and the chances
/// that were used.
fn pixel_light(
    camera: &Camera,
    spheres: &Vec<Sphere>,
    i: u32,
    j: u32,
    nx: u32,
    ny: u32,
    ns: u32,
    fixed: Option<&Vec<PathChance>>,
) -> (out: (Pixel, Ghost<Seq<PathChanceView>>))
    requires
        fixed matches Some(chances) ==> chances@.len() == ns,
    ensures
        out.0 == pixel_spec(*camera, spheres@, i, j, nx, ny, out.1@),
        fixed matches Some(chances) ==> out.1@ == views_of(chances@),
        fixed is None ==> pixel_chance(out.1@, ns),
{
    let mut sum = Vec3f32::zeroes();
    let ghost mut used: Seq<PathChanceView> = Seq::empty();
    let mut k: u32 = 0;
    while k < ns
        invariant
            k <= ns,
            used.len() == k,
            sum == light_sum_spec(*camera, spheres@, i, j, nx, ny, used, k as nat),
            fixed matches Some(chances) ==> chances@.len() == ns && forall|m: int|
                0 <= m < k ==> used[m] == chances@[m]@,
            fixed is None ==> forall|m: int| 0 <= m < k ==> (#[trigger] used[m]).wf(),
        decreases ns - k,
    {
        let one: Option<&PathChance> = match fixed {
            Some(chances) => Some(&chances[k as usize]),
            None => None,
        };
        let (c, Ghost(chance)) = path_light(camera, spheres, i, j, nx, ny, one);
        proof {
            lemma_light_sum_prefix(
                *camera,
                spheres@,
                i,
                j,
                nx,
                ny,
                used,
                used.push(chance),
                k as nat,
            );
            used = used.push(chance);
        }
        sum = sum + c;
        k = k + 1;
    }
    proof {
        match fixed {
            Some(chances) => {
                assert(used =~= views_of(chances@));
            },
            None => {},
        }
    }
    (quantize(&sum, ns), Ghost(used))
}

/// The pixel in column `i` and row `j`, rows counted from the bottom, of an
/// image `nx` wide and `ny` high, from one path for each of the given
/// chances.
pub fn pixel_with(
    camera: &Camera,
    spheres: &Vec<Sphere>,
    i: u32,
    j: u32,
    nx: u32,
    ny: u32,
    chances: &Vec<PathChance>,
) -> (p: Pixel)
    requires
        chances@.len() <= u32::MAX,
    ensures
        p == pixel_spec(*camera, spheres@, i, j, nx, ny, views_of(chances@)),
{
    let (p, _) = pixel_light(camera, spheres, i, j, nx, ny, chances.len() as u32, Some(chances));
    p
}

/// The pixel in column `i` and row `j` from `ns` paths, with their chances
/// drawn from the thread's generator: the pixel that `pixel_with` gives for
/// some `ns` well-formed chances.
pub fn pixel(camera: &Camera, spheres: &Vec<Sphere>, i: u32, j: u32, nx: u32, ny: u32, ns: u32) -> (p:
    Pixel)
    ensures
        exists|chances: Seq<PathChanceView>|
            pixel_chance(chances, ns) && p == pixel_spec(
                *camera,
                spheres@,
                i,
                j,
                nx,
                ny,
                chances,
            ),
{
    let (p, Ghost(used)) = pixel_light(camera, spheres, i, j, nx, ny, ns, None);
    assert(pixel_chance(used, ns) && p == pixel_spec(*camera, spheres@, i, j, nx, ny, used));
    p
}

/// The column of the pixel that is written as the `k`-th of an image `nx`
/// wide: the pixels are written row by row, each row from the left.
pub open spec fn column_of(k: int, nx: u32) -> u32 {
    (k % nx as int) as u32
}

/// The row, counted from the bottom, of the pixel that is written as the
/// `k`-th of an image `nx` wide and `ny` high: the top row is written first.
pub open spec fn row_of(k: int, nx: u32, ny: u32) -> u32 {
    (ny - 1 - k / nx as int) as u32
}

/// The pixels of an image `nx` wide and `ny` high in the order in which
/// they are written, with `chances[k]` the chances for the paths of the
/// `k`-th of them.
pub open spec fn image_spec(
    camera: Camera,
    spheres: Seq<Sphere>,
    nx: u32,
    ny: u32,
    chances: Seq<Seq<PathChanceView>>,
) -> Seq<Pixel> {
    Seq::new(
        (nx * ny) as nat,
        |k: int|
            pixel_spec(camera, spheres, column_of(k, nx), row_of(k, nx, ny), nx, ny, chances[k]),
    )
}

/// The views of the chances of each pixel.
pub open spec fn pixel_views_of(chances: Seq<Vec<PathChance>>) -> Seq<Seq<PathChanceView>> {
    Seq::new(chances.len(), |k: int| views_of(chances[k]@))
}

/// Whether `chances` holds `ns` well-formed chances for each of `count` pixels.
pub open spec fn image_chance(chances: Seq<Seq<PathChanceView>>, count: int, ns: u32) -> bool {
    chances.len() == count && forall|k: int|
        0 <= k < chances.len() ==> pixel_chance(#[trigger] chances[k], ns)
}

/// The pixels of an image, with the chances taken from `fixed` where that
/// is given and drawn where it is not. Returns the pixels and the chances
/// that were used.
fn image_light(
    camera: &Camera,
    spheres: &Vec<Sphere>,
    nx: u32,
    ny: u32,
    ns: u32,
    fixed: Option<&Vec<Vec<PathChance>>>,
) -> (out: (Vec<Pixel>, Ghost<Seq<Seq<PathChanceView>>>))
    requires
        nx * ny <= usize::MAX,
        fixed matches Some(chances) ==> chances@.len() == nx * ny && forall|k: int|
            0 <= k < chances@.len() ==> (#[trigger] chances@[k])@.len() <= u32::MAX,
    ensures
        out.0@ == image_spec(*camera, spheres@, nx, ny, out.1@),
        fixed matches Some(chances) ==> out.1@ == pixel_views_of(chances@),
        fixed is None ==> image_chance(out.1@, nx * ny, ns),
{
    let mut pixels: Vec<Pixel> = Vec::new();
    let ghost mut used: Seq<Seq<PathChanceView>> = Seq::empty();
    let mut rows_done: u32 = 0;
    while rows_done < ny
        invariant
            rows_done <= ny,
            nx * ny <= usize::MAX,
            pixels@.len() == rows_done * nx,
            used.len() == pixels@.len(),
            forall|k: int|
                0 <= k < pixels@.len() ==> pixels@[k] == pixel_spec(
                    *camera,
                    spheres@,
                    column_of(k, nx),
                    row_of(k, nx, ny),
                    nx,
                    ny,
                    #[trigger] used[k],
                ),
            fixed matches Some(chances) ==> chances@.len() == nx * ny && (forall|k: int|
                0 <= k < chances@.len() ==> (#[trigger] chances@[k])@.len() <= u32::MAX)
                && forall|k: int|
                0 <= k < pixels@.len() ==> #[trigger] used[k] == views_of(chances@[k]@),
            fixed is None ==> forall|k: int|
                0 <= k < pixels@.len() ==> pixel_chance(#[trigger] used[k], ns),
        decreases ny - rows_done,
    {
        let j = ny - 1 - rows_done;
        let mut i: u32 = 0;
        proof {
            assert((rows_done + 1) * nx <= ny * nx) by (nonlinear_arith)
                requires
                    rows_done + 1 <= ny,
            ;
            assert((rows_done + 1) * nx == rows_done * nx + nx) by (nonlinear_arith);
            assert(ny * nx == nx * ny) by (nonlinear_arith);
        }
        while i < nx
            invariant
                i <= nx,
                rows_done < ny,
                j == ny - 1 - rows_done,
                nx * ny <= usize::MAX,
                rows_done * nx + nx <= nx * ny,
                pixels@.len() == rows_done * nx + i,
                used.len() == pixels@.len(),
                forall|k: int|
                    0 <= k < pixels@.len() ==> pixels@[k] == pixel_spec(
                        *camera,
                        spheres@,
                        column_of(k, nx),
                        row_of(k, nx, ny),
                        nx,
                        ny,
                        #[trigger] used[k],
                    ),
                fixed matches Some(chances) ==> chances@.len() == nx * ny && (forall|k: int|
                    0 <= k < chances@.len() ==> (#[trigger] chances@[k])@.len() <= u32::MAX)
                    && forall|k: int|
                    0 <= k < pixels@.len() ==> #[trigger] used[k] == views_of(chances@[k]@),
                fixed is None ==> forall|k: int|
                    0 <= k < pixels@.len() ==> pixel_chance(#[trigger] used[k], ns),
            decreases nx - i,
        {
            let ghost k = pixels@.len() as int;
            proof {
                vstd::arithmetic::div_mod::lemma_fundamental_div_mod_converse(
                    k,
                    nx as int,
                    rows_done as int,
                    i as int,
                );
            }
            let (p, Ghost(chances)) = match fixed {
                Some(all) => {
                    let own = &all[pixels.len()];
                    pixel_light(camera, spheres, i, j, nx, ny, own.len() as u32, Some(own))
                },
                None => pixel_light(camera, spheres, i, j, nx, ny, ns, None),
            };
            pixels.push(p);
            proof {
                used = used.push(chances);
            }
            i = i + 1;
        }
        rows_done = rows_done + 1;
    }
    proof {
        assert(ny * nx == nx * ny) by (nonlinear_arith);
        assert(pixels@ =~= image_spec(*camera, spheres@, nx, ny, used));
        match fixed {
            Some(chances) => {
                assert(used =~= pixel_views_of(chances@));
            },
            None => {},
        }
    }
    (pixels, Ghost(used))
}

/// The pixels of an image `nx` wide and `ny` high, in the order in which
/// they are written: row by row from the top, each row from the left.
/// `chances[k]` holds one chance for each path of the `k`-th pixel. The
/// same scene, camera and chances give the same pixels.
pub fn render_with(
    camera: &Camera,
    spheres: &Vec<Sphere>,
    nx: u32,
    ny: u32,
    chances: &Vec<Vec<PathChance>>,
) -> (pixels: Vec<Pixel>)
    requires
        chances@.len() == nx * ny,
        forall|k: int| 0 <= k < chances@.len() ==> (#[trigger] chances@[k])@.len() <= u32::MAX,
    ensures
        pixels@ == image_spec(*camera, spheres@, nx, ny, pixel_views_of(chances@)),
        pixels@.len() == nx * ny,
{
    let count = chances.len();
    assert(nx * ny == count);
    let (pixels, _) = image_light(camera, spheres, nx, ny, 0, Some(chances));
    pixels
}

/// The pixels of an image `nx` wide and `ny` high from `ns` paths through
/// each pixel, with the chances drawn from the thread's generator: the
/// pixels that `render_with` gives for some well-formed chances.
pub fn render(camera: &Camera, spheres: &Vec<Sphere>, nx: u32, ny: u32, ns: u32) -> (pixels: Vec<
    Pixel,
>)
    requires
        nx * ny <= usize::MAX,
    ensures
        pixels@.len() == nx * ny,
        exists|chances: Seq<Seq<PathChanceView>>|
            image_chance(chances, nx * ny, ns) && pixels@ == image_spec(
                *camera,
                spheres@,
                nx,
                ny,
                chances,
            ),
{
    let (pixels, Ghost(used)) = image_light(camera, spheres, nx, ny, ns, None);
    assert(image_chance(used, nx * ny, ns) && pixels@ == image_spec(
        *camera,
        spheres@,
        nx,
        ny,
        used,
    ));
    pixels
}

} // verus!

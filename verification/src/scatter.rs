//! How each material sends a ray on from the point where it hit.

use vstd::prelude::*;
use crate::binary32::Binary32;
use crate::vec3f::Vec3f32;
use crate::ray::Ray;
use crate::sphere::{Material, HitRecord};
use crate::sampling::{BounceSample, is_unit_draw, ONE_BITS, TWO_BITS};
use crate::arith::{lemma_mul_by_zero, lemma_add_zero};

verus! {

/// What a material makes of a ray: the colour it lets through by channel,
/// the ray that leaves the surface, and whether the path goes on at all.
#[derive(Clone, Copy, Debug, PartialEq, Eq, Structural)]
pub struct Scatter {
    pub attenuation: Vec3f32,
    pub scattered: Ray,
    pub proceed: bool,
}

/// The colour that lets everything through: one in each channel.
pub open spec fn white() -> Vec3f32 {
    Vec3f32 {
        x: Binary32 { bits: ONE_BITS },
        y: Binary32 { bits: ONE_BITS },
        z: Binary32 { bits: ONE_BITS },
    }
}

/// The mirror image of the direction `v` at a surface with normal `n`:
/// `v - n * 2 * dot(v, n)`.
pub open spec fn reflect_spec(v: Vec3f32, n: Vec3f32) -> Vec3f32 {
    v.spec_sub(n.spec_scale(Binary32 { bits: TWO_BITS }).spec_scale(v.spec_dot(n)))
}

/// `x` to the fifth power, as `((x * x) * (x * x)) * x`.
pub open spec fn fifth_power_spec(x: Binary32) -> Binary32 {
    let square = x.spec_mul(x);
    square.spec_mul(square).spec_mul(x)
}

/// Schlick's estimate of how much a glass surface reflects at the given
/// cosine: `r0 + (1 - r0) * (1 - cosine)^5` with `r0 = ((1 - n) / (1 + n))^2`.
pub open spec fn schlick_spec(cosine: Binary32, refractive_index: Binary32) -> Binary32 {
    let one = Binary32 { bits: ONE_BITS };
    let ratio = one.spec_sub(refractive_index).spec_div(one.spec_add(refractive_index));
    let r0 = ratio.spec_mul(ratio);
    r0.spec_add(one.spec_sub(r0).spec_mul(fifth_power_spec(one.spec_sub(cosine))))
}

/// Whether the ray leaves the sphere: its direction points along the normal.
pub open spec fn exits_spec(direction: Vec3f32, normal: Vec3f32) -> bool {
    (Binary32 { bits: 0 }).spec_lt(direction.spec_dot(normal))
}

/// The normal on the side the ray comes from.
pub open spec fn outward_normal_spec(direction: Vec3f32, normal: Vec3f32) -> Vec3f32 {
    if exits_spec(direction, normal) {
        normal.spec_neg()
    } else {
        normal
    }
}

/// The ratio of the refractive indices, of the side the ray comes from to
/// the side it goes to.
pub open spec fn index_ratio_spec(
    direction: Vec3f32,
    normal: Vec3f32,
    refractive_index: Binary32,
) -> Binary32 {
    if exits_spec(direction, normal) {
        refractive_index
    } else {
        (Binary32 { bits: ONE_BITS }).spec_div(refractive_index)
    }
}

/// The cosine that Schlick's estimate is taken at.
pub open spec fn cosine_spec(direction: Vec3f32, normal: Vec3f32, refractive_index: Binary32) -> Binary32 {
    if exits_spec(direction, normal) {
        refractive_index.spec_mul(direction.spec_dot(normal)).spec_div(direction.spec_length())
    } else {
        direction.spec_dot(normal).spec_neg().spec_div(direction.spec_length())
    }
}

/// The discriminant of refraction, `1 - ratio^2 * (1 - dt^2)` with `dt` the
/// dot product of the unit direction and the outward normal. Refraction is
/// possible only where it is above zero.
pub open spec fn refraction_discriminant_spec(
    direction: Vec3f32,
    normal: Vec3f32,
    refractive_index: Binary32,
) -> Binary32 {
    let one = Binary32 { bits: ONE_BITS };
    let ratio = index_ratio_spec(direction, normal, refractive_index);
    let dt = direction.spec_unit_vector().spec_dot(outward_normal_spec(direction, normal));
    one.spec_sub(ratio.spec_mul(ratio).spec_mul(one.spec_sub(dt.spec_mul(dt))))
}

/// The refracted direction, `(v - n * dt) * ratio - n * sqrt(discriminant)`
/// with `v` the unit direction and `n` the outward normal.
pub open spec fn refract_spec(direction: Vec3f32, normal: Vec3f32, refractive_index: Binary32) -> Vec3f32 {
    let unit = direction.spec_unit_vector();
    let outward = outward_normal_spec(direction, normal);
    let ratio = index_ratio_spec(direction, normal, refractive_index);
    let dt = unit.spec_dot(outward);
    let discriminant = refraction_discriminant_spec(direction, normal, refractive_index);
    unit.spec_sub(outward.spec_scale(dt)).spec_scale(ratio).spec_sub(
        outward.spec_scale(discriminant.spec_sqrt()),
    )
}

/// The chance that a glass surface reflects: Schlick's estimate where
/// refraction is possible, and one where it is not.
pub open spec fn reflect_chance_spec(
    direction: Vec3f32,
    normal: Vec3f32,
    refractive_index: Binary32,
) -> Binary32 {
    if (Binary32 { bits: 0 }).spec_lt(
        refraction_discriminant_spec(direction, normal, refractive_index),
    ) {
        schlick_spec(cosine_spec(direction, normal, refractive_index), refractive_index)
    } else {
        Binary32 { bits: ONE_BITS }
    }
}

/// What a diffuse surface makes of a ray: it leaves along the normal plus
/// the sampled point, tinted by the albedo, and always goes on.
pub open spec fn lambertian_spec(albedo: Vec3f32, rec: HitRecord, sample: BounceSample) -> Scatter {
    Scatter {
        attenuation: albedo,
        scattered: Ray { a: rec.p, b: rec.normal.spec_add(sample.point) },
        proceed: true,
    }
}

/// What a metal surface makes of a ray: it leaves along the mirror image of
/// its unit direction, pushed aside by the sampled point times the fuzz, and
/// tinted by the albedo. The path goes on only if the new direction points
/// away from the surface.
pub open spec fn metal_spec(
    albedo: Vec3f32,
    fuzz: Binary32,
    r_in: Ray,
    rec: HitRecord,
    sample: BounceSample,
) -> Scatter {
    let reflected = reflect_spec(r_in.b.spec_unit_vector(), rec.normal);
    let direction = reflected.spec_add(sample.point.spec_scale(fuzz));
    Scatter {
        attenuation: albedo,
        scattered: Ray { a: rec.p, b: direction },
        proceed: (Binary32 { bits: 0 }).spec_lt(direction.spec_dot(rec.normal)),
    }
}

/// What glass makes of a ray: it is reflected if the draw is below the
/// chance of reflection, and refracted otherwise; nothing is taken from its
/// colour, and the path always goes on.
pub open spec fn dielectric_spec(
    refractive_index: Binary32,
    r_in: Ray,
    rec: HitRecord,
    sample: BounceSample,
) -> Scatter {
    let reflected = reflect_spec(r_in.b.spec_unit_vector(), rec.normal);
    let refracted = if (Binary32 { bits: 0 }).spec_lt(
        refraction_discriminant_spec(r_in.b, rec.normal, refractive_index),
    ) {
        refract_spec(r_in.b, rec.normal, refractive_index)
    } else {
        Vec3f32::spec_zeroes()
    };
    let chance = reflect_chance_spec(r_in.b, rec.normal, refractive_index);
    Scatter {
        attenuation: white(),
        scattered: Ray {
            a: rec.p,
            b: if sample.draw.spec_lt(chance) {
                reflected
            } else {
                refracted
            },
        },
        proceed: true,
    }
}

/// What the material makes of the ray `r_in` that hit at `rec`, with the
/// chance `sample`.
pub open spec fn scatter_spec(material: Material, r_in: Ray, rec: HitRecord, sample: BounceSample) -> Scatter {
    match material {
        Material::Lambertian { albedo } => lambertian_spec(albedo, rec, sample),
        Material::Metal { albedo, fuzz } => metal_spec(albedo, fuzz, r_in, rec, sample),
        Material::Dielectric { refractive_index } => dielectric_spec(
            refractive_index,
            r_in,
            rec,
            sample,
        ),
    }
}

/// Glass that cannot refract reflects, whatever the draw.
pub proof fn lemma_total_internal_reflection(
    refractive_index: Binary32,
    r_in: Ray,
    rec: HitRecord,
    sample: BounceSample,
)
    requires
        is_unit_draw(sample.draw),
        !(Binary32 { bits: 0 }).spec_lt(
            refraction_discriminant_spec(r_in.b, rec.normal, refractive_index),
        ),
    ensures
        dielectric_spec(refractive_index, r_in, rec, sample).scattered.b == reflect_spec(
            r_in.b.spec_unit_vector(),
            rec.normal,
        ),
{
}

/// Metal without fuzz is a perfect mirror: whatever the sampled point, the
/// ray leaves along the mirror image of its unit direction.
pub proof fn lemma_smooth_metal_mirrors(
    albedo: Vec3f32,
    fuzz: Binary32,
    r_in: Ray,
    rec: HitRecord,
    sample: BounceSample,
)
    requires
        fuzz.is_zero(),
        sample.point.is_finite(),
    ensures
        metal_spec(albedo, fuzz, r_in, rec, sample).scattered.b.same_as(
            reflect_spec(r_in.b.spec_unit_vector(), rec.normal),
        ),
{
    let reflected = reflect_spec(r_in.b.spec_unit_vector(), rec.normal);
    let push = sample.point.spec_scale(fuzz);
    lemma_mul_by_zero(sample.point.x, fuzz);
    lemma_mul_by_zero(sample.point.y, fuzz);
    lemma_mul_by_zero(sample.point.z, fuzz);
    lemma_add_zero(reflected.x, push.x);
    lemma_add_zero(reflected.y, push.y);
    lemma_add_zero(reflected.z, push.z);
}

/// The mirror image of the direction `v` at a surface with normal `n`.
pub fn reflect(v: &Vec3f32, n: &Vec3f32) -> (r: Vec3f32)
    ensures
        r == reflect_spec(*v, *n),
{
    *v - (*n * Binary32 { bits: TWO_BITS } * v.dot_product(n))
}

/// `x` to the fifth power.
pub fn fifth_power(x: Binary32) -> (r: Binary32)
    ensures
        r == fifth_power_spec(x),
{
    let square = x * x;
    square * square * x
}

/// Schlick's estimate of how much a glass surface reflects.
pub fn schlick(cosine: Binary32, refractive_index: Binary32) -> (r: Binary32)
    ensures
        r == schlick_spec(cosine, refractive_index),
{
    let one = Binary32::one();
    let ratio = (one - refractive_index) / (one + refractive_index);
    let r0 = ratio * ratio;
    r0 + (one - r0) * fifth_power(one - cosine)
}

/// What a diffuse surface makes of a ray.
pub fn scatter_lambertian(albedo: &Vec3f32, rec: &HitRecord, sample: &BounceSample) -> (s: Scatter)
    ensures
        s == lambertian_spec(*albedo, *rec, *sample),
        s.attenuation == *albedo,
        s.proceed,
{
    Scatter {
        attenuation: *albedo,
        scattered: Ray { a: rec.p, b: rec.normal + sample.point },
        proceed: true,
    }
}

/// What a metal surface makes of a ray.
pub fn scatter_metal(
    albedo: &Vec3f32,
    fuzz: Binary32,
    r_in: &Ray,
    rec: &HitRecord,
    sample: &BounceSample,
) -> (s: Scatter)
    ensures
        s == metal_spec(*albedo, fuzz, *r_in, *rec, *sample),
        s.attenuation == *albedo,
        s.proceed == (Binary32 { bits: 0 }).spec_lt(s.scattered.b.spec_dot(rec.normal)),
{
    let unit_direction = r_in.b.unit_vector();
    let reflected = reflect(&unit_direction, &rec.normal);
    let direction = reflected + (sample.point * fuzz);
    Scatter {
        attenuation: *albedo,
        scattered: Ray { a: rec.p, b: direction },
        proceed: direction.dot_product(&rec.normal).gt(Binary32::zero()),
    }
}

/// What glass makes of a ray. Where refraction is impossible the ray is
/// reflected whatever the draw, as long as the draw is below one.
pub fn scatter_dielectric(
    refractive_index: Binary32,
    r_in: &Ray,
    rec: &HitRecord,
    sample: &BounceSample,
) -> (s: Scatter)
    ensures
        s == dielectric_spec(refractive_index, *r_in, *rec, *sample),
        s.attenuation == white(),
        s.proceed,
        is_unit_draw(sample.draw) && !(Binary32 { bits: 0 }).spec_lt(
            refraction_discriminant_spec(r_in.b, rec.normal, refractive_index),
        ) ==> s.scattered.b == reflect_spec(r_in.b.spec_unit_vector(), rec.normal),
{
    let zero = Binary32::zero();
    let one = Binary32::one();
    let unit_direction = r_in.b.unit_vector();
    let reflected = reflect(&unit_direction, &rec.normal);
    let along = r_in.b.dot_product(&rec.normal);
    let outward_normal: Vec3f32;
    let ni_over_nt: Binary32;
    let cosine: Binary32;
    if along.gt(zero) {
        outward_normal = Vec3f32 { x: rec.normal.x.neg(), y: rec.normal.y.neg(), z: rec.normal.z.neg() };
        ni_over_nt = refractive_index;
        cosine = ni_over_nt * along / r_in.b.length();
    } else {
        outward_normal = rec.normal;
        ni_over_nt = one / refractive_index;
        cosine = along.neg() / r_in.b.length();
    }
    let dt = unit_direction.dot_product(&outward_normal);
    let discriminant = one - ni_over_nt * ni_over_nt * (one - dt * dt);
    let refracted: Vec3f32;
    let reflect_prob: Binary32;
    if discriminant.gt(zero) {
        refracted = (unit_direction - outward_normal * dt) * ni_over_nt - outward_normal
            * discriminant.sqrt();
        reflect_prob = schlick(cosine, refractive_index);
    } else {
        refracted = Vec3f32::zeroes();
        reflect_prob = one;
    }
    let direction = if sample.draw.lt(reflect_prob) {
        reflected
    } else {
        refracted
    };
    Scatter {
        attenuation: Vec3f32 { x: one, y: one, z: one },
        scattered: Ray { a: rec.p, b: direction },
        proceed: true,
    }
}

/// What the material makes of the ray `r_in` that hit at `rec`, with the
/// chance `sample`: the colour it lets through, the ray that leaves, and
/// whether the path goes on.
pub fn scatter(material: &Material, r_in: &Ray, rec: &HitRecord, sample: &BounceSample) -> (s: Scatter)
    ensures
        s == scatter_spec(*material, *r_in, *rec, *sample),
        material matches Material::Lambertian { albedo } ==> s.attenuation == albedo && s.proceed,
        material matches Material::Metal { albedo, fuzz } ==> s.attenuation == albedo,
        material matches Material::Dielectric { refractive_index } ==> s.attenuation == white()
            && s.proceed,
{
    match material {
        Material::Lambertian { albedo } => scatter_lambertian(albedo, rec, sample),
        Material::Metal { albedo, fuzz } => scatter_metal(albedo, *fuzz, r_in, rec, sample),
        Material::Dielectric { refractive_index } => scatter_dielectric(
            *refractive_index,
            r_in,
            rec,
            sample,
        ),
    }
}

} // verus!

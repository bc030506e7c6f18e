//! Three binary32 numbers: a point, a direction or a colour.

use vstd::prelude::*;
use vstd::std_specs::ops::{AddSpecImpl, SubSpecImpl, MulSpecImpl, DivSpecImpl, NegSpecImpl};
use crate::binary32::Binary32;
use crate::arith::{same_value, lemma_mul_by_zero, lemma_add_zero};

verus! {

/// A vector of three binary32 numbers. Nothing keeps it at unit length:
/// a caller that needs a unit direction makes one with `normalize` or
/// `unit_vector`.
#[derive(Clone, Copy, Debug, PartialEq, Eq, Structural)]
pub struct Vec3f32 {
    pub x: Binary32,
    pub y: Binary32,
    pub z: Binary32,
}

impl Vec3f32 {
    /// The vector of three positive zeros.
    pub open spec fn spec_zeroes() -> Vec3f32 {
        Vec3f32 { x: Binary32 { bits: 0 }, y: Binary32 { bits: 0 }, z: Binary32 { bits: 0 } }
    }

    /// The sum by components.
    pub open spec fn spec_add(self, other: Vec3f32) -> Vec3f32 {
        Vec3f32 {
            x: self.x.spec_add(other.x),
            y: self.y.spec_add(other.y),
            z: self.z.spec_add(other.z),
        }
    }

    /// The difference by components.
    pub open spec fn spec_sub(self, other: Vec3f32) -> Vec3f32 {
        Vec3f32 {
            x: self.x.spec_sub(other.x),
            y: self.y.spec_sub(other.y),
            z: self.z.spec_sub(other.z),
        }
    }

    /// The product by components.
    pub open spec fn spec_mul(self, other: Vec3f32) -> Vec3f32 {
        Vec3f32 {
            x: self.x.spec_mul(other.x),
            y: self.y.spec_mul(other.y),
            z: self.z.spec_mul(other.z),
        }
    }

    /// Each component plus `k`.
    pub open spec fn spec_offset(self, k: Binary32) -> Vec3f32 {
        Vec3f32 { x: self.x.spec_add(k), y: self.y.spec_add(k), z: self.z.spec_add(k) }
    }

    /// Each component minus `k`.
    pub open spec fn spec_inset(self, k: Binary32) -> Vec3f32 {
        Vec3f32 { x: self.x.spec_sub(k), y: self.y.spec_sub(k), z: self.z.spec_sub(k) }
    }

    /// Each component times `k`.
    pub open spec fn spec_scale(self, k: Binary32) -> Vec3f32 {
        Vec3f32 { x: self.x.spec_mul(k), y: self.y.spec_mul(k), z: self.z.spec_mul(k) }
    }

    /// Each component divided by `k`.
    pub open spec fn spec_shrink(self, k: Binary32) -> Vec3f32 {
        Vec3f32 { x: self.x.spec_div(k), y: self.y.spec_div(k), z: self.z.spec_div(k) }
    }

    /// Each component negated.
    pub open spec fn spec_neg(self) -> Vec3f32 {
        Vec3f32 { x: self.x.spec_neg(), y: self.y.spec_neg(), z: self.z.spec_neg() }
    }

    /// The dot product: the three products summed from left to right.
    pub open spec fn spec_dot(self, other: Vec3f32) -> Binary32 {
        self.x.spec_mul(other.x).spec_add(self.y.spec_mul(other.y)).spec_add(
            self.z.spec_mul(other.z),
        )
    }

    /// The cross product.
    pub open spec fn spec_cross(self, other: Vec3f32) -> Vec3f32 {
        Vec3f32 {
            x: self.y.spec_mul(other.z).spec_sub(self.z.spec_mul(other.y)),
            y: self.z.spec_mul(other.x).spec_sub(self.x.spec_mul(other.z)),
            z: self.x.spec_mul(other.y).spec_sub(self.y.spec_mul(other.x)),
        }
    }

    /// The dot product with itself.
    pub open spec fn spec_squared_length(self) -> Binary32 {
        self.spec_dot(self)
    }

    /// The square root of the squared length.
    pub open spec fn spec_length(self) -> Binary32 {
        self.spec_squared_length().spec_sqrt()
    }

    /// The vector times the inverse of its length, or the vector itself
    /// where the length is not above zero.
    pub open spec fn spec_normalize(self) -> Vec3f32 {
        let magnitude = self.spec_length();
        if (Binary32 { bits: 0 }).spec_lt(magnitude) {
            self.spec_scale((Binary32 { bits: 0x3f80_0000 }).spec_div(magnitude))
        } else {
            self
        }
    }

    /// The vector divided by its length.
    pub open spec fn spec_unit_vector(self) -> Vec3f32 {
        self.spec_shrink(self.spec_length())
    }

    /// Whether the three components are the same by value as those of
    /// `other`.
    pub open spec fn same_as(self, other: Vec3f32) -> bool {
        same_value(self.x, other.x) && same_value(self.y, other.y) && same_value(self.z, other.z)
    }

    /// Whether the three components are finite.
    pub open spec fn is_finite(self) -> bool {
        self.x.is_finite() && self.y.is_finite() && self.z.is_finite()
    }

    /// The vector of three positive zeros.
    pub fn zeroes() -> (r: Vec3f32)
        ensures
            r == Vec3f32::spec_zeroes(),
    {
        Vec3f32 { x: Binary32::zero(), y: Binary32::zero(), z: Binary32::zero() }
    }

    /// The vector with the given components.
    pub fn new_from_points(x: Binary32, y: Binary32, z: Binary32) -> (r: Vec3f32)
        ensures
            r == (Vec3f32 { x, y, z }),
    {
        Vec3f32 { x, y, z }
    }

    /// The dot product.
    pub fn dot_product(&self, product: &Vec3f32) -> (r: Binary32)
        ensures
            r == self.spec_dot(*product),
    {
        (self.x * product.x) + (self.y * product.y) + (self.z * product.z)
    }

    /// The cross product.
    pub fn cross_product(&self, product: &Vec3f32) -> (r: Vec3f32)
        ensures
            r == self.spec_cross(*product),
    {
        Vec3f32 {
            x: self.y * product.z - self.z * product.y,
            y: self.z * product.x - self.x * product.z,
            z: self.x * product.y - self.y * product.x,
        }
    }

    /// The Euclidean norm.
    pub fn norm(&self) -> (r: Binary32)
        ensures
            r == self.spec_length(),
    {
        self.dot_product(self).sqrt()
    }

    /// The squared length.
    pub fn squared_length(&self) -> (r: Binary32)
        ensures
            r == self.spec_squared_length(),
    {
        self.dot_product(self)
    }

    /// The length: the Euclidean norm.
    pub fn length(&self) -> (r: Binary32)
        ensures
            r == self.spec_length(),
    {
        self.dot_product(self).sqrt()
    }

    /// The vector scaled to unit length by the inverse of its length. A
    /// vector whose length is zero, or not a number, comes back as it is: the
    /// zero vector stays the zero vector.
    pub fn normalize(&self) -> (r: Vec3f32)
        ensures
            r == self.spec_normalize(),
            *self == Vec3f32::spec_zeroes() ==> r == Vec3f32::spec_zeroes(),
    {
        proof {
            lemma_zero_vector();
        }
        let magnitude = self.dot_product(self).sqrt();
        if magnitude.gt(Binary32::zero()) {
            let inverse_mag = Binary32::one() / magnitude;
            Vec3f32 { x: self.x * inverse_mag, y: self.y * inverse_mag, z: self.z * inverse_mag }
        } else {
            *self
        }
    }

    /// The vector divided by its length. Unlike `normalize` it divides
    /// whatever the length is, so the zero vector gives three NaNs.
    pub fn unit_vector(&self) -> (r: Vec3f32)
        ensures
            r == self.spec_unit_vector(),
    {
        *self / self.length()
    }
}

/// The zero vector has a squared length and a length of zero, in the
/// positive zero's pattern, and normalizing it gives the zero vector back.
pub proof fn lemma_zero_vector()
    ensures
        Vec3f32::spec_zeroes().spec_squared_length() == (Binary32 { bits: 0 }),
        Vec3f32::spec_zeroes().spec_length() == (Binary32 { bits: 0 }),
        Vec3f32::spec_zeroes().spec_normalize() == Vec3f32::spec_zeroes(),
{
    let zero = Binary32 { bits: 0 };
    lemma_mul_by_zero(zero, zero);
    lemma_add_zero(zero, zero);
    crate::binary32::lemma_magnitude_order(0, zero.spec_mul(zero).abs_bits());
    assert(crate::binary32::magnitude_of(0) == 0);
    assert(zero.spec_mul(zero) == zero);
    assert(zero.spec_add(zero) == zero);
}

impl core::ops::Add<Vec3f32> for Vec3f32 {
    type Output = Vec3f32;

    fn add(self, other: Vec3f32) -> (r: Vec3f32) {
        Vec3f32 { x: self.x + other.x, y: self.y + other.y, z: self.z + other.z }
    }
}

impl AddSpecImpl<Vec3f32> for Vec3f32 {
    open spec fn obeys_add_spec() -> bool {
        true
    }

    open spec fn add_req(self, other: Vec3f32) -> bool {
        true
    }

    open spec fn add_spec(self, other: Vec3f32) -> Vec3f32 {
        self.spec_add(other)
    }
}

impl core::ops::Add<Binary32> for Vec3f32 {
    type Output = Vec3f32;

    fn add(self, other: Binary32) -> (r: Vec3f32) {
        Vec3f32 { x: self.x + other, y: self.y + other, z: self.z + other }
    }
}

impl AddSpecImpl<Binary32> for Vec3f32 {
    open spec fn obeys_add_spec() -> bool {
        true
    }

    open spec fn add_req(self, other: Binary32) -> bool {
        true
    }

    open spec fn add_spec(self, other: Binary32) -> Vec3f32 {
        self.spec_offset(other)
    }
}

impl core::ops::Mul<Vec3f32> for Vec3f32 {
    type Output = Vec3f32;

    fn mul(self, other: Vec3f32) -> (r: Vec3f32) {
        Vec3f32 { x: self.x * other.x, y: self.y * other.y, z: self.z * other.z }
    }
}

impl MulSpecImpl<Vec3f32> for Vec3f32 {
    open spec fn obeys_mul_spec() -> bool {
        true
    }

    open spec fn mul_req(self, other: Vec3f32) -> bool {
        true
    }

    open spec fn mul_spec(self, other: Vec3f32) -> Vec3f32 {
        self.spec_mul(other)
    }
}

impl core::ops::Mul<Binary32> for Vec3f32 {
    type Output = Vec3f32;

    fn mul(self, other: Binary32) -> (r: Vec3f32) {
        Vec3f32 { x: self.x * other, y: self.y * other, z: self.z * other }
    }
}

impl MulSpecImpl<Binary32> for Vec3f32 {
    open spec fn obeys_mul_spec() -> bool {
        true
    }

    open spec fn mul_req(self, other: Binary32) -> bool {
        true
    }

    open spec fn mul_spec(self, other: Binary32) -> Vec3f32 {
        self.spec_scale(other)
    }
}

impl core::ops::Sub<Vec3f32> for Vec3f32 {
    type Output = Vec3f32;

    fn sub(self, other: Vec3f32) -> (r: Vec3f32) {
        Vec3f32 { x: self.x - other.x, y: self.y - other.y, z: self.z - other.z }
    }
}

impl SubSpecImpl<Vec3f32> for Vec3f32 {
    open spec fn obeys_sub_spec() -> bool {
        true
    }

    open spec fn sub_req(self, other: Vec3f32) -> bool {
        true
    }

    open spec fn sub_spec(self, other: Vec3f32) -> Vec3f32 {
        self.spec_sub(other)
    }
}

impl core::ops::Sub<Binary32> for Vec3f32 {
    type Output = Vec3f32;

    fn sub(self, other: Binary32) -> (r: Vec3f32) {
        Vec3f32 { x: self.x - other, y: self.y - other, z: self.z - other }
    }
}

impl SubSpecImpl<Binary32> for Vec3f32 {
    open spec fn obeys_sub_spec() -> bool {
        true
    }

    open spec fn sub_req(self, other: Binary32) -> bool {
        true
    }

    open spec fn sub_spec(self, other: Binary32) -> Vec3f32 {
        self.spec_inset(other)
    }
}

impl core::ops::Div<Binary32> for Vec3f32 {
    type Output = Vec3f32;

    fn div(self, other: Binary32) -> (r: Vec3f32) {
        Vec3f32 { x: self.x / other, y: self.y / other, z: self.z / other }
    }
}

impl DivSpecImpl<Binary32> for Vec3f32 {
    open spec fn obeys_div_spec() -> bool {
        true
    }

    open spec fn div_req(self, other: Binary32) -> bool {
        true
    }

    open spec fn div_spec(self, other: Binary32) -> Vec3f32 {
        self.spec_shrink(other)
    }
}

impl core::ops::Neg for Vec3f32 {
    type Output = Vec3f32;

    fn neg(self) -> (r: Vec3f32) {
        Vec3f32 { x: self.x.neg(), y: self.y.neg(), z: self.z.neg() }
    }
}

impl NegSpecImpl for Vec3f32 {
    open spec fn obeys_neg_spec() -> bool {
        true
    }

    open spec fn neg_req(self) -> bool {
        true
    }

    open spec fn neg_spec(self) -> Vec3f32 {
        self.spec_neg()
    }
}

impl core::ops::MulAssign<Binary32> for Vec3f32 {
    fn mul_assign(&mut self, other: Binary32)
        ensures
            *final(self) == old(self).spec_scale(other),
    {
        self.x = self.x * other;
        self.y = self.y * other;
        self.z = self.z * other;
    }
}

impl core::ops::MulAssign<Vec3f32> for Vec3f32 {
    fn mul_assign(&mut self, other: Vec3f32)
        ensures
            *final(self) == old(self).spec_mul(other),
    {
        self.x = self.x * other.x;
        self.y = self.y * other.y;
        self.z = self.z * other.z;
    }
}

} // verus!

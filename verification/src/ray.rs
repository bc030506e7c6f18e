//! A ray: the points `origin + t * direction`.

use vstd::prelude::*;
use crate::binary32::Binary32;
use crate::vec3f::Vec3f32;

verus! {

/// A ray from the origin `a` along the direction `b`, which need not have
/// unit length.
#[derive(Clone, Copy, Debug, PartialEq, Eq, Structural)]
pub struct Ray {
    pub a: Vec3f32,
    pub b: Vec3f32,
}

impl Ray {
    /// The point at parameter `t`: the origin plus `t` times the direction.
    pub open spec fn spec_point_at(self, t: Binary32) -> Vec3f32 {
        self.a.spec_add(self.b.spec_scale(t))
    }

    /// The ray from the zero vector along the zero vector.
    pub fn zeroes() -> (r: Ray)
        ensures
            r.a == Vec3f32::spec_zeroes(),
            r.b == Vec3f32::spec_zeroes(),
    {
        Ray { a: Vec3f32::zeroes(), b: Vec3f32::zeroes() }
    }

    /// The ray from `a` along `b`.
    pub fn new_from_vector(a: &Vec3f32, b: &Vec3f32) -> (r: Ray)
        ensures
            r.a == *a,
            r.b == *b,
    {
        Ray { a: *a, b: *b }
    }

    /// The origin. The ray is left as it was.
    pub fn origin(&mut self) -> (r: Vec3f32)
        ensures
            r == old(self).a,
            *final(self) == *old(self),
    {
        self.a
    }

    /// The direction. The ray is left as it was.
    pub fn direction(&mut self) -> (r: Vec3f32)
        ensures
            r == old(self).b,
            *final(self) == *old(self),
    {
        self.b
    }

    /// The point at parameter `t`.
    pub fn point_at_parameter(&self, t: &Binary32) -> (r: Vec3f32)
        ensures
            r == self.spec_point_at(*t),
    {
        self.a + (self.b * *t)
    }
}

} // verus!

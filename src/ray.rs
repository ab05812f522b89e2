//! A ray: an origin and a direction, evaluated along a parameter.
use vstd::prelude::*;
use crate::numeric::Numeric;
use crate::vec3::{Vec3, Triple, tadd, tscale, fits_all};

verus! {

/// The point `origin + direction * t`.
pub open spec fn point_at(origin: Triple, direction: Triple, t: int) -> Triple {
    tadd(origin, tscale(direction, t))
}

/// An origin point and a direction, which need not have unit length.
#[derive(Debug, Clone, Copy)]
pub struct Ray<T: Numeric> {
    orig: Vec3<T>,
    dir: Vec3<T>,
}

impl<T: Numeric> Ray<T> {
    pub fn new(origin: Vec3<T>, direction: Vec3<T>) -> (r: Ray<T>)
        ensures
            r.origin_view() == origin@,
            r.direction_view() == direction@,
    {
        Ray { orig: origin, dir: direction }
    }

    pub closed spec fn origin_view(&self) -> Triple {
        self.orig@
    }

    pub closed spec fn direction_view(&self) -> Triple {
        self.dir@
    }

    pub fn origin(&self) -> (r: Vec3<T>)
        ensures
            r@ == self.origin_view(),
    {
        self.orig
    }

    pub fn direction(&self) -> (r: Vec3<T>)
        ensures
            r@ == self.direction_view(),
    {
        self.dir
    }

    /// The point reached after travelling `t` times the direction from the
    /// origin; any `t`, negative included, is accepted.
    pub fn position_at(&self, t: T) -> (r: Vec3<T>)
        requires
            fits_all::<T>(tscale(self.direction_view(), t.val())),
            fits_all::<T>(point_at(self.origin_view(), self.direction_view(), t.val())),
        ensures
            r@ == point_at(self.origin_view(), self.direction_view(), t.val()),
    {
        self.orig.add(self.dir.mul_scalar(t))
    }
}

} // verus!

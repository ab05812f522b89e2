//! The three-component vector shared by points, directions and colors.
use vstd::prelude::*;
use crate::numeric::{Numeric, SignedNumeric, trunc_div, floor_sqrt, is_floor_sqrt, lemma_floor_sqrt_exists, lemma_floor_sqrt_bounds, lemma_trunc_div_shrinks};

verus! {

/// The mathematical value of a vector: three integers.
pub struct Triple {
    pub x: int,
    pub y: int,
    pub z: int,
}

pub open spec fn triple(x: int, y: int, z: int) -> Triple {
    Triple { x, y, z }
}

pub open spec fn tzero() -> Triple {
    triple(0, 0, 0)
}

pub open spec fn tadd(a: Triple, b: Triple) -> Triple {
    triple(a.x + b.x, a.y + b.y, a.z + b.z)
}

pub open spec fn tsub(a: Triple, b: Triple) -> Triple {
    triple(a.x - b.x, a.y - b.y, a.z - b.z)
}

/// Componentwise product.
pub open spec fn tmul(a: Triple, b: Triple) -> Triple {
    triple(a.x * b.x, a.y * b.y, a.z * b.z)
}

/// Componentwise quotient, rounded toward zero.
pub open spec fn tquot(a: Triple, b: Triple) -> Triple {
    triple(trunc_div(a.x, b.x), trunc_div(a.y, b.y), trunc_div(a.z, b.z))
}

pub open spec fn tscale(a: Triple, s: int) -> Triple {
    triple(a.x * s, a.y * s, a.z * s)
}

pub open spec fn tquot_scalar(a: Triple, s: int) -> Triple {
    triple(trunc_div(a.x, s), trunc_div(a.y, s), trunc_div(a.z, s))
}

pub open spec fn tneg(a: Triple) -> Triple {
    triple(-a.x, -a.y, -a.z)
}

pub open spec fn tsum(a: Triple) -> int {
    a.x + a.y + a.z
}

pub open spec fn tdot(a: Triple, b: Triple) -> int {
    a.x * b.x + a.y * b.y + a.z * b.z
}

pub open spec fn tcross(a: Triple, b: Triple) -> Triple {
    triple(a.y * b.z - a.z * b.y, a.z * b.x - a.x * b.z, a.x * b.y - a.y * b.x)
}

/// The squared Euclidean length.
pub open spec fn tmag_sq(a: Triple) -> int {
    tdot(a, a)
}

/// The Euclidean length rounded down.
pub open spec fn tmag(a: Triple) -> int {
    floor_sqrt(tmag_sq(a))
}

/// Each component of `t` is a value of `T`.
pub open spec fn fits_all<T: Numeric>(t: Triple) -> bool {
    T::fits(t.x) && T::fits(t.y) && T::fits(t.z)
}

/// Summing `t` left to right stays within `T`.
pub open spec fn sum_fits<T: Numeric>(t: Triple) -> bool {
    T::fits(t.x + t.y) && T::fits(t.x + t.y + t.z)
}

/// Every step of the dot product of `a` and `b` stays within `T`.
pub open spec fn dot_fits<T: Numeric>(a: Triple, b: Triple) -> bool {
    fits_all::<T>(tmul(a, b)) && sum_fits::<T>(tmul(a, b))
}

/// Every step of the cross product of `a` and `b` stays within `T`.
pub open spec fn cross_fits<T: Numeric>(a: Triple, b: Triple) -> bool {
    &&& T::fits(a.y * b.z) && T::fits(a.z * b.y)
    &&& T::fits(a.z * b.x) && T::fits(a.x * b.z)
    &&& T::fits(a.x * b.y) && T::fits(a.y * b.x)
    &&& fits_all::<T>(tcross(a, b))
}

/// Each quotient of `a` by a nonzero component of `b` stays within `T`.
pub open spec fn quot_fits<T: Numeric>(a: Triple, b: Triple) -> bool {
    &&& b.x != 0 ==> T::fits(trunc_div(a.x, b.x))
    &&& b.y != 0 ==> T::fits(trunc_div(a.y, b.y))
    &&& b.z != 0 ==> T::fits(trunc_div(a.z, b.z))
}

/// Failures of vector division.
#[derive(Debug, Clone, Copy, PartialEq, Eq, Structural)]
pub enum VecError {
    /// A divisor, or a component of a divisor vector, is zero.
    DivisionByZero,
    /// A vector of zero length has no direction to normalise to.
    ZeroMagnitude,
}

/// A vector, point or color with components of type `T`.
#[derive(Debug, Clone, Copy, PartialEq)]
pub struct Vec3<T: Numeric> {
    x: T,
    y: T,
    z: T,
}

pub type Point = Vec3<i64>;

pub type Vector = Vec3<i64>;

pub type Color = Vec3<u8>;

impl<T: Numeric> View for Vec3<T> {
    type V = Triple;

    closed spec fn view(&self) -> Triple {
        triple(self.x.val(), self.y.val(), self.z.val())
    }
}

impl<T: Numeric> Vec3<T> {
    pub fn new(x: T, y: T, z: T) -> (r: Vec3<T>)
        ensures
            r@ == triple(x.val(), y.val(), z.val()),
    {
        Vec3 { x, y, z }
    }

    pub fn x(&self) -> (r: T)
        ensures
            r.val() == self@.x,
    {
        self.x
    }

    pub fn y(&self) -> (r: T)
        ensures
            r.val() == self@.y,
    {
        self.y
    }

    pub fn z(&self) -> (r: T)
        ensures
            r.val() == self@.z,
    {
        self.z
    }

    /// `x + y + z`.
    pub fn sum(&self) -> (r: T)
        requires
            sum_fits::<T>(self@),
        ensures
            r.val() == tsum(self@),
    {
        self.x.add(self.y).add(self.z)
    }

    pub fn dot(&self, other: &Vec3<T>) -> (r: T)
        requires
            dot_fits::<T>(self@, other@),
        ensures
            r.val() == tdot(self@, other@),
    {
        self.mul(*other).sum()
    }

    /// The squared length, `self.dot(self)`.
    pub fn mag_sq(&self) -> (r: T)
        requires
            dot_fits::<T>(self@, self@),
        ensures
            r.val() == tmag_sq(self@),
    {
        self.dot(self)
    }

    /// The length, rounded down to an integer.
    pub fn mag(&self) -> (r: T)
        requires
            dot_fits::<T>(self@, self@),
        ensures
            r.val() == tmag(self@),
            is_floor_sqrt(tmag_sq(self@), r.val()),
    {
        let m = self.mag_sq();
        proof {
            lemma_mag_sq_nonnegative(self@);
        }
        let r = m.sqrt();
        proof {
            lemma_floor_sqrt_exists(m.val());
        }
        r
    }

    pub fn cross(&self, other: &Vec3<T>) -> (r: Vec3<T>)
        requires
            cross_fits::<T>(self@, other@),
        ensures
            r@ == tcross(self@, other@),
    {
        Vec3 {
            x: self.y.mul(other.z).sub(self.z.mul(other.y)),
            y: self.z.mul(other.x).sub(self.x.mul(other.z)),
            z: self.x.mul(other.y).sub(self.y.mul(other.x)),
        }
    }

    /// This vector divided by its (rounded-down) length; a zero vector has no
    /// direction and is refused.
    pub fn unit_vector(&self) -> (r: Result<Vec3<T>, VecError>)
        requires
            dot_fits::<T>(self@, self@),
        ensures
            r is Err <==> self@ == tzero(),
            r is Err ==> r == Err::<Vec3<T>, VecError>(VecError::ZeroMagnitude),
            r matches Ok(u) ==> tmag(self@) > 0 && u@ == tquot_scalar(self@, tmag(self@)),
    {
        let m = self.mag();
        proof {
            lemma_mag_sq_nonnegative(self@);
            lemma_floor_sqrt_bounds(tmag_sq(self@), m.val());
        }
        if m.is_zero() {
            return Err(VecError::ZeroMagnitude);
        }
        proof {
            T::lemma_val_fits(self.x);
            T::lemma_val_fits(self.y);
            T::lemma_val_fits(self.z);
            lemma_quot_fits::<T>(self.x.val(), m.val());
            lemma_quot_fits::<T>(self.y.val(), m.val());
            lemma_quot_fits::<T>(self.z.val(), m.val());
        }
        Ok(Vec3 { x: self.x.div(m), y: self.y.div(m), z: self.z.div(m) })
    }

    /// Componentwise sum.
    pub fn add(self, rhs: Vec3<T>) -> (r: Vec3<T>)
        requires
            fits_all::<T>(tadd(self@, rhs@)),
        ensures
            r@ == tadd(self@, rhs@),
    {
        Vec3 { x: self.x.add(rhs.x), y: self.y.add(rhs.y), z: self.z.add(rhs.z) }
    }

    /// Componentwise difference.
    pub fn sub(self, rhs: Vec3<T>) -> (r: Vec3<T>)
        requires
            fits_all::<T>(tsub(self@, rhs@)),
        ensures
            r@ == tsub(self@, rhs@),
    {
        Vec3 { x: self.x.sub(rhs.x), y: self.y.sub(rhs.y), z: self.z.sub(rhs.z) }
    }

    /// Componentwise product.
    pub fn mul(self, rhs: Vec3<T>) -> (r: Vec3<T>)
        requires
            fits_all::<T>(tmul(self@, rhs@)),
        ensures
            r@ == tmul(self@, rhs@),
    {
        Vec3 { x: self.x.mul(rhs.x), y: self.y.mul(rhs.y), z: self.z.mul(rhs.z) }
    }

    /// Each component times the scalar `s`.
    pub fn mul_scalar(self, s: T) -> (r: Vec3<T>)
        requires
            fits_all::<T>(tscale(self@, s.val())),
        ensures
            r@ == tscale(self@, s.val()),
    {
        Vec3 { x: self.x.mul(s), y: self.y.mul(s), z: self.z.mul(s) }
    }

    /// Componentwise quotient, rounded toward zero; refused when a component
    /// of `rhs` is zero.
    pub fn div(self, rhs: Vec3<T>) -> (r: Result<Vec3<T>, VecError>)
        requires
            quot_fits::<T>(self@, rhs@),
        ensures
            r is Err <==> (rhs@.x == 0 || rhs@.y == 0 || rhs@.z == 0),
            r is Err ==> r == Err::<Vec3<T>, VecError>(VecError::DivisionByZero),
            r matches Ok(q) ==> q@ == tquot(self@, rhs@),
    {
        if rhs.x.is_zero() || rhs.y.is_zero() || rhs.z.is_zero() {
            return Err(VecError::DivisionByZero);
        }
        Ok(Vec3 { x: self.x.div(rhs.x), y: self.y.div(rhs.y), z: self.z.div(rhs.z) })
    }

    /// Each component divided by the scalar `s`, rounded toward zero; refused
    /// when `s` is zero.
    pub fn div_scalar(self, s: T) -> (r: Result<Vec3<T>, VecError>)
        requires
            quot_fits::<T>(self@, triple(s.val(), s.val(), s.val())),
        ensures
            r is Err <==> s.val() == 0,
            r is Err ==> r == Err::<Vec3<T>, VecError>(VecError::DivisionByZero),
            r matches Ok(q) ==> q@ == tquot_scalar(self@, s.val()),
    {
        if s.is_zero() {
            return Err(VecError::DivisionByZero);
        }
        Ok(Vec3 { x: self.x.div(s), y: self.y.div(s), z: self.z.div(s) })
    }
}

impl<T: SignedNumeric> Vec3<T> {
    /// Componentwise negation; offered only for signed component types.
    pub fn neg(self) -> (r: Vec3<T>)
        requires
            fits_all::<T>(tneg(self@)),
        ensures
            r@ == tneg(self@),
    {
        Vec3 { x: self.x.neg(), y: self.y.neg(), z: self.z.neg() }
    }
}

/// Every component of a vector is a value of its type.
pub proof fn lemma_view_fits<T: Numeric>(v: Vec3<T>)
    ensures
        fits_all::<T>(v@),
{
    T::lemma_val_fits(v.x);
    T::lemma_val_fits(v.y);
    T::lemma_val_fits(v.z);
}

/// A squared length is never negative, and is zero only for the zero vector.
pub proof fn lemma_mag_sq_nonnegative(a: Triple)
    ensures
        tmag_sq(a) >= 0,
        tmag_sq(a) == 0 <==> a == tzero(),
{
    assert(a.x * a.x >= 0 && a.y * a.y >= 0 && a.z * a.z >= 0) by (nonlinear_arith);
    if a.x != 0 {
        assert(a.x * a.x > 0) by (nonlinear_arith)
            requires
                a.x != 0,
        ;
    }
    if a.y != 0 {
        assert(a.y * a.y > 0) by (nonlinear_arith)
            requires
                a.y != 0,
        ;
    }
    if a.z != 0 {
        assert(a.z * a.z > 0) by (nonlinear_arith)
            requires
                a.z != 0,
        ;
    }
}

/// Dividing a value of `T` by a positive divisor gives a value of `T`.
proof fn lemma_quot_fits<T: Numeric>(a: int, m: int)
    requires
        T::fits(a),
        m > 0,
    ensures
        T::fits(trunc_div(a, m)),
{
    lemma_trunc_div_shrinks(a, m);
    T::lemma_fits_toward_zero(a, trunc_div(a, m));
}

/// Vector addition is associative: `a + (b + c)` equals `(a + b) + c`.
pub proof fn law_add_associative<T: Numeric>(a: Vec3<T>, b: Vec3<T>, c: Vec3<T>)
    ensures
        tadd(a@, tadd(b@, c@)) == tadd(tadd(a@, b@), c@),
{
}

/// Vector addition is commutative: `a + b` equals `b + a`.
pub proof fn law_add_commutative<T: Numeric>(a: Vec3<T>, b: Vec3<T>)
    ensures
        tadd(a@, b@) == tadd(b@, a@),
{
}

/// The dot product is symmetric: `a.dot(b)` equals `b.dot(a)`.
pub proof fn law_dot_commutative<T: Numeric>(a: Vec3<T>, b: Vec3<T>)
    ensures
        tdot(a@, b@) == tdot(b@, a@),
{
    assert(tdot(a@, b@) == tdot(b@, a@)) by (nonlinear_arith);
}

/// The cross product is anticommutative: `a.cross(b)` equals the negation of
/// `b.cross(a)`, for component types that can be negated.
pub proof fn law_cross_anticommutative<T: SignedNumeric>(a: Vec3<T>, b: Vec3<T>)
    ensures
        tcross(a@, b@) == tneg(tcross(b@, a@)),
{
    let (p, q) = (a@, b@);
    assert(p.y * q.z - p.z * q.y == -(q.y * p.z - q.z * p.y)) by (nonlinear_arith);
    assert(p.z * q.x - p.x * q.z == -(q.z * p.x - q.x * p.z)) by (nonlinear_arith);
    assert(p.x * q.y - p.y * q.x == -(q.x * p.y - q.y * p.x)) by (nonlinear_arith);
}

} // verus!

use raytrace::numeric::Numeric;
use raytrace::vec3::{Color, Point, Vec3, VecError, Vector};

#[test]
fn dot_of_one_two_three_and_four_five_six() {
    let a: Vector = Vec3::new(1, 2, 3);
    let b: Vector = Vec3::new(4, 5, 6);
    assert_eq!(a.dot(&b), 32);
}

#[test]
fn cross_of_x_and_y_axes_is_z_axis() {
    let a: Vector = Vec3::new(1, 0, 0);
    let b: Vector = Vec3::new(0, 1, 0);
    assert_eq!(a.cross(&b), Vec3::new(0, 0, 1));
}

#[test]
fn addition_is_associative_and_commutative() {
    let a: Vector = Vec3::new(1, -2, 30);
    let b: Vector = Vec3::new(-7, 5, 11);
    let c: Vector = Vec3::new(100, 0, -4);
    assert_eq!(a.add(b.add(c)), a.add(b).add(c));
    assert_eq!(a.add(b), b.add(a));
    assert_eq!(a.add(b), Vec3::new(-6, 3, 41));
}

#[test]
fn dot_is_symmetric() {
    let a: Vector = Vec3::new(3, -1, 4);
    let b: Vector = Vec3::new(-2, 7, 5);
    assert_eq!(a.dot(&b), b.dot(&a));
    assert_eq!(a.dot(&b), 7);
}

#[test]
fn cross_is_anticommutative() {
    let a: Vector = Vec3::new(2, 3, 4);
    let b: Vector = Vec3::new(5, 6, 7);
    assert_eq!(a.cross(&b), b.cross(&a).neg());
    assert_eq!(a.cross(&b), Vec3::new(-3, 6, -3));
}

#[test]
fn zero_vector_has_no_unit_vector() {
    let z: Vector = Vec3::new(0, 0, 0);
    assert_eq!(z.unit_vector(), Err(VecError::ZeroMagnitude));
    assert_eq!(z.mag(), 0);
}

#[test]
fn unit_vector_along_an_axis_has_length_one() {
    let v: Vector = Vec3::new(0, 0, -5);
    let u = v.unit_vector().unwrap();
    assert_eq!(u, Vec3::new(0, 0, -1));
    assert_eq!(u.mag(), 1);
}

#[test]
fn unit_vector_divides_by_rounded_length() {
    let v: Vector = Vec3::new(30, 40, 0);
    assert_eq!(v.mag(), 50);
    assert_eq!(v.unit_vector(), Ok(Vec3::new(0, 0, 0)));
    let w: Vector = Vec3::new(1, 1, 1);
    assert_eq!(w.mag_sq(), 3);
    assert_eq!(w.unit_vector(), Ok(Vec3::new(1, 1, 1)));
}

#[test]
fn magnitude_is_rounded_down_square_root() {
    let v: Vector = Vec3::new(2, 3, 6);
    assert_eq!(v.mag_sq(), 49);
    assert_eq!(v.mag(), 7);
    let w: Vector = Vec3::new(1, 2, 3);
    assert_eq!(w.mag_sq(), 14);
    assert_eq!(w.mag(), 3);
}

#[test]
fn components_and_sum() {
    let p: Point = Vec3::new(4, -9, 12);
    assert_eq!(p.x(), 4);
    assert_eq!(p.y(), -9);
    assert_eq!(p.z(), 12);
    assert_eq!(p.sum(), 7);
}

#[test]
fn componentwise_arithmetic() {
    let a: Vector = Vec3::new(6, -8, 10);
    let b: Vector = Vec3::new(2, 3, -4);
    assert_eq!(a.sub(b), Vec3::new(4, -11, 14));
    assert_eq!(a.mul(b), Vec3::new(12, -24, -40));
    assert_eq!(a.mul_scalar(-3), Vec3::new(-18, 24, -30));
    assert_eq!(a.neg(), Vec3::new(-6, 8, -10));
}

#[test]
fn division_rounds_toward_zero() {
    let a: Vector = Vec3::new(-7, 7, 9);
    let b: Vector = Vec3::new(2, -2, 3);
    assert_eq!(a.div(b), Ok(Vec3::new(-3, -3, 3)));
    assert_eq!(a.div_scalar(-2), Ok(Vec3::new(3, -3, -4)));
}

#[test]
fn division_by_zero_is_refused() {
    let a: Vector = Vec3::new(1, 2, 3);
    assert_eq!(a.div(Vec3::new(1, 0, 1)), Err(VecError::DivisionByZero));
    assert_eq!(a.div_scalar(0), Err(VecError::DivisionByZero));
    let c: Color = Vec3::new(10, 20, 30);
    assert_eq!(c.div_scalar(0), Err(VecError::DivisionByZero));
}

#[test]
fn byte_colors_add_and_scale() {
    let a: Color = Vec3::new(10, 20, 30);
    let b: Color = Vec3::new(1, 2, 3);
    assert_eq!(a.add(b), Vec3::new(11, 22, 33));
    assert_eq!(a.sub(b), Vec3::new(9, 18, 27));
    assert_eq!(b.mul_scalar(85), Vec3::new(85, 170, 255));
    assert_eq!(a.div(b), Ok(Vec3::new(10, 10, 10)));
    assert_eq!(a.div_scalar(7), Ok(Vec3::new(1, 2, 4)));
}

#[test]
fn byte_color_length() {
    let c: Color = Vec3::new(4, 4, 7);
    assert_eq!(c.mag_sq(), 81);
    assert_eq!(c.mag(), 9);
    assert_eq!(c.unit_vector(), Ok(Vec3::new(0, 0, 0)));
}

#[test]
fn signedness_of_component_types() {
    assert!(!<u8 as Numeric>::is_signed());
    assert!(<i64 as Numeric>::is_signed());
}

#[test]
fn scalar_square_roots() {
    assert_eq!(Numeric::sqrt(200u8), 14);
    assert_eq!(Numeric::sqrt(255u8), 15);
    assert_eq!(Numeric::sqrt(0u8), 0);
    assert_eq!(Numeric::sqrt(1_000_000_000_000_000_000i64), 1_000_000_000);
    assert_eq!(Numeric::sqrt(i64::MAX), 3_037_000_499);
    assert_eq!(Numeric::sqrt(15i64), 3);
    assert_eq!(Numeric::sqrt(16i64), 4);
}

#[test]
fn scalar_division_rounds_toward_zero() {
    assert_eq!(Numeric::div(-7i64, 2), -3);
    assert_eq!(Numeric::div(7i64, -2), -3);
    assert_eq!(Numeric::div(-7i64, -2), 3);
    assert_eq!(Numeric::div(200u8, 3), 66);
}

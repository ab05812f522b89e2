use raytrace::ray::Ray;
use raytrace::vec3::{Point, Vec3, Vector};

#[test]
fn position_at_two_along_one_two_three() {
    let origin: Point = Vec3::new(0, 0, 0);
    let direction: Vector = Vec3::new(1, 2, 3);
    let ray = Ray::new(origin, direction);
    assert_eq!(ray.position_at(2), Vec3::new(2, 4, 6));
}

#[test]
fn position_at_negative_parameter() {
    let ray = Ray::new(Vec3::new(10i64, -5, 1), Vec3::new(3, 0, -2));
    assert_eq!(ray.position_at(-4), Vec3::new(-2, -5, 9));
    assert_eq!(ray.position_at(0), Vec3::new(10, -5, 1));
}

#[test]
fn ray_keeps_origin_and_direction() {
    let ray = Ray::new(Vec3::new(1i64, 2, 3), Vec3::new(4, 5, 6));
    assert_eq!(ray.origin(), Vec3::new(1, 2, 3));
    assert_eq!(ray.direction(), Vec3::new(4, 5, 6));
}

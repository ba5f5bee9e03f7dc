use raytracing::ray::Ray;
use raytracing::scalar::Scalar;
use raytracing::vec3::Vec3;

#[test]
fn a_ray_keeps_its_origin_and_direction() {
    let scalar = |x: f64| Scalar::from_bits(x.to_bits());
    let origin = Vec3::new(scalar(1.0), scalar(2.0), scalar(3.0));
    let direction = Vec3::new(scalar(0.0), scalar(0.0), scalar(-2.0));
    let ray = Ray::new(origin, direction);
    assert_eq!(ray.origin.y.to_bits(), 2.0f64.to_bits());
    assert_eq!(ray.direction.z.to_bits(), (-2.0f64).to_bits());
}

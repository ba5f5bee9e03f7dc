use raytracing::hittable::HitRecord;
use raytracing::material::{Candidates, Material};
use raytracing::scalar::ONE;
use raytracing::scalar::Scalar;
use raytracing::material::MaterialKind;
use raytracing::vec3::Vec3;

fn scalar(x: f64) -> Scalar {
    Scalar::from_bits(x.to_bits())
}

fn number(s: Scalar) -> f64 {
    f64::from_bits(s.to_bits())
}

fn vector(x: f64, y: f64, z: f64) -> Vec3 {
    Vec3::new(scalar(x), scalar(y), scalar(z))
}

fn numbers(v: Vec3) -> (f64, f64, f64) {
    (number(v.x), number(v.y), number(v.z))
}

fn record(material: Material) -> HitRecord {
    HitRecord::new(vector(1.0, 2.0, 3.0), vector(0.0, 1.0, 0.0), scalar(4.0), true, material)
}

fn diffuse() -> Material {
    Material::Lambertian { albedo: vector(0.4, 0.2, 0.1) }
}

fn metal() -> Material {
    Material::Metal { albedo: vector(0.7, 0.6, 0.5), fuzz: scalar(0.3) }
}

fn glass() -> Material {
    Material::Dielectric { ir: scalar(1.5) }
}

fn for_glass(reflectance: f64, draw: f64, discriminant: f64) -> Candidates {
    Candidates::Dielectric {
        reflectance: scalar(reflectance),
        draw: scalar(draw),
        discriminant: scalar(discriminant),
        refracted: vector(0.0, -1.0, 0.0),
        reflected: vector(0.0, 1.0, 0.0),
    }
}

#[test]
fn one_is_the_number_one() {
    assert_eq!(ONE, 1.0f64.to_bits());
}

#[test]
fn materials_know_their_kind() {
    assert_eq!(diffuse().kind(), MaterialKind::Lambertian);
    assert_eq!(metal().kind(), MaterialKind::Metal);
    assert_eq!(glass().kind(), MaterialKind::Dielectric);
}

#[test]
fn a_diffuse_surface_scatters_along_the_jittered_normal() {
    let hit = record(diffuse());
    let candidates = Candidates::Lambertian { jittered: vector(0.3, 1.2, -0.1) };
    let (ray, attenuation) = diffuse().scatter(&hit, candidates).unwrap();
    assert_eq!(numbers(ray.origin), (1.0, 2.0, 3.0));
    assert_eq!(numbers(ray.direction), (0.3, 1.2, -0.1));
    assert_eq!(numbers(attenuation), (0.4, 0.2, 0.1));
}

#[test]
fn a_diffuse_surface_falls_back_on_the_normal() {
    let hit = record(diffuse());
    let candidates = Candidates::Lambertian { jittered: vector(1e-9, -1e-9, 0.0) };
    let (ray, attenuation) = diffuse().scatter(&hit, candidates).unwrap();
    assert_eq!(numbers(ray.direction), (0.0, 1.0, 0.0));
    assert_eq!(numbers(attenuation), (0.4, 0.2, 0.1));
    let candidates = Candidates::Lambertian { jittered: vector(1e-9, 1e-7, 0.0) };
    let (ray, _) = diffuse().scatter(&hit, candidates).unwrap();
    assert_eq!(numbers(ray.direction), (1e-9, 1e-7, 0.0));
}

#[test]
fn metal_scatters_what_leaves_the_surface() {
    let hit = record(metal());
    let candidates = Candidates::Metal { fuzzed: vector(0.5, 0.5, 0.0), facing: scalar(0.5) };
    let (ray, attenuation) = metal().scatter(&hit, candidates).unwrap();
    assert_eq!(numbers(ray.origin), (1.0, 2.0, 3.0));
    assert_eq!(numbers(ray.direction), (0.5, 0.5, 0.0));
    assert_eq!(numbers(attenuation), (0.7, 0.6, 0.5));
}

#[test]
fn metal_absorbs_what_would_enter_the_surface() {
    let hit = record(metal());
    for facing in [0.0, -0.0, -0.5, -1e-300, f64::NAN] {
        let candidates =
            Candidates::Metal { fuzzed: vector(0.5, -0.5, 0.0), facing: scalar(facing) };
        assert!(metal().scatter(&hit, candidates).is_none());
    }
    let candidates = Candidates::Metal { fuzzed: vector(0.5, 0.5, 0.0), facing: scalar(1e-300) };
    assert!(metal().scatter(&hit, candidates).is_some());
}

#[test]
fn glass_refracts_when_the_draw_clears_the_reflectance() {
    let hit = record(glass());
    let (ray, attenuation) = glass().scatter(&hit, for_glass(0.04, 0.5, 0.7)).unwrap();
    assert_eq!(numbers(ray.origin), (1.0, 2.0, 3.0));
    assert_eq!(numbers(ray.direction), (0.0, -1.0, 0.0));
    assert_eq!(numbers(attenuation), (1.0, 1.0, 1.0));
    let (ray, _) = glass().scatter(&hit, for_glass(0.5, 0.5, 0.0)).unwrap();
    assert_eq!(numbers(ray.direction), (0.0, -1.0, 0.0));
}

#[test]
fn glass_reflects_when_the_draw_falls_on_the_reflected_share() {
    let hit = record(glass());
    let (ray, attenuation) = glass().scatter(&hit, for_glass(0.6, 0.5, 0.7)).unwrap();
    assert_eq!(numbers(ray.direction), (0.0, 1.0, 0.0));
    assert_eq!(numbers(attenuation), (1.0, 1.0, 1.0));
}

#[test]
fn glass_reflects_all_light_beyond_the_critical_angle() {
    let hit = record(glass());
    let (ray, attenuation) = glass().scatter(&hit, for_glass(0.04, 0.5, -0.2)).unwrap();
    assert_eq!(numbers(ray.direction), (0.0, 1.0, 0.0));
    assert_eq!(numbers(attenuation), (1.0, 1.0, 1.0));
}

#[test]
fn candidates_of_another_kind_scatter_nothing() {
    let hit = record(diffuse());
    assert!(diffuse().scatter(&hit, for_glass(0.04, 0.5, 0.7)).is_none());
    let candidates = Candidates::Lambertian { jittered: vector(0.3, 1.2, -0.1) };
    assert!(metal().scatter(&hit, candidates).is_none());
    assert!(glass().scatter(&hit, candidates).is_none());
    let candidates = Candidates::Metal { fuzzed: vector(0.5, 0.5, 0.0), facing: scalar(0.5) };
    assert!(diffuse().scatter(&hit, candidates).is_none());
}

#[test]
fn a_tinted_surface_gives_no_channel_more_light_than_it_got() {
    let albedos = [(0.0, 0.5, 1.0), (1.0, 1.0, 1.0), (0.0, 0.0, 0.0), (0.4, 0.2, 0.1)];
    for (r, g, b) in albedos {
        let hit = record(diffuse());
        let material = Material::Lambertian { albedo: vector(r, g, b) };
        let candidates = Candidates::Lambertian { jittered: vector(0.3, 1.2, -0.1) };
        let (_, attenuation) = material.scatter(&hit, candidates).unwrap();
        let (x, y, z) = numbers(attenuation);
        assert!((0.0..=1.0).contains(&x) && (0.0..=1.0).contains(&y) && (0.0..=1.0).contains(&z));
        let material = Material::Metal { albedo: vector(r, g, b), fuzz: scalar(0.0) };
        let candidates = Candidates::Metal { fuzzed: vector(0.5, 0.5, 0.0), facing: scalar(0.5) };
        let (_, attenuation) = material.scatter(&hit, candidates).unwrap();
        let (x, y, z) = numbers(attenuation);
        assert!((0.0..=1.0).contains(&x) && (0.0..=1.0).contains(&y) && (0.0..=1.0).contains(&z));
    }
}

use raytracing::hittable::{
    nearest_hit, GeometryError, HitRecord, Hittable, Interval, Limit, Nearest, Roots, Sphere,
    SHADOW_BIAS,
};
use raytracing::material::Material;
use raytracing::scalar::Scalar;
use raytracing::vec3::Vec3;
use std::ops::{Bound, RangeBounds};

fn scalar(x: f64) -> Scalar {
    Scalar::from_bits(x.to_bits())
}

fn number(s: Scalar) -> f64 {
    f64::from_bits(s.to_bits())
}

fn vector(x: f64, y: f64, z: f64) -> Vec3 {
    Vec3::new(scalar(x), scalar(y), scalar(z))
}

fn numbers(v: Vec3) -> (f64, f64, f64) {
    (number(v.x), number(v.y), number(v.z))
}

fn gray() -> Material {
    Material::Lambertian { albedo: vector(0.5, 0.5, 0.5) }
}

fn sphere(x: f64, y: f64, z: f64, radius: f64) -> Sphere {
    Sphere::new(vector(x, y, z), scalar(radius), gray()).unwrap()
}

/// The stretch of a ray in which hits count while rendering: beyond 0.001,
/// without end.
fn forward() -> Interval {
    Interval::forward()
}

#[test]
fn hits_count_beyond_the_shadow_bias() {
    assert_eq!(SHADOW_BIAS, 0.001f64.to_bits());
    let range = Interval::forward();
    assert!(matches!(range.lower, Limit::Excluded(bias) if number(bias) == 0.001));
    assert!(matches!(range.upper, Limit::Unbounded));
    assert!(!range.contains(scalar(0.001)));
    assert!(range.contains(scalar(0.0010000001)));
    assert!(range.contains(scalar(f64::INFINITY)));
}

/// The roots of the ray from `origin` along `direction` with a sphere.
fn solve(origin: (f64, f64, f64), direction: (f64, f64, f64), sphere: &Sphere) -> Roots {
    let (cx, cy, cz) = numbers(sphere.center());
    let radius = number(sphere.radius());
    let oc = (origin.0 - cx, origin.1 - cy, origin.2 - cz);
    let a = direction.0 * direction.0 + direction.1 * direction.1 + direction.2 * direction.2;
    let half_b = oc.0 * direction.0 + oc.1 * direction.1 + oc.2 * direction.2;
    let c = oc.0 * oc.0 + oc.1 * oc.1 + oc.2 * oc.2 - radius * radius;
    let discriminant = half_b * half_b - a * c;
    let sqrtd = discriminant.sqrt();
    Roots {
        discriminant: scalar(discriminant),
        near: scalar((-half_b - sqrtd) / a),
        far: scalar((-half_b + sqrtd) / a),
    }
}

fn roots(discriminant: f64, near: f64, far: f64) -> Roots {
    Roots { discriminant: scalar(discriminant), near: scalar(near), far: scalar(far) }
}

#[test]
fn an_interval_holds_what_lies_between_its_ends() {
    let range = Interval {
        lower: Limit::Excluded(scalar(0.001)),
        upper: Limit::Included(scalar(10.0)),
    };
    assert!(range.contains(scalar(1.0)));
    assert!(range.contains(scalar(10.0)));
    assert!(!range.contains(scalar(0.001)));
    assert!(range.contains(scalar(0.0011)));
    assert!(!range.contains(scalar(10.5)));
    assert!(!range.contains(scalar(-3.0)));
    assert!(!range.contains(scalar(f64::NAN)));
}

#[test]
fn an_interval_without_ends_holds_everything() {
    let range = Interval { lower: Limit::Unbounded, upper: Limit::Unbounded };
    assert!(range.contains(scalar(0.0)));
    assert!(range.contains(scalar(f64::NEG_INFINITY)));
    assert!(range.contains(scalar(f64::NAN)));
}

#[test]
fn intervals_agree_with_the_standard_ranges() {
    let ends = [-1.0, 0.0, 0.001, 2.5];
    let probes = [-2.0, -1.0, -0.0, 0.0, 0.001, 0.002, 2.5, 3.0, f64::INFINITY, f64::NAN];
    for lo in ends {
        for hi in ends {
            for t in probes {
                let ours = Interval {
                    lower: Limit::Included(scalar(lo)),
                    upper: Limit::Excluded(scalar(hi)),
                };
                let theirs = (Bound::Included(lo), Bound::Excluded(hi));
                assert_eq!(ours.contains(scalar(t)), theirs.contains(&t));
                let ours = Interval {
                    lower: Limit::Excluded(scalar(lo)),
                    upper: Limit::Included(scalar(hi)),
                };
                let theirs = (Bound::Excluded(lo), Bound::Included(hi));
                assert_eq!(ours.contains(scalar(t)), theirs.contains(&t));
            }
        }
    }
}

#[test]
fn below_keeps_the_lower_end_and_cuts_the_upper() {
    let part = forward().below(scalar(5.0));
    assert!(part.contains(scalar(4.9)));
    assert!(!part.contains(scalar(5.0)));
    assert!(!part.contains(scalar(0.001)));
    assert!(!part.contains(scalar(7.0)));
}

#[test]
fn the_near_root_is_taken_if_it_lies_in_the_range() {
    let hit = roots(4.0, 1.0, 3.0).first_root(&forward()).unwrap();
    assert_eq!(number(hit), 1.0);
}

#[test]
fn the_far_root_is_taken_if_the_near_one_lies_outside() {
    let hit = roots(4.0, -1.0, 3.0).first_root(&forward()).unwrap();
    assert_eq!(number(hit), 3.0);
    let hit = roots(4.0, 0.001, 3.0).first_root(&forward()).unwrap();
    assert_eq!(number(hit), 3.0);
}

#[test]
fn no_root_is_taken_if_both_lie_outside() {
    assert!(roots(4.0, -3.0, -1.0).first_root(&forward()).is_none());
    let short = forward().below(scalar(0.5));
    assert!(roots(4.0, 1.0, 3.0).first_root(&short).is_none());
}

#[test]
fn a_negative_discriminant_means_no_hit() {
    assert!(roots(-0.5, 1.0, 3.0).first_root(&forward()).is_none());
    assert!(roots(-1e-300, 1.0, 3.0).first_root(&forward()).is_none());
    assert!(roots(0.0, 1.0, 1.0).first_root(&forward()).is_some());
    assert!(roots(-0.0, 1.0, 1.0).first_root(&forward()).is_some());
}

#[test]
fn a_ray_from_twice_the_radius_hits_at_the_radius() {
    for r in [0.5, 1.0, 3.0, 1000.0] {
        let ball = sphere(0.0, 0.0, 0.0, r);
        let origin = (0.0, 0.0, 2.0 * r);
        let direction = (0.0, 0.0, -1.0);
        let t = solve(origin, direction, &ball).first_root(&forward()).unwrap();
        assert_eq!(number(t), r);
        let t = number(t);
        let point = (origin.0 + t * direction.0, origin.1 + t * direction.1, origin.2 + t * direction.2);
        let outward = (point.0 / r, point.1 / r, point.2 / r);
        let facing = direction.0 * outward.0 + direction.1 * outward.1 + direction.2 * outward.2;
        let record = HitRecord::from_outward_normal_and_ray(
            scalar(facing),
            vector(point.0, point.1, point.2),
            scalar(t),
            vector(outward.0, outward.1, outward.2),
            gray(),
        );
        assert!(record.front_face);
        assert_eq!(numbers(record.normal), (0.0, 0.0, 1.0));
        assert_eq!(numbers(record.point), (0.0, 0.0, r));
        assert_eq!(number(record.t), r);
    }
}

#[test]
fn a_ray_from_inside_sees_the_normal_turned_round() {
    let record = HitRecord::from_outward_normal_and_ray(
        scalar(1.0),
        vector(0.0, 0.0, -1.0),
        scalar(1.0),
        vector(0.0, 0.0, -1.0),
        gray(),
    );
    assert!(!record.front_face);
    assert_eq!(numbers(record.normal), (0.0, 0.0, 1.0));
}

#[test]
fn a_grazing_ray_counts_as_coming_from_inside() {
    let record = HitRecord::from_outward_normal_and_ray(
        scalar(0.0),
        vector(1.0, 0.0, 0.0),
        scalar(2.0),
        vector(1.0, 0.0, 0.0),
        gray(),
    );
    assert!(!record.front_face);
    assert_eq!(numbers(record.normal), (-1.0, 0.0, 0.0));
}

#[test]
fn new_record_keeps_its_parts() {
    let record = HitRecord::new(vector(1.0, 2.0, 3.0), vector(0.0, 1.0, 0.0), scalar(4.0), true, gray());
    assert_eq!(numbers(record.point), (1.0, 2.0, 3.0));
    assert_eq!(numbers(record.normal), (0.0, 1.0, 0.0));
    assert_eq!(number(record.t), 4.0);
    assert!(record.front_face);
}

#[test]
fn the_nearest_of_several_spheres_is_hit() {
    let spheres = vec![roots(1.0, 5.0, 6.0), roots(1.0, 2.0, 3.0), roots(1.0, 4.0, 8.0)];
    let (index, t) = nearest_hit(&spheres, forward()).unwrap();
    assert_eq!(index, 1);
    assert_eq!(number(t), 2.0);
}

#[test]
fn the_nearest_hit_does_not_depend_on_the_order() {
    let spheres = [
        roots(1.0, 5.0, 6.0),
        roots(1.0, -1.0, 3.5),
        roots(-1.0, 0.5, 0.6),
        roots(1.0, 4.0, 8.0),
        roots(1.0, -4.0, -2.0),
    ];
    let orders = [[0, 1, 2, 3, 4], [4, 3, 2, 1, 0], [1, 0, 3, 2, 4], [2, 4, 0, 1, 3], [3, 1, 4, 0, 2]];
    for order in orders {
        let shuffled: Vec<Roots> = order.iter().map(|i| spheres[*i]).collect();
        let (index, t) = nearest_hit(&shuffled, forward()).unwrap();
        assert_eq!(number(t), 3.5);
        assert_eq!(order[index], 1);
    }
}

#[test]
fn of_two_spheres_hit_at_the_same_place_the_first_is_named() {
    let spheres = vec![roots(1.0, 7.0, 9.0), roots(1.0, 2.0, 3.0), roots(1.0, 2.0, 5.0)];
    let (index, t) = nearest_hit(&spheres, forward()).unwrap();
    assert_eq!(index, 1);
    assert_eq!(number(t), 2.0);
}

#[test]
fn nothing_is_hit_where_no_sphere_has_a_root_in_range() {
    assert!(nearest_hit(&vec![], forward()).is_none());
    let spheres = vec![roots(-1.0, 1.0, 2.0), roots(1.0, -5.0, -4.0), roots(1.0, 0.0005, 0.0009)];
    assert!(nearest_hit(&spheres, forward()).is_none());
}

#[test]
fn a_search_narrows_its_range_with_every_hit() {
    let mut search: Nearest<char> = Nearest::new(forward());
    assert!(search.best().is_none());
    assert!(search.range().contains(scalar(100.0)));
    assert!(search.offer('a', &roots(1.0, 5.0, 6.0)));
    assert!(!search.range().contains(scalar(5.0)));
    assert!(search.range().contains(scalar(4.0)));
    assert!(!search.offer('b', &roots(1.0, 5.0, 7.0)));
    assert!(!search.offer('c', &roots(1.0, 5.5, 9.0)));
    assert!(search.offer('d', &roots(1.0, -1.0, 3.0)));
    assert!(!search.offer('e', &roots(-1.0, 1.0, 2.0)));
    let (kept, t) = search.best().unwrap();
    assert_eq!(kept, 'd');
    assert_eq!(number(t), 3.0);
    assert!(!search.range().contains(scalar(3.0)));
    assert!(!search.range().contains(scalar(0.001)));
}

#[test]
fn a_sphere_needs_a_radius_that_is_not_negative() {
    assert!(Sphere::new(vector(0.0, 0.0, 0.0), scalar(1.0), gray()).is_ok());
    assert!(Sphere::new(vector(0.0, 0.0, 0.0), scalar(0.0), gray()).is_ok());
    assert!(Sphere::new(vector(0.0, 0.0, 0.0), scalar(-0.0), gray()).is_ok());
    assert!(Sphere::new(vector(0.0, 0.0, 0.0), scalar(f64::INFINITY), gray()).is_ok());
    assert!(matches!(
        Sphere::new(vector(0.0, 0.0, 0.0), scalar(-1.0), gray()),
        Err(GeometryError::BadRadius)
    ));
    assert!(matches!(
        Sphere::new(vector(0.0, 0.0, 0.0), scalar(-1e-300), gray()),
        Err(GeometryError::BadRadius)
    ));
    assert!(matches!(
        Sphere::new(vector(0.0, 0.0, 0.0), scalar(f64::NAN), gray()),
        Err(GeometryError::BadRadius)
    ));
}

#[test]
fn a_sphere_keeps_what_it_was_made_of() {
    let ball = Sphere::new(vector(1.0, 2.0, 3.0), scalar(0.5), Material::Dielectric { ir: scalar(1.5) })
        .unwrap();
    assert_eq!(numbers(ball.center()), (1.0, 2.0, 3.0));
    assert_eq!(number(ball.radius()), 0.5);
    assert!(matches!(ball.material(), Material::Dielectric { ir } if number(ir) == 1.5));
}

fn nested_scene() -> Hittable {
    Hittable::HittableList(vec![
        Hittable::Sphere(sphere(0.0, 0.0, -10.0, 1.0)),
        Hittable::HittableList(vec![
            Hittable::Sphere(sphere(0.0, 0.0, -4.0, 1.0)),
            Hittable::HittableList(vec![]),
            Hittable::Sphere(sphere(5.0, 0.0, -4.0, 1.0)),
        ]),
        Hittable::Sphere(sphere(0.0, 0.0, -7.0, 1.0)),
    ])
}

#[test]
fn lists_within_lists_are_gone_through_in_order() {
    let centers: Vec<(f64, f64, f64)> =
        nested_scene().spheres().iter().map(|s| numbers(s.center())).collect();
    assert_eq!(
        centers,
        vec![(0.0, 0.0, -10.0), (0.0, 0.0, -4.0), (5.0, 0.0, -4.0), (0.0, 0.0, -7.0)]
    );
    assert!(Hittable::HittableList(vec![]).spheres().is_empty());
    assert_eq!(Hittable::Sphere(sphere(1.0, 1.0, 1.0, 2.0)).spheres().len(), 1);
}

#[test]
fn a_scene_is_hit_at_its_nearest_sphere() {
    let origin = (0.0, 0.0, 0.0);
    let direction = (0.0, 0.0, -1.0);
    let (ball, t) = nested_scene()
        .hit(&|sphere: &Sphere| solve(origin, direction, sphere), forward())
        .unwrap();
    assert_eq!(numbers(ball.center()), (0.0, 0.0, -4.0));
    assert_eq!(number(t), 3.0);
}

#[test]
fn a_scene_is_hit_within_the_range_only() {
    let origin = (0.0, 0.0, 0.0);
    let direction = (0.0, 0.0, -1.0);
    let short = forward().below(scalar(2.5));
    assert!(nested_scene()
        .hit(&|sphere: &Sphere| solve(origin, direction, sphere), short)
        .is_none());
    let beyond = Interval { lower: Limit::Included(scalar(5.5)), upper: Limit::Unbounded };
    let (ball, t) = nested_scene()
        .hit(&|sphere: &Sphere| solve(origin, direction, sphere), beyond)
        .unwrap();
    assert_eq!(numbers(ball.center()), (0.0, 0.0, -7.0));
    assert_eq!(number(t), 6.0);
}

#[test]
fn a_ray_that_looks_away_hits_nothing() {
    let origin = (0.0, 0.0, 0.0);
    let direction = (0.0, 1.0, 0.0);
    assert!(nested_scene()
        .hit(&|sphere: &Sphere| solve(origin, direction, sphere), forward())
        .is_none());
}

#[test]
fn an_empty_scene_is_never_hit() {
    let empty = Hittable::HittableList(vec![]);
    let hit = empty.hit(&|_sphere: &Sphere| roots(1.0, 1.0, 2.0), forward());
    assert!(hit.is_none());
    let hollow = Hittable::HittableList(vec![Hittable::HittableList(vec![])]);
    assert!(hollow.hit(&|_sphere: &Sphere| roots(1.0, 1.0, 2.0), forward()).is_none());
}

#[test]
fn a_ray_from_inside_a_sphere_hits_its_far_side() {
    let ball = Hittable::Sphere(sphere(0.0, 0.0, 0.0, 2.0));
    let origin = (0.0, 0.0, 0.0);
    let direction = (1.0, 0.0, 0.0);
    let (_, t) = ball.hit(&|sphere: &Sphere| solve(origin, direction, sphere), forward()).unwrap();
    assert_eq!(number(t), 2.0);
}

#[test]
fn every_sphere_of_a_scene_is_asked_once_and_in_order() {
    let asked = std::cell::RefCell::new(Vec::new());
    let _ = nested_scene().hit(
        &|sphere: &Sphere| {
            asked.borrow_mut().push(numbers(sphere.center()));
            roots(-1.0, 0.0, 0.0)
        },
        forward(),
    );
    assert_eq!(
        asked.into_inner(),
        vec![(0.0, 0.0, -10.0), (0.0, 0.0, -4.0), (5.0, 0.0, -4.0), (0.0, 0.0, -7.0)]
    );
}

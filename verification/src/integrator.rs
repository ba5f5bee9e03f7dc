//! How far a light path is followed and what it gathers at its end.
//!
//! A sample starts with a budget of bounces. While the budget lasts, the ray
//! is sent into the scene and one of three things is found: it misses
//! everything and sees the background, it is absorbed by what it hits, or it
//! is scattered and goes on as a new ray with one bounce less. A path whose
//! budget is used up gathers nothing. The colours along the way are the
//! caller's business; here is decided when the path ends and on what.

use crate::hittable::{answers, nearest, HitRecord, Hittable, Interval, Roots, Sphere};
use crate::material::{is_tint, scattered, tinted, Candidates, Material};
use crate::ray::Ray;
use crate::scalar::Scalar;
use crate::vec3::Vec3;
use vstd::prelude::*;

verus! {

/// What a ray found in the scene.
#[derive(Clone, Copy, Debug, PartialEq, Eq, Structural)]
pub enum Encounter {
    /// Nothing was hit.
    Miss,
    /// A surface was hit and swallowed the ray.
    Absorbed,
    /// A surface was hit and sent the ray on.
    Scattered,
}

/// The light at the end of a path, before the attenuations along the path
/// are applied.
#[derive(Clone, Copy, Debug, PartialEq, Eq, Structural)]
pub enum Radiance {
    /// No light.
    Black,
    /// The background, as seen along the last ray.
    Background,
}

/// What ends a path that has `left` bounces and finds `encounter`, if
/// anything does.
pub open spec fn ending(left: nat, encounter: Encounter) -> Option<Radiance> {
    if left == 0 {
        Some(Radiance::Black)
    } else {
        match encounter {
            Encounter::Miss => Some(Radiance::Background),
            Encounter::Absorbed => Some(Radiance::Black),
            Encounter::Scattered => None,
        }
    }
}

/// The budget that remains after `encounter`.
pub open spec fn left_after(left: nat, encounter: Encounter) -> nat {
    if left > 0 && encounter == Encounter::Scattered {
        (left - 1) as nat
    } else {
        left
    }
}

/// What a path with a budget of `depth` bounces gathers when its rays find
/// `path`, one encounter after the other; `None` while the encounters given
/// do not settle it.
pub open spec fn gathered(depth: nat, path: Seq<Encounter>) -> Option<Radiance>
    decreases path.len(),
{
    if depth == 0 {
        Some(Radiance::Black)
    } else if path.len() == 0 {
        None
    } else {
        match ending(depth, path[0]) {
            Some(radiance) => Some(radiance),
            None => gathered((depth - 1) as nat, path.drop_first()),
        }
    }
}

/// The bounces that a path may still make.
#[derive(Clone, Copy, Debug)]
pub struct Bounces {
    left: u32,
}

impl View for Bounces {
    type V = nat;

    closed spec fn view(&self) -> nat {
        self.left as nat
    }
}

impl Bounces {
    /// A fresh budget of `depth` bounces.
    pub fn new(depth: u32) -> (budget: Bounces)
        ensures
            budget@ == depth,
    {
        Bounces { left: depth }
    }

    /// The number of bounces left.
    pub fn left(&self) -> (left: u32)
        ensures
            left == self@,
    {
        self.left
    }

    /// Whether the budget is used up, so that the path gathers nothing and no
    /// ray needs to be sent.
    pub fn is_spent(&self) -> (spent: bool)
        ensures
            spent == (self@ == 0),
    {
        self.left == 0
    }

    /// Takes note of what the current ray found. Returns what the path
    /// gathers if it ends here; otherwise the ray was scattered, one bounce is
    /// taken from the budget and the path goes on.
    pub fn meet(&mut self, encounter: Encounter) -> (end: Option<Radiance>)
        ensures
            end == ending(old(self)@, encounter),
            final(self)@ == left_after(old(self)@, encounter),
    {
        if self.left == 0 {
            Some(Radiance::Black)
        } else {
            match encounter {
                Encounter::Miss => Some(Radiance::Background),
                Encounter::Absorbed => Some(Radiance::Black),
                Encounter::Scattered => {
                    self.left = self.left - 1;
                    None
                },
            }
        }
    }
}

/// A ray that was scattered: the ray that leaves the surface and the share
/// of light it keeps, channel by channel.
#[derive(Clone, Copy, Debug)]
pub struct Bounce {
    pub ray: Ray,
    pub attenuation: Vec3,
}

/// What sending a ray into the scene came to.
#[derive(Clone, Copy, Debug)]
pub enum Found {
    /// Nothing was hit.
    Miss,
    /// A surface was hit and swallowed the ray.
    Absorbed,
    /// A surface was hit and sent the ray on.
    Scattered(Bounce),
}

/// What the arithmetic says of a sphere at the point where a ray hits it: the
/// point, the normal that points away from the middle of the sphere, and the
/// dot product of the ray's direction with that normal.
#[derive(Clone, Copy, Debug)]
pub struct Surface {
    pub point: Vec3,
    pub outward_normal: Vec3,
    pub facing: Scalar,
}

/// A light path: the bounces it made, in order, and what it gathered at its
/// end. The colour of the path is what it gathered, attenuated by every
/// bounce, the last one first.
#[derive(Debug)]
pub struct Path {
    pub bounces: Vec<Bounce>,
    pub end: Radiance,
}

/// The record of a hit at ray parameter `t` on a surface of the given
/// material: the normal is turned against the ray.
pub open spec fn record_of(surface: Surface, t: Scalar, material: Material) -> HitRecord {
    let front_face = surface.facing.lt(Scalar { bits: 0 });
    HitRecord {
        point: surface.point,
        normal: if front_face {
            surface.outward_normal
        } else {
            surface.outward_normal.opposite()
        },
        t,
        front_face,
        material,
    }
}

/// What a ray found that hit a surface, given what the material made of it.
pub open spec fn found_of(out: Option<(Ray, Vec3)>) -> Found {
    match out {
        Some(bounce) => Found::Scattered(Bounce { ray: bounce.0, attenuation: bounce.1 }),
        None => Found::Absorbed,
    }
}

/// `roots` holds, for each of the spheres in turn, roots that `solve` gave
/// for it and the ray.
pub open spec fn solved<S: Fn(&Ray, &Sphere) -> Roots>(
    solve: S,
    ray: Ray,
    spheres: Seq<Sphere>,
    roots: Seq<Roots>,
) -> bool {
    &&& roots.len() == spheres.len()
    &&& forall|i: int|
        0 <= i < spheres.len() ==> solve.ensures((&ray, &#[trigger] spheres[i]), roots[i])
}

/// `found` is what becomes of `ray` where it hits `sphere` at parameter `t`:
/// the surface there is recorded, with its normal turned against the ray,
/// and the material of the sphere decides on the directions prepared for it
/// whether the ray is scattered or absorbed.
pub open spec fn found_at<
    U: Fn(&Ray, &Sphere, Scalar) -> Surface,
    P: Fn(&Ray, &HitRecord) -> Candidates,
>(sphere: Sphere, t: Scalar, surface: U, prepare: P, ray: Ray, found: Found) -> bool {
    exists|at: Surface, candidates: Candidates|
        {
            &&& #[trigger] surface.ensures((&ray, &sphere, t), at)
            &&& #[trigger] prepare.ensures(
                (&ray, &record_of(at, t, sphere@.material)),
                candidates,
            )
            &&& found == found_of(
                scattered(sphere@.material, record_of(at, t, sphere@.material), candidates),
            )
        }
}

/// `found` is what sending `ray` into a scene of the given spheres comes to,
/// with the arithmetic that the three functions supply: the spheres are
/// searched for the nearest hit beyond the shadow bias; without one the ray
/// misses; otherwise the surface at the hit is recorded and its material
/// decides whether the ray is scattered or absorbed.
pub open spec fn found_by<
    S: Fn(&Ray, &Sphere) -> Roots,
    U: Fn(&Ray, &Sphere, Scalar) -> Surface,
    P: Fn(&Ray, &HitRecord) -> Candidates,
>(spheres: Seq<Sphere>, solve: S, surface: U, prepare: P, ray: Ray, found: Found) -> bool {
    exists|roots: Seq<Roots>|
        {
            &&& #[trigger] solved(solve, ray, spheres, roots)
            &&& match nearest(roots, Interval::beyond_bias()) {
                None => found == Found::Miss,
                Some(hit) => found_at(spheres[hit.0], hit.1, surface, prepare, ray, found),
            }
        }
}

/// The ray that a path sends out after `k` of the given bounces.
pub open spec fn ray_after(first: Ray, bounces: Seq<Bounce>, k: int) -> Ray {
    if k <= 0 {
        first
    } else {
        bounces[k - 1].ray
    }
}

/// The encounters of a path that made the given number of bounces and then
/// ended on `last`, if it ended on anything but its budget.
pub open spec fn encounters(bounces: nat, last: Option<Encounter>) -> Seq<Encounter> {
    let scattered = Seq::new(bounces, |k: int| Encounter::Scattered);
    match last {
        Some(encounter) => scattered.push(encounter),
        None => scattered,
    }
}

/// The bounces and the end are a path of `first` through a scene of the
/// given spheres with a budget of `depth` bounces: every bounce is what the
/// ray before it found; the path gathers the background if its last ray
/// misses, and nothing if that ray is absorbed or if the budget was used up,
/// in which case the last ray was not sent.
pub open spec fn traced<
    S: Fn(&Ray, &Sphere) -> Roots,
    U: Fn(&Ray, &Sphere, Scalar) -> Surface,
    P: Fn(&Ray, &HitRecord) -> Candidates,
>(
    spheres: Seq<Sphere>,
    solve: S,
    surface: U,
    prepare: P,
    first: Ray,
    depth: nat,
    bounces: Seq<Bounce>,
    end: Radiance,
) -> bool {
    let last = ray_after(first, bounces, bounces.len() as int);
    &&& bounces.len() <= depth
    &&& forall|k: int|
        0 <= k < bounces.len() ==> found_by(
            spheres,
            solve,
            surface,
            prepare,
            ray_after(first, bounces, k),
            Found::Scattered(#[trigger] bounces[k]),
        )
    &&& match end {
        Radiance::Background => bounces.len() < depth && found_by(
            spheres,
            solve,
            surface,
            prepare,
            last,
            Found::Miss,
        ),
        Radiance::Black => bounces.len() == depth || found_by(
            spheres,
            solve,
            surface,
            prepare,
            last,
            Found::Absorbed,
        ),
    }
}

/// Sends one ray into the scene: searches it for the nearest hit, has the
/// surface there worked out, and lets the material decide.
fn probe<
    S: Fn(&Ray, &Sphere) -> Roots,
    U: Fn(&Ray, &Sphere, Scalar) -> Surface,
    P: Fn(&Ray, &HitRecord) -> Candidates,
>(world: &Hittable, solve: &S, surface: &U, prepare: &P, ray: Ray) -> (found: Found)
    requires
        forall|any: Ray, sphere: Sphere| solve.requires((&any, &sphere)),
        forall|any: Ray, sphere: Sphere, t: Scalar| surface.requires((&any, &sphere, t)),
        forall|any: Ray, record: HitRecord| prepare.requires((&any, &record)),
    ensures
        found_by(world.leaves(), *solve, *surface, *prepare, ray, found),
{
    let for_this_ray = |sphere: &Sphere| -> (roots: Roots)
        requires
            solve.requires((&ray, sphere)),
        ensures
            solve.ensures((&ray, sphere), roots),
        { solve(&ray, sphere) };
    let hit = world.hit(&for_this_ray, Interval::forward());
    let ghost spheres = world.leaves();
    let ghost roots = choose|roots: Seq<Roots>|
        {
            &&& answers(for_this_ray, spheres, roots)
            &&& hit == (match #[trigger] nearest(roots, Interval::beyond_bias()) {
                Some(found) => Some((spheres[found.0], found.1)),
                None => None,
            })
        };
    proof {
        assert(solved(*solve, ray, spheres, roots)) by {
            assert forall|i: int| 0 <= i < spheres.len() implies solve.ensures(
                (&ray, &#[trigger] spheres[i]),
                roots[i],
            ) by {
                assert(for_this_ray.ensures((&spheres[i],), roots[i]));
            }
        }
    }
    match hit {
        None => Found::Miss,
        Some((sphere, t)) => {
            let at = surface(&ray, &sphere, t);
            let record = HitRecord::from_outward_normal_and_ray(
                at.facing,
                at.point,
                t,
                at.outward_normal,
                sphere.material(),
            );
            let candidates = prepare(&ray, &record);
            let out = record.material.scatter(&record, candidates);
            proof {
                assert(record == record_of(at, t, sphere@.material));
            }
            match out {
                Some(bounce) => Found::Scattered(Bounce { ray: bounce.0, attenuation: bounce.1 }),
                None => Found::Absorbed,
            }
        },
    }
}

/// Follows a ray through the scene for at most `depth` bounces.
///
/// The arithmetic is the caller's: `solve` gives the roots of a ray and a
/// sphere, `surface` says what the sphere is like where the ray hits it at a
/// given parameter, and `prepare` works out the directions in which the
/// material at a hit may send the ray on. With no budget no ray is sent; in
/// a scene without spheres the first ray misses, and the path gathers the
/// background.
pub fn ray_color<
    S: Fn(&Ray, &Sphere) -> Roots,
    U: Fn(&Ray, &Sphere, Scalar) -> Surface,
    P: Fn(&Ray, &HitRecord) -> Candidates,
>(ray: Ray, world: &Hittable, depth: u32, solve: &S, surface: &U, prepare: &P) -> (path: Path)
    requires
        forall|any: Ray, sphere: Sphere| solve.requires((&any, &sphere)),
        forall|any: Ray, sphere: Sphere, t: Scalar| surface.requires((&any, &sphere, t)),
        forall|any: Ray, record: HitRecord| prepare.requires((&any, &record)),
    ensures
        traced(
            world.leaves(),
            *solve,
            *surface,
            *prepare,
            ray,
            depth as nat,
            path.bounces@,
            path.end,
        ),
        depth == 0 ==> path.end == Radiance::Black && path.bounces@.len() == 0,
        depth > 0 && world.leaves().len() == 0 ==> path.end == Radiance::Background
            && path.bounces@.len() == 0,
{
    let mut budget = Bounces::new(depth);
    let mut current = ray;
    let mut bounces: Vec<Bounce> = Vec::new();
    let ghost spheres = world.leaves();
    loop
        invariant
            forall|any: Ray, sphere: Sphere| solve.requires((&any, &sphere)),
            forall|any: Ray, sphere: Sphere, t: Scalar| surface.requires((&any, &sphere, t)),
            forall|any: Ray, record: HitRecord| prepare.requires((&any, &record)),
            spheres == world.leaves(),
            bounces@.len() + budget@ == depth,
            spheres.len() == 0 ==> bounces@.len() == 0,
            current == ray_after(ray, bounces@, bounces@.len() as int),
            forall|k: int|
                0 <= k < bounces@.len() ==> found_by(
                    spheres,
                    *solve,
                    *surface,
                    *prepare,
                    ray_after(ray, bounces@, k),
                    Found::Scattered(#[trigger] bounces@[k]),
                ),
        decreases budget@,
    {
        if budget.is_spent() {
            return Path { bounces, end: Radiance::Black };
        }
        let found = probe(world, solve, surface, prepare, current);
        proof {
            if spheres.len() == 0 {
                lemma_empty_scene_is_missed(spheres, *solve, *surface, *prepare, current, found);
            }
        }
        match found {
            Found::Miss => {
                budget.meet(Encounter::Miss);
                return Path { bounces, end: Radiance::Background };
            },
            Found::Absorbed => {
                budget.meet(Encounter::Absorbed);
                return Path { bounces, end: Radiance::Black };
            },
            Found::Scattered(bounce) => {
                budget.meet(Encounter::Scattered);
                let ghost before = bounces@;
                bounces.push(bounce);
                current = bounce.ray;
                proof {
                    assert forall|k: int| 0 <= k < bounces@.len() implies found_by(
                        spheres,
                        *solve,
                        *surface,
                        *prepare,
                        ray_after(ray, bounces@, k),
                        Found::Scattered(#[trigger] bounces@[k]),
                    ) by {
                        if k < before.len() {
                            assert(bounces@[k] == before[k]);
                            assert(ray_after(ray, bounces@, k) == ray_after(ray, before, k));
                        }
                    }
                }
            },
        }
    }
}

/// In a scene without spheres every ray misses.
pub proof fn lemma_empty_scene_is_missed<
    S: Fn(&Ray, &Sphere) -> Roots,
    U: Fn(&Ray, &Sphere, Scalar) -> Surface,
    P: Fn(&Ray, &HitRecord) -> Candidates,
>(spheres: Seq<Sphere>, solve: S, surface: U, prepare: P, ray: Ray, found: Found)
    requires
        spheres.len() == 0,
        found_by(spheres, solve, surface, prepare, ray, found),
    ensures
        found == Found::Miss,
{
    let roots = choose|roots: Seq<Roots>|
        {
            &&& #[trigger] solved(solve, ray, spheres, roots)
            &&& match nearest(roots, Interval::beyond_bias()) {
                None => found == Found::Miss,
                Some(hit) => found_at(spheres[hit.0], hit.1, surface, prepare, ray, found),
            }
        };
    assert(roots.len() == 0);
}

/// What a path gathers is what its budget and the encounters along it
/// settle: the bounces count as scattered rays, and the path ends on a miss,
/// on an absorbed ray, or on its budget.
pub proof fn lemma_traced_is_gathered<
    S: Fn(&Ray, &Sphere) -> Roots,
    U: Fn(&Ray, &Sphere, Scalar) -> Surface,
    P: Fn(&Ray, &HitRecord) -> Candidates,
>(
    spheres: Seq<Sphere>,
    solve: S,
    surface: U,
    prepare: P,
    first: Ray,
    depth: nat,
    bounces: Seq<Bounce>,
    end: Radiance,
)
    requires
        traced(spheres, solve, surface, prepare, first, depth, bounces, end),
    ensures
        end == Radiance::Background ==> gathered(
            depth,
            encounters(bounces.len(), Some(Encounter::Miss)),
        ) == Some(end),
        end == Radiance::Black && bounces.len() < depth ==> gathered(
            depth,
            encounters(bounces.len(), Some(Encounter::Absorbed)),
        ) == Some(end),
        bounces.len() == depth ==> gathered(depth, encounters(bounces.len(), None)) == Some(
            Radiance::Black,
        ),
{
    lemma_scattered_then(depth, bounces.len(), Some(Encounter::Miss));
    lemma_scattered_then(depth, bounces.len(), Some(Encounter::Absorbed));
    lemma_scattered_then(depth, bounces.len(), None);
}

/// Light is only taken away along a path: if the albedo of every diffuse
/// and every metal sphere of the scene is a tint, then so is the attenuation
/// of every bounce.
pub proof fn lemma_bounces_take_light_away<
    S: Fn(&Ray, &Sphere) -> Roots,
    U: Fn(&Ray, &Sphere, Scalar) -> Surface,
    P: Fn(&Ray, &HitRecord) -> Candidates,
>(
    spheres: Seq<Sphere>,
    solve: S,
    surface: U,
    prepare: P,
    first: Ray,
    depth: nat,
    bounces: Seq<Bounce>,
    end: Radiance,
    k: int,
)
    requires
        traced(spheres, solve, surface, prepare, first, depth, bounces, end),
        forall|i: int| 0 <= i < spheres.len() ==> tinted((#[trigger] spheres[i])@.material),
        0 <= k < bounces.len(),
    ensures
        is_tint(bounces[k].attenuation),
{
    let ray = ray_after(first, bounces, k);
    let found = Found::Scattered(bounces[k]);
    assert(found_by(spheres, solve, surface, prepare, ray, found));
    let roots = choose|roots: Seq<Roots>|
        {
            &&& #[trigger] solved(solve, ray, spheres, roots)
            &&& match nearest(roots, Interval::beyond_bias()) {
                None => found == Found::Miss,
                Some(hit) => found_at(spheres[hit.0], hit.1, surface, prepare, ray, found),
            }
        };
    crate::hittable::lemma_nearest_is_a_hit(roots, Interval::beyond_bias());
    let hit = nearest(roots, Interval::beyond_bias())->0;
    let sphere = spheres[hit.0];
    assert(tinted(sphere@.material));
    let (at, candidates) = choose|at: Surface, candidates: Candidates|
        {
            &&& #[trigger] surface.ensures((&ray, &sphere, hit.1), at)
            &&& #[trigger] prepare.ensures(
                (&ray, &record_of(at, hit.1, sphere@.material)),
                candidates,
            )
            &&& found == found_of(
                scattered(sphere@.material, record_of(at, hit.1, sphere@.material), candidates),
            )
        };
    crate::material::lemma_scattering_takes_light_away(
        sphere@.material,
        record_of(at, hit.1, sphere@.material),
        candidates,
    );
}

/// A path that is scattered `bounces` times within its budget and then meets
/// `last` gathers what a path with the remaining budget gathers from `last`
/// alone.
proof fn lemma_scattered_then(depth: nat, bounces: nat, last: Option<Encounter>)
    requires
        bounces <= depth,
    ensures
        gathered(depth, encounters(bounces, last)) == gathered(
            (depth - bounces) as nat,
            encounters(0, last),
        ),
    decreases bounces,
{
    if bounces > 0 {
        let all = encounters(bounces, last);
        assert(all[0] == Encounter::Scattered);
        assert(all.drop_first() =~= encounters((bounces - 1) as nat, last));
        lemma_scattered_then((depth - 1) as nat, (bounces - 1) as nat, last);
    }
}

/// A path without any budget gathers nothing, whatever its rays would find.
pub proof fn lemma_no_budget_gathers_nothing(path: Seq<Encounter>)
    ensures
        gathered(0, path) == Some(Radiance::Black),
{
}

/// A path whose first ray misses everything gathers the background, if it
/// has any budget at all.
pub proof fn lemma_first_miss_gathers_background(depth: nat, path: Seq<Encounter>)
    requires
        depth > 0,
        path.len() > 0,
        path[0] == Encounter::Miss,
    ensures
        gathered(depth, path) == Some(Radiance::Background),
{
}

/// A path ends after at most as many encounters as it has bounces.
pub proof fn lemma_ends_within_budget(depth: nat, path: Seq<Encounter>)
    requires
        path.len() >= depth,
    ensures
        gathered(depth, path) is Some,
    decreases path.len(),
{
    if depth > 0 && ending(depth, path[0]) is None {
        lemma_ends_within_budget((depth - 1) as nat, path.drop_first());
    }
}

} // verus!

//! Geometry: the scene as a tree of spheres, the stretch of a ray within
//! which hits count, and the choice of the nearest hit.
//!
//! For each sphere the caller solves the quadratic that its surface and the
//! ray make, which is arithmetic. Which root counts as the hit of a sphere,
//! which sphere is hit first, and which way the surface faces at the hit, is
//! decided here.

use crate::material::Material;
use crate::scalar::Scalar;
use crate::vec3::Vec3;
use vstd::prelude::*;

verus! {

/// One end of an interval of ray parameters.
#[derive(Clone, Copy, Debug)]
pub enum Limit {
    /// The end belongs to the interval.
    Included(Scalar),
    /// The end does not belong to the interval.
    Excluded(Scalar),
    /// The interval has no end on this side.
    Unbounded,
}

/// The stretch of a ray within which hits count.
#[derive(Clone, Copy, Debug)]
pub struct Interval {
    pub lower: Limit,
    pub upper: Limit,
}

impl Limit {
    /// `t` is not below this lower end.
    pub open spec fn admits_from_below(self, t: Scalar) -> bool {
        match self {
            Limit::Included(start) => start.le(t),
            Limit::Excluded(start) => start.lt(t),
            Limit::Unbounded => true,
        }
    }

    /// `t` is not above this upper end.
    pub open spec fn admits_from_above(self, t: Scalar) -> bool {
        match self {
            Limit::Included(end) => t.le(end),
            Limit::Excluded(end) => t.lt(end),
            Limit::Unbounded => true,
        }
    }
}

/// The double nearest to 0.001. A hit nearer than this is taken for the
/// surface that the ray has just left.
pub const SHADOW_BIAS: u64 = 0x3f50_624d_d2f1_a9fc;

impl Interval {
    /// The stretch of a ray in which hits count for light transport:
    /// everything beyond [`SHADOW_BIAS`], without end.
    pub open spec fn beyond_bias() -> Interval {
        Interval { lower: Limit::Excluded(Scalar { bits: SHADOW_BIAS }), upper: Limit::Unbounded }
    }

    /// The stretch of a ray in which hits count for light transport.
    pub fn forward() -> (range: Interval)
        ensures
            range == Interval::beyond_bias(),
    {
        Interval { lower: Limit::Excluded(Scalar::from_bits(SHADOW_BIAS)), upper: Limit::Unbounded }
    }

    /// `t` lies in the interval. What is no number lies in no interval that
    /// has an end.
    pub open spec fn holds(self, t: Scalar) -> bool {
        self.lower.admits_from_below(t) && self.upper.admits_from_above(t)
    }

    /// The part of the interval below `t`, without `t` itself.
    pub open spec fn narrowed(self, t: Scalar) -> Interval {
        Interval { lower: self.lower, upper: Limit::Excluded(t) }
    }

    /// Whether `t` lies in the interval.
    pub fn contains(&self, t: Scalar) -> (inside: bool)
        ensures
            inside == self.holds(t),
    {
        let from_below = match self.lower {
            Limit::Included(start) => start.at_most(t),
            Limit::Excluded(start) => start.less(t),
            Limit::Unbounded => true,
        };
        let from_above = match self.upper {
            Limit::Included(end) => t.at_most(end),
            Limit::Excluded(end) => t.less(end),
            Limit::Unbounded => true,
        };
        from_below && from_above
    }

    /// The part of the interval below `t`, without `t` itself.
    pub fn below(&self, t: Scalar) -> (part: Interval)
        ensures
            part == self.narrowed(t),
    {
        Interval { lower: self.lower, upper: Limit::Excluded(t) }
    }
}

/// What solving the quadratic of a ray and a sphere gave: the discriminant
/// and the two roots, the nearer one first. Where the discriminant is
/// negative the roots mean nothing.
#[derive(Clone, Copy, Debug)]
pub struct Roots {
    pub discriminant: Scalar,
    pub near: Scalar,
    pub far: Scalar,
}

impl Roots {
    /// The ray meets the sphere at all: the discriminant is not negative.
    pub open spec fn meets(self) -> bool {
        !self.discriminant.lt(Scalar { bits: 0 })
    }

    /// `t` is a root at which the ray meets the sphere within `range`.
    pub open spec fn admits(self, range: Interval, t: Scalar) -> bool {
        self.meets() && (t == self.near || t == self.far) && range.holds(t)
    }

    /// The far root is not before the near one.
    pub open spec fn ordered(self) -> bool {
        !self.far.lt(self.near)
    }

    /// The hit of the sphere within `range`: the near root if it lies in the
    /// range, else the far root if that does, else none.
    pub open spec fn hit_in(self, range: Interval) -> Option<Scalar> {
        if !self.meets() {
            None
        } else if range.holds(self.near) {
            Some(self.near)
        } else if range.holds(self.far) {
            Some(self.far)
        } else {
            None
        }
    }

    /// The hit of the sphere within `range`, if there is one.
    pub fn first_root(&self, range: &Interval) -> (hit: Option<Scalar>)
        ensures
            hit == self.hit_in(*range),
    {
        if self.discriminant.less(Scalar::zero()) {
            None
        } else if range.contains(self.near) {
            Some(self.near)
        } else if range.contains(self.far) {
            Some(self.far)
        } else {
            None
        }
    }
}

/// The range within which the next sphere is asked, given the nearest hit
/// so far: everything of `range` that is nearer.
pub open spec fn remaining(range: Interval, best: Option<(int, Scalar)>) -> Interval {
    match best {
        Some(found) => range.narrowed(found.1),
        None => range,
    }
}

/// The nearest hit among the spheres whose roots are given, asked in their
/// order: the number of the sphere and the ray parameter. Each sphere is
/// asked only for a hit nearer than the nearest so far.
pub open spec fn nearest(spheres: Seq<Roots>, range: Interval) -> Option<(int, Scalar)>
    decreases spheres.len(),
{
    if spheres.len() == 0 {
        None
    } else {
        let before = nearest(spheres.drop_last(), range);
        match spheres.last().hit_in(remaining(range, before)) {
            Some(t) => Some((spheres.len() - 1, t)),
            None => before,
        }
    }
}

/// The nearest hit found so far while the spheres of a scene are gone
/// through. With each sphere asked the caller hands in something to know it
/// by afterwards; the search keeps that of the sphere which was hit.
pub struct Nearest<T> {
    range: Interval,
    asked: Ghost<Seq<Roots>>,
    best: Option<(T, Scalar)>,
}

/// The mathematical content of a [`Nearest`]: the range the search started
/// with, the roots of the spheres asked so far, and what the caller handed in
/// with the sphere that was hit, if any was.
pub struct NearestView<T> {
    pub range: Interval,
    pub asked: Seq<Roots>,
    pub held: Option<T>,
}

impl<T> View for Nearest<T> {
    type V = NearestView<T>;

    closed spec fn view(&self) -> NearestView<T> {
        NearestView {
            range: self.range,
            asked: self.asked@,
            held: match self.best {
                Some(found) => Some(found.0),
                None => None,
            },
        }
    }
}

/// What is handed back of the nearest hit: what the caller handed in with the
/// sphere, and the ray parameter.
pub open spec fn handed_back<T>(held: Option<T>, hit: Option<(int, Scalar)>) -> Option<
    (T, Scalar),
> {
    match (held, hit) {
        (Some(item), Some(found)) => Some((item, found.1)),
        _ => None,
    }
}

impl<T> Nearest<T> {
    #[verifier::type_invariant]
    spec fn well_formed(self) -> bool {
        match (self.best, nearest(self.asked@, self.range)) {
            (Some(kept), Some(found)) => kept.1 == found.1,
            (None, None) => true,
            _ => false,
        }
    }
}

impl<T: Copy> Nearest<T> {
    /// A search within `range` that has asked no sphere yet.
    pub fn new(range: Interval) -> (search: Nearest<T>)
        ensures
            search@ == (NearestView::<T> { range, asked: Seq::empty(), held: None }),
    {
        Nearest { range, asked: Ghost(Seq::empty()), best: None }
    }

    /// The range within which the next sphere is asked: what of the range of
    /// the search is nearer than the nearest hit so far.
    pub fn range(&self) -> (range: Interval)
        ensures
            range == remaining(self@.range, nearest(self@.asked, self@.range)),
    {
        proof {
            use_type_invariant(self);
        }
        match self.best {
            Some(found) => self.range.below(found.1),
            None => self.range,
        }
    }

    /// The nearest hit so far: what was handed in with the sphere that was
    /// hit, and the ray parameter of the hit.
    pub fn best(&self) -> (best: Option<(T, Scalar)>)
        ensures
            best == handed_back(self@.held, nearest(self@.asked, self@.range)),
            best is Some <==> nearest(self@.asked, self@.range) is Some,
    {
        proof {
            use_type_invariant(self);
        }
        self.best
    }

    /// Asks the next sphere, whose roots are `roots`. If it has a hit nearer
    /// than the nearest so far, that becomes the nearest and `item` is kept
    /// with it; the return value says whether this happened.
    pub fn offer(&mut self, item: T, roots: &Roots) -> (nearer: bool)
        ensures
            final(self)@.range == old(self)@.range,
            final(self)@.asked == old(self)@.asked.push(*roots),
            nearer == (nearest(final(self)@.asked, final(self)@.range) matches Some(found)
                && found.0 == old(self)@.asked.len()),
            final(self)@.held == (if nearer {
                Some(item)
            } else {
                old(self)@.held
            }),
    {
        proof {
            use_type_invariant(&*self);
            assert(self.asked@.push(*roots).drop_last() =~= self.asked@);
            lemma_nearest_is_a_hit(self.asked@, self.range);
        }
        let within = self.range();
        let hit = roots.first_root(&within);
        let ghost asked = self.asked@.push(*roots);
        match hit {
            Some(t) => {
                *self = Nearest { range: self.range, asked: Ghost(asked), best: Some((item, t)) };
                true
            },
            None => {
                *self = Nearest { range: self.range, asked: Ghost(asked), best: self.best };
                false
            },
        }
    }
}

/// The nearest hit among the spheres whose roots are given: the index of the
/// sphere and the ray parameter.
pub fn nearest_hit(spheres: &Vec<Roots>, range: Interval) -> (hit: Option<(usize, Scalar)>)
    ensures
        match hit {
            Some(found) => nearest(spheres@, range) == Some((found.0 as int, found.1)),
            None => nearest(spheres@, range) is None,
        },
        hit matches Some(found) ==> found.0 < spheres@.len() && spheres@[found.0 as int].admits(
            range,
            found.1,
        ),
{
    let mut search: Nearest<usize> = Nearest::new(range);
    let mut k: usize = 0;
    while k < spheres.len()
        invariant
            k <= spheres@.len(),
            search@.range == range,
            search@.asked == spheres@.take(k as int),
            match (search@.held, nearest(search@.asked, range)) {
                (Some(index), Some(found)) => index == found.0,
                (None, None) => true,
                _ => false,
            },
        decreases spheres@.len() - k,
    {
        proof {
            assert(spheres@.take(k as int).push(spheres@[k as int]) =~= spheres@.take(k + 1));
            assert(spheres@.take(k + 1).drop_last() =~= spheres@.take(k as int));
            lemma_nearest_is_a_hit(spheres@.take(k as int), range);
        }
        search.offer(k, &spheres[k]);
        k = k + 1;
    }
    proof {
        assert(spheres@.take(k as int) =~= spheres@);
        lemma_nearest_is_a_hit(spheres@, range);
    }
    search.best()
}

/// What is below a number that lies in a range does not lie above the range.
proof fn lemma_below_stays_within(range: Interval, t: Scalar, bound: Scalar)
    requires
        range.holds(bound),
        range.narrowed(bound).holds(t),
    ensures
        range.holds(t),
{
}

/// The nearest hit is a hit: it is a root of the sphere it names, and it lies
/// in the range.
pub proof fn lemma_nearest_is_a_hit(spheres: Seq<Roots>, range: Interval)
    ensures
        nearest(spheres, range) matches Some(found) ==> {
            &&& 0 <= found.0 < spheres.len()
            &&& spheres[found.0].admits(range, found.1)
        },
    decreases spheres.len(),
{
    if spheres.len() > 0 {
        let rest = spheres.drop_last();
        let before = nearest(rest, range);
        lemma_nearest_is_a_hit(rest, range);
        match spheres.last().hit_in(remaining(range, before)) {
            Some(t) => {
                if let Some(found) = before {
                    assert(rest[found.0] == spheres[found.0]);
                    lemma_below_stays_within(range, t, found.1);
                }
            },
            None => {
                if let Some(found) = before {
                    assert(rest[found.0] == spheres[found.0]);
                }
            },
        }
    }
}

/// Where no hit is found, no sphere has a root in the range.
pub proof fn lemma_no_hit_means_none(spheres: Seq<Roots>, range: Interval, j: int, t: Scalar)
    requires
        nearest(spheres, range) is None,
        0 <= j < spheres.len(),
    ensures
        !spheres[j].admits(range, t),
    decreases spheres.len(),
{
    let rest = spheres.drop_last();
    if j < spheres.len() - 1 {
        assert(rest[j] == spheres[j]);
        lemma_no_hit_means_none(rest, range, j, t);
    }
}

/// No sphere has a hit nearer than the nearest: if the far root of no sphere
/// lies before its near root, then no root of any sphere that lies in the
/// range is below the nearest hit.
pub proof fn lemma_nearest_is_nearest(spheres: Seq<Roots>, range: Interval, j: int, t: Scalar)
    requires
        forall|i: int| 0 <= i < spheres.len() ==> (#[trigger] spheres[i]).ordered(),
        0 <= j < spheres.len(),
        spheres[j].admits(range, t),
    ensures
        nearest(spheres, range) matches Some(found) && !t.lt(found.1),
    decreases spheres.len(),
{
    let rest = spheres.drop_last();
    let last = spheres.last();
    let before = nearest(rest, range);
    let within = remaining(range, before);
    assert forall|i: int| 0 <= i < rest.len() implies (#[trigger] rest[i]).ordered() by {
        assert(rest[i] == spheres[i]);
    }
    lemma_nearest_is_a_hit(rest, range);
    if j < spheres.len() - 1 {
        assert(rest[j] == spheres[j]);
        lemma_nearest_is_nearest(rest, range, j, t);
    } else {
        match before {
            Some(found) => {
                assert(rest[found.0] == spheres[found.0]);
            },
            None => {},
        }
    }
}

/// The nearest hit does not depend on the order in which the spheres are
/// asked: two lists of the same spheres have a hit together, and neither
/// finds one nearer than the other. Which of several spheres hit at the
/// same parameter is named depends on the order.
pub proof fn lemma_nearest_ignores_order(first: Seq<Roots>, second: Seq<Roots>, range: Interval)
    requires
        forall|roots: Roots| first.contains(roots) <==> second.contains(roots),
        forall|i: int| 0 <= i < first.len() ==> (#[trigger] first[i]).ordered(),
    ensures
        nearest(first, range) is Some <==> nearest(second, range) is Some,
        nearest(first, range) matches Some(a) ==> nearest(second, range) matches Some(b) && !a.1.lt(
            b.1,
        ) && !b.1.lt(a.1),
{
    assert forall|i: int| 0 <= i < second.len() implies (#[trigger] second[i]).ordered() by {
        assert(second.contains(second[i]));
        assert(first.contains(second[i]));
    }
    lemma_nearest_is_a_hit(first, range);
    lemma_nearest_is_a_hit(second, range);
    if let Some(a) = nearest(first, range) {
        assert(first.contains(first[a.0]));
        assert(second.contains(first[a.0]));
        let j = choose|j: int| 0 <= j < second.len() && second[j] == first[a.0];
        lemma_nearest_is_nearest(second, range, j, a.1);
    }
    if let Some(b) = nearest(second, range) {
        assert(second.contains(second[b.0]));
        assert(first.contains(second[b.0]));
        let j = choose|j: int| 0 <= j < first.len() && first[j] == second[b.0];
        lemma_nearest_is_nearest(first, range, j, b.1);
    }
}

/// Why a piece of geometry was refused.
#[derive(Clone, Copy, Debug, PartialEq, Eq, Structural)]
pub enum GeometryError {
    /// The radius is negative or no number.
    BadRadius,
}

/// The mathematical content of a [`Sphere`].
pub struct SphereView {
    pub center: Vec3,
    pub radius: Scalar,
    pub material: Material,
}

/// A sphere. Its radius is a number and not negative.
#[derive(Clone, Copy, Debug)]
pub struct Sphere {
    center: Vec3,
    radius: Scalar,
    material: Material,
}

impl View for Sphere {
    type V = SphereView;

    closed spec fn view(&self) -> SphereView {
        SphereView { center: self.center, radius: self.radius, material: self.material }
    }
}

impl Sphere {
    #[verifier::type_invariant]
    spec fn well_formed(self) -> bool {
        (Scalar { bits: 0 }).le(self.radius)
    }

    /// The sphere round `center`. A radius that is negative or no number is
    /// refused.
    pub fn new(center: Vec3, radius: Scalar, material: Material) -> (made: Result<
        Sphere,
        GeometryError,
    >)
        ensures
            match made {
                Ok(sphere) => (Scalar { bits: 0 }).le(radius) && sphere@ == (SphereView {
                    center,
                    radius,
                    material,
                }),
                Err(GeometryError::BadRadius) => !(Scalar { bits: 0 }).le(radius),
            },
    {
        if Scalar::zero().at_most(radius) {
            Ok(Sphere { center, radius, material })
        } else {
            Err(GeometryError::BadRadius)
        }
    }

    /// The middle of the sphere.
    pub fn center(&self) -> (center: Vec3)
        ensures
            center == self@.center,
    {
        self.center
    }

    /// The radius of the sphere: a number, and not negative.
    pub fn radius(&self) -> (radius: Scalar)
        ensures
            radius == self@.radius,
            (Scalar { bits: 0 }).le(radius),
    {
        proof {
            use_type_invariant(self);
        }
        self.radius
    }

    /// What the sphere is made of.
    pub fn material(&self) -> (material: Material)
        ensures
            material == self@.material,
    {
        self.material
    }
}

/// A scene: a sphere, or a list of scenes.
#[derive(Debug)]
pub enum Hittable {
    Sphere(Sphere),
    HittableList(Vec<Hittable>),
}

/// The spheres of the first `n` scenes of a list, in their order.
pub open spec fn leaves_of(list: Seq<Hittable>, n: nat) -> Seq<Sphere>
    decreases list, n,
{
    if n == 0 || n > list.len() {
        Seq::empty()
    } else {
        leaves_of(list, (n - 1) as nat) + list[n - 1].leaves()
    }
}

/// `roots` holds, for each of the spheres in turn, roots that `solve` gave
/// for it.
pub open spec fn answers<F: Fn(&Sphere) -> Roots>(
    solve: F,
    spheres: Seq<Sphere>,
    roots: Seq<Roots>,
) -> bool {
    &&& roots.len() == spheres.len()
    &&& forall|i: int|
        0 <= i < spheres.len() ==> solve.ensures((&#[trigger] spheres[i],), roots[i])
}

/// The search has asked exactly the given spheres, with the roots that
/// `solve` gave, and holds the one that was hit.
pub open spec fn follows<F: Fn(&Sphere) -> Roots>(
    search: NearestView<Sphere>,
    spheres: Seq<Sphere>,
    solve: F,
) -> bool {
    &&& answers(solve, spheres, search.asked)
    &&& match (search.held, nearest(search.asked, search.range)) {
        (Some(sphere), Some(found)) => sphere == spheres[found.0],
        (None, None) => true,
        _ => false,
    }
}

impl Hittable {
    /// The spheres of the scene in the order in which they are asked for a
    /// hit: lists within lists are gone through as if their spheres stood in
    /// the outer list.
    pub open spec fn leaves(self) -> Seq<Sphere>
        decreases self,
    {
        match self {
            Hittable::Sphere(sphere) => seq![sphere],
            Hittable::HittableList(list) => leaves_of(list@, list@.len()),
        }
    }

    /// Appends the spheres of the scene to `out`.
    fn collect(&self, out: &mut Vec<Sphere>)
        ensures
            final(out)@ == old(out)@ + self.leaves(),
        decreases self,
    {
        match self {
            Hittable::Sphere(sphere) => {
                out.push(*sphere);
                assert(out@ =~= old(out)@ + self.leaves());
            },
            Hittable::HittableList(list) => {
                let mut k: usize = 0;
                assert(out@ =~= old(out)@ + leaves_of(list@, 0));
                while k < list.len()
                    invariant
                        k <= list@.len(),
                        self == Hittable::HittableList(*list),
                        out@ == old(out)@ + leaves_of(list@, k as nat),
                    decreases list@.len() - k,
                {
                    proof {
                        assert(decreases_to!(self => self->HittableList_0));
                        assert(decreases_to!(self->HittableList_0 => self->HittableList_0@));
                        assert(decreases_to!(self->HittableList_0@ => self->HittableList_0@[k as int]));
                    }
                    list[k].collect(out);
                    proof {
                        assert(out@ =~= old(out)@ + leaves_of(list@, (k + 1) as nat));
                    }
                    k = k + 1;
                }
            },
        }
    }

    /// Goes through the spheres of the scene, asking each for a hit nearer
    /// than the nearest so far.
    fn scan<F: Fn(&Sphere) -> Roots>(
        &self,
        solve: &F,
        search: &mut Nearest<Sphere>,
        Ghost(done): Ghost<Seq<Sphere>>,
    )
        requires
            forall|sphere: Sphere| solve.requires((&sphere,)),
            follows(old(search)@, done, *solve),
        ensures
            final(search)@.range == old(search)@.range,
            follows(final(search)@, done + self.leaves(), *solve),
        decreases self,
    {
        match self {
            Hittable::Sphere(sphere) => {
                let roots = solve(sphere);
                let ghost asked = search@.asked;
                search.offer(*sphere, &roots);
                proof {
                    let all = done + self.leaves();
                    assert(all =~= done.push(*sphere));
                    assert(asked.push(roots).drop_last() =~= asked);
                    lemma_nearest_is_a_hit(asked, search@.range);
                    assert forall|i: int| 0 <= i < all.len() implies solve.ensures(
                        (&#[trigger] all[i],),
                        search@.asked[i],
                    ) by {
                        if i < done.len() {
                            assert(all[i] == done[i]);
                        }
                    }
                }
            },
            Hittable::HittableList(list) => {
                let mut k: usize = 0;
                assert(done + leaves_of(list@, 0) =~= done);
                while k < list.len()
                    invariant
                        k <= list@.len(),
                        self == Hittable::HittableList(*list),
                        forall|sphere: Sphere| solve.requires((&sphere,)),
                        search@.range == old(search)@.range,
                        follows(search@, done + leaves_of(list@, k as nat), *solve),
                    decreases list@.len() - k,
                {
                    proof {
                        assert(decreases_to!(self => self->HittableList_0));
                        assert(decreases_to!(self->HittableList_0 => self->HittableList_0@));
                        assert(decreases_to!(self->HittableList_0@ => self->HittableList_0@[k as int]));
                        assert((done + leaves_of(list@, k as nat)) + list@[k as int].leaves() =~= done
                            + leaves_of(list@, (k + 1) as nat));
                    }
                    list[k].scan(solve, search, Ghost(done + leaves_of(list@, k as nat)));
                    k = k + 1;
                }
            },
        }
    }

    /// The nearest hit of a ray within `range`: the sphere that is hit and
    /// the ray parameter of the hit. `solve` gives the roots of the ray for a
    /// sphere; it is asked once for every sphere of the scene, in order, and
    /// the answers are searched as [`nearest`] says.
    pub fn hit<F: Fn(&Sphere) -> Roots>(&self, solve: &F, range: Interval) -> (hit: Option<
        (Sphere, Scalar),
    >)
        requires
            forall|sphere: Sphere| solve.requires((&sphere,)),
        ensures
            exists|roots: Seq<Roots>|
                {
                    &&& answers(*solve, self.leaves(), roots)
                    &&& hit == (match #[trigger] nearest(roots, range) {
                        Some(found) => Some((self.leaves()[found.0], found.1)),
                        None => None,
                    })
                },
            self.leaves().len() == 0 ==> hit is None,
            hit matches Some(found) ==> range.holds(found.1) && self.leaves().contains(found.0),
    {
        let mut search: Nearest<Sphere> = Nearest::new(range);
        self.scan(solve, &mut search, Ghost(Seq::empty()));
        proof {
            assert(Seq::<Sphere>::empty() + self.leaves() =~= self.leaves());
        }
        let hit = search.best();
        proof {
            let roots = search@.asked;
            lemma_nearest_is_a_hit(roots, range);
            assert(answers(*solve, self.leaves(), roots));
            assert(hit == (match nearest(roots, range) {
                Some(found) => Some((self.leaves()[found.0], found.1)),
                None => None,
            }));
        }
        hit
    }

    /// The spheres of the scene in the order in which they are asked for a
    /// hit.
    pub fn spheres(&self) -> (spheres: Vec<Sphere>)
        ensures
            spheres@ == self.leaves(),
    {
        let mut spheres: Vec<Sphere> = Vec::new();
        self.collect(&mut spheres);
        assert(spheres@ =~= self.leaves());
        spheres
    }
}

/// What is known of a ray at the point where it hits a surface.
#[derive(Clone, Copy, Debug)]
pub struct HitRecord {
    /// Where the ray hit.
    pub point: Vec3,
    /// The normal of the surface there, turned against the ray.
    pub normal: Vec3,
    /// The ray parameter of the hit.
    pub t: Scalar,
    /// Whether the ray came from outside, so that the outward normal did not
    /// have to be turned.
    pub front_face: bool,
    /// What the surface is made of.
    pub material: Material,
}

impl HitRecord {
    /// A record of the given parts.
    pub fn new(point: Vec3, normal: Vec3, t: Scalar, front_face: bool, material: Material) -> (hit:
        HitRecord)
        ensures
            hit == (HitRecord { point, normal, t, front_face, material }),
    {
        HitRecord { point, normal, t, front_face, material }
    }

    /// The record of a hit at `point`, at ray parameter `t`, where the
    /// surface has the outward normal `outward_normal`. `facing` is the dot
    /// product of the ray's direction with that normal: where it is negative,
    /// the ray came from outside and the normal stands as it is; otherwise
    /// the normal is turned round.
    pub fn from_outward_normal_and_ray(
        facing: Scalar,
        point: Vec3,
        t: Scalar,
        outward_normal: Vec3,
        material: Material,
    ) -> (hit: HitRecord)
        ensures
            hit.front_face == facing.lt(Scalar { bits: 0 }),
            hit.normal == (if hit.front_face {
                outward_normal
            } else {
                outward_normal.opposite()
            }),
            hit.point == point,
            hit.t == t,
            hit.material == material,
    {
        let front_face = facing.less(Scalar::zero());
        let normal = if front_face {
            outward_normal
        } else {
            outward_normal.neg()
        };
        HitRecord::new(point, normal, t, front_face, material)
    }
}

} // verus!

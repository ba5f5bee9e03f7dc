//! Triples of numbers, used as points, directions and colours alike.
//!
//! Sums, products and lengths are arithmetic and are computed by the caller;
//! what is exact is done here.

use crate::scalar::{magnitude_of, Scalar};
use vstd::prelude::*;

verus! {

/// The double nearest to 1e-8: below it a component counts as vanished.
pub const VANISHING: u64 = 0x3e45_798e_e230_8c3a;

/// A point, a direction or a colour.
#[derive(Clone, Copy, Debug)]
pub struct Vec3 {
    pub x: Scalar,
    pub y: Scalar,
    pub z: Scalar,
}

impl Vec3 {
    /// Every component is a number whose absolute value is below
    /// [`VANISHING`].
    pub open spec fn vanishes(self) -> bool {
        let limit = Scalar { bits: VANISHING };
        &&& !self.x.nan() && magnitude_of(self.x.size()) < limit.scaled()
        &&& !self.y.nan() && magnitude_of(self.y.size()) < limit.scaled()
        &&& !self.z.nan() && magnitude_of(self.z.size()) < limit.scaled()
    }

    /// Every component with the other sign.
    pub open spec fn opposite(self) -> Vec3 {
        Vec3 { x: self.x.opposite(), y: self.y.opposite(), z: self.z.opposite() }
    }

    /// The triple of the given components.
    pub fn new(x: Scalar, y: Scalar, z: Scalar) -> (v: Vec3)
        ensures
            v.x == x,
            v.y == y,
            v.z == z,
    {
        Vec3 { x, y, z }
    }

    /// The opposite vector: every component with its sign turned.
    pub fn neg(self) -> (opposite: Vec3)
        ensures
            opposite == self.opposite(),
    {
        Vec3 { x: self.x.negated(), y: self.y.negated(), z: self.z.negated() }
    }

    /// Whether the vector is all but the zero vector: every component within
    /// 1e-8 of zero.
    pub fn near_zero(self) -> (near: bool)
        ensures
            near == self.vanishes(),
    {
        let limit = Scalar::from_bits(VANISHING);
        self.x.absolute().less(limit) && self.y.absolute().less(limit) && self.z.absolute().less(
            limit,
        )
    }
}

} // verus!

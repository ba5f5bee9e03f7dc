//! Rays: an origin and a direction. The direction need not have length one.

use crate::vec3::Vec3;
use vstd::prelude::*;

verus! {

/// The half-line `origin + t * direction`.
#[derive(Clone, Copy, Debug)]
pub struct Ray {
    pub origin: Vec3,
    pub direction: Vec3,
}

impl Ray {
    /// The ray from `origin` along `direction`.
    pub fn new(origin: Vec3, direction: Vec3) -> (ray: Ray)
        ensures
            ray.origin == origin,
            ray.direction == direction,
    {
        Ray { origin, direction }
    }
}

} // verus!

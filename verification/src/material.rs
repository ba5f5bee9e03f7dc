//! Materials and what they do to a ray that meets them.
//!
//! The directions in which a ray may go on are computed by the caller, who
//! has the arithmetic and the random numbers. Which of them the ray takes,
//! whether it goes on at all, and how much of its light it keeps, is decided
//! here.

use crate::hittable::HitRecord;
use crate::ray::Ray;
use crate::scalar::{Scalar, ONE};
use crate::vec3::Vec3;
use vstd::prelude::*;

verus! {

/// The scattering model of a surface, without its colour or roughness.
#[derive(Clone, Copy, Debug, PartialEq, Eq, Structural)]
pub enum MaterialKind {
    /// Diffuse: scatters around the surface normal.
    Lambertian,
    /// Mirror-like, possibly roughened.
    Metal,
    /// Transparent: refracts or reflects.
    Dielectric,
}

/// A surface.
#[derive(Clone, Copy, Debug)]
pub enum Material {
    /// Diffuse: light leaves in a random direction around the normal, tinted
    /// by `albedo`.
    Lambertian { albedo: Vec3 },
    /// Mirror-like: light is reflected, tinted by `albedo`, and thrown off
    /// course by up to `fuzz`.
    Metal { albedo: Vec3, fuzz: Scalar },
    /// Transparent: light is refracted or reflected, and none is lost. `ir`
    /// is the index of refraction.
    Dielectric { ir: Scalar },
}

/// What the caller has worked out for a ray that met a surface, by the kind
/// of the surface.
#[derive(Clone, Copy, Debug)]
pub enum Candidates {
    /// For a diffuse surface: the normal plus a random unit vector.
    Lambertian { jittered: Vec3 },
    /// For metal: the reflected direction thrown off course, and the dot
    /// product of that direction with the normal.
    Metal { fuzzed: Vec3, facing: Scalar },
    /// For glass: the share of light reflected at this angle, a uniform draw
    /// from zero to one, the discriminant of the refraction, the refracted
    /// direction (of no meaning where the discriminant is negative) and the
    /// reflected direction.
    Dielectric {
        reflectance: Scalar,
        draw: Scalar,
        discriminant: Scalar,
        refracted: Vec3,
        reflected: Vec3,
    },
}

/// The colour that takes nothing away: one in every channel.
pub open spec fn white() -> Vec3 {
    Vec3 { x: Scalar { bits: ONE }, y: Scalar { bits: ONE }, z: Scalar { bits: ONE } }
}

/// A number from zero to one.
pub open spec fn is_share(value: Scalar) -> bool {
    !value.nan() && 0 <= value.scaled() <= (Scalar { bits: ONE }).scaled()
}

/// A colour whose channels are all numbers from zero to one.
pub open spec fn is_tint(color: Vec3) -> bool {
    is_share(color.x) && is_share(color.y) && is_share(color.z)
}

/// A material that takes light away and adds none: a diffuse surface or a
/// metal whose albedo is a tint, or glass.
pub open spec fn tinted(material: Material) -> bool {
    match material {
        Material::Lambertian { albedo } => is_tint(albedo),
        Material::Metal { albedo, fuzz } => is_tint(albedo),
        Material::Dielectric { ir } => true,
    }
}

/// The direction in which glass sends a ray on: refracted, unless the
/// geometry forbids it or the draw falls on the reflected share.
pub open spec fn glass_direction(
    reflectance: Scalar,
    draw: Scalar,
    discriminant: Scalar,
    refracted: Vec3,
    reflected: Vec3,
) -> Vec3 {
    if reflectance.le(draw) && !discriminant.lt(Scalar { bits: 0 }) {
        refracted
    } else {
        reflected
    }
}

/// What a surface of the given material does to a ray that met it at `hit`:
/// the ray that leaves and the share of light it keeps, or `None` if the ray
/// is absorbed. Candidates worked out for another kind of surface scatter
/// nothing.
pub open spec fn scattered(material: Material, hit: HitRecord, candidates: Candidates) -> Option<
    (Ray, Vec3),
> {
    match (material, candidates) {
        (Material::Lambertian { albedo }, Candidates::Lambertian { jittered }) => {
            let direction = if jittered.vanishes() {
                hit.normal
            } else {
                jittered
            };
            Some((Ray { origin: hit.point, direction }, albedo))
        },
        (Material::Metal { albedo, fuzz }, Candidates::Metal { fuzzed, facing }) => {
            if (Scalar { bits: 0 }).lt(facing) {
                Some((Ray { origin: hit.point, direction: fuzzed }, albedo))
            } else {
                None
            }
        },
        (
            Material::Dielectric { ir },
            Candidates::Dielectric { reflectance, draw, discriminant, refracted, reflected },
        ) => {
            let direction = glass_direction(reflectance, draw, discriminant, refracted, reflected);
            Some((Ray { origin: hit.point, direction }, white()))
        },
        _ => None,
    }
}

impl Material {
    /// The kind of the material, without its parameters.
    pub open spec fn kind_of(self) -> MaterialKind {
        match self {
            Material::Lambertian { .. } => MaterialKind::Lambertian,
            Material::Metal { .. } => MaterialKind::Metal,
            Material::Dielectric { .. } => MaterialKind::Dielectric,
        }
    }

    /// The kind of the material, without its parameters.
    pub fn kind(&self) -> (kind: MaterialKind)
        ensures
            kind == self.kind_of(),
    {
        match self {
            Material::Lambertian { .. } => MaterialKind::Lambertian,
            Material::Metal { .. } => MaterialKind::Metal,
            Material::Dielectric { .. } => MaterialKind::Dielectric,
        }
    }

    /// Decides what becomes of a ray that met this material at `hit`.
    ///
    /// A diffuse surface always scatters, along the jittered normal or, where
    /// that has all but vanished, along the normal itself. Metal scatters
    /// only if the direction it would send the ray in leaves the surface.
    /// Glass always scatters and keeps all light. A ray scattered by a
    /// diffuse surface or by metal keeps the share of light that the albedo
    /// names, so that a surface whose albedo is a tint gives no ray more
    /// light than it brought.
    pub fn scatter(&self, hit_record: &HitRecord, candidates: Candidates) -> (out: Option<
        (Ray, Vec3),
    >)
        ensures
            out == scattered(*self, *hit_record, candidates),
            out matches Some(bounce) ==> bounce.0.origin == hit_record.point,
            out matches Some(bounce) ==> (tinted(*self) ==> is_tint(bounce.1)),
    {
        proof {
            lemma_white_is_tint();
        }
        match (*self, candidates) {
            (Material::Lambertian { albedo }, Candidates::Lambertian { jittered }) => {
                let direction = if jittered.near_zero() {
                    hit_record.normal
                } else {
                    jittered
                };
                Some((Ray::new(hit_record.point, direction), albedo))
            },
            (Material::Metal { albedo, fuzz }, Candidates::Metal { fuzzed, facing }) => {
                if Scalar::zero().less(facing) {
                    Some((Ray::new(hit_record.point, fuzzed), albedo))
                } else {
                    None
                }
            },
            (
                Material::Dielectric { ir },
                Candidates::Dielectric { reflectance, draw, discriminant, refracted, reflected },
            ) => {
                let direction = if reflectance.at_most(draw) && !discriminant.less(
                    Scalar::zero(),
                ) {
                    refracted
                } else {
                    reflected
                };
                let one = Scalar::from_bits(ONE);
                Some((Ray::new(hit_record.point, direction), Vec3::new(one, one, one)))
            },
            _ => None,
        }
    }
}

/// White is a tint.
pub proof fn lemma_white_is_tint()
    ensures
        is_tint(white()),
{
    crate::scalar::lemma_magnitude_increases(0, ONE);
}

/// A ray scattered by a diffuse surface or by metal is attenuated by the
/// albedo of the surface; if every channel of the albedo lies between zero
/// and one, so does every channel of the attenuation.
pub proof fn lemma_scattering_takes_light_away(
    material: Material,
    hit: HitRecord,
    candidates: Candidates,
)
    requires
        tinted(material),
    ensures
        scattered(material, hit, candidates) matches Some(bounce) ==> is_tint(bounce.1),
{
    lemma_white_is_tint();
}

} // verus!

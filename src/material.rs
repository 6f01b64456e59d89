use vstd::prelude::*;

verus! {

/// The reflectance behaviours a surface can have.
#[derive(Clone, Copy, Debug, PartialEq, Eq, Structural)]
pub enum MaterialKind {
    Lambertian,
    Metal,
    Dielectric,
    DiffuseLight,
}

/// Where a scattered ray goes.
#[derive(Clone, Copy, Debug, PartialEq, Eq, Structural)]
pub enum Bounce {
    /// Along the normal plus a random unit vector.
    Diffuse,
    /// Along the normal alone: the diffuse direction came out near zero.
    Normal,
    /// The mirror direction (for a metal, perturbed by its fuzz).
    Reflect,
    /// Through the surface, by Snell's law.
    Refract,
}

/// What the geometry of one hit tells the scatter decision.
#[derive(Clone, Copy, Debug, PartialEq, Eq, Structural)]
pub struct SurfaceFacts {
    /// The diffuse direction (normal plus random unit vector) is near zero.
    pub diffuse_near_zero: bool,
    /// The fuzzed mirror direction points away from the surface.
    pub reflection_leaves: bool,
    /// Snell's law has no solution: refraction ratio times sine exceeds one.
    pub cannot_refract: bool,
    /// Schlick's reflectance exceeds the uniform draw.
    pub reflect_by_chance: bool,
}

pub open spec fn spec_scatter(kind: MaterialKind, f: SurfaceFacts) -> Option<Bounce> {
    match kind {
        MaterialKind::Lambertian => if f.diffuse_near_zero {
            Some(Bounce::Normal)
        } else {
            Some(Bounce::Diffuse)
        },
        MaterialKind::Metal => if f.reflection_leaves {
            Some(Bounce::Reflect)
        } else {
            None
        },
        MaterialKind::Dielectric => if f.cannot_refract || f.reflect_by_chance {
            Some(Bounce::Reflect)
        } else {
            Some(Bounce::Refract)
        },
        MaterialKind::DiffuseLight => None,
    }
}

/// Decides whether a hit scatters and in which way; `None` means the ray is
/// absorbed. A diffuse surface always scatters, falling back to the normal
/// where the random direction degenerates; a metal scatters only where its
/// reflection leaves the surface; glass always scatters, reflecting where it
/// cannot refract or where Schlick's reflectance wins the draw; a light never
/// scatters.
pub fn scatter(kind: MaterialKind, facts: SurfaceFacts) -> (r: Option<Bounce>)
    ensures
        r == spec_scatter(kind, facts),
        kind == MaterialKind::Dielectric ==> r is Some,
        kind == MaterialKind::Lambertian ==> r is Some,
        kind == MaterialKind::DiffuseLight ==> r is None,
{
    match kind {
        MaterialKind::Lambertian => if facts.diffuse_near_zero {
            Some(Bounce::Normal)
        } else {
            Some(Bounce::Diffuse)
        },
        MaterialKind::Metal => if facts.reflection_leaves {
            Some(Bounce::Reflect)
        } else {
            None
        },
        MaterialKind::Dielectric => if facts.cannot_refract || facts.reflect_by_chance {
            Some(Bounce::Reflect)
        } else {
            Some(Bounce::Refract)
        },
        MaterialKind::DiffuseLight => None,
    }
}

/// Glass never absorbs: whatever the geometry of the hit, it scatters.
pub proof fn lemma_dielectric_never_absorbs(facts: SurfaceFacts)
    ensures
        spec_scatter(MaterialKind::Dielectric, facts) is Some,
{
}

/// Only a light emits.
pub fn emits(kind: MaterialKind) -> (r: bool)
    ensures
        r <==> kind == MaterialKind::DiffuseLight,
{
    match kind {
        MaterialKind::DiffuseLight => true,
        _ => false,
    }
}

} // verus!

use ray_tracer::material::{emits, scatter, Bounce, MaterialKind, SurfaceFacts};

fn facts(bits: u8) -> SurfaceFacts {
    SurfaceFacts {
        diffuse_near_zero: bits & 1 != 0,
        reflection_leaves: bits & 2 != 0,
        cannot_refract: bits & 4 != 0,
        reflect_by_chance: bits & 8 != 0,
    }
}

#[test]
fn dielectric_never_absorbs() {
    for bits in 0..16 {
        assert!(scatter(MaterialKind::Dielectric, facts(bits)).is_some());
    }
}

#[test]
fn dielectric_reflects_when_it_cannot_refract_or_by_chance() {
    assert_eq!(scatter(MaterialKind::Dielectric, facts(0)), Some(Bounce::Refract));
    assert_eq!(scatter(MaterialKind::Dielectric, facts(4)), Some(Bounce::Reflect));
    assert_eq!(scatter(MaterialKind::Dielectric, facts(8)), Some(Bounce::Reflect));
}

#[test]
fn lambertian_falls_back_to_the_normal() {
    assert_eq!(scatter(MaterialKind::Lambertian, facts(0)), Some(Bounce::Diffuse));
    assert_eq!(scatter(MaterialKind::Lambertian, facts(1)), Some(Bounce::Normal));
}

#[test]
fn metal_absorbs_rays_that_do_not_leave() {
    assert_eq!(scatter(MaterialKind::Metal, facts(2)), Some(Bounce::Reflect));
    assert_eq!(scatter(MaterialKind::Metal, facts(0)), None);
}

#[test]
fn test_diffuse_light_scatter() {
    for bits in 0..16 {
        assert_eq!(scatter(MaterialKind::DiffuseLight, facts(bits)), None);
    }
}

#[test]
fn only_lights_emit() {
    assert!(emits(MaterialKind::DiffuseLight));
    assert!(!emits(MaterialKind::Lambertian));
    assert!(!emits(MaterialKind::Metal));
    assert!(!emits(MaterialKind::Dielectric));
}

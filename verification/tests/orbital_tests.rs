//! Child-creation validation, error messages, and body labels.

use von_neumann::body::BodyType;
use von_neumann::orbital::{remove_relation, validate_child, ChildCreateErr, SphereOfInfluence};

#[test]
fn body_type_labels() {
    assert_eq!(BodyType::Star.to_string(), "Star");
    assert_eq!(BodyType::Jovian.to_string(), "Jovian");
    assert_eq!(BodyType::Terrestrial.to_string(), "Terrestrial");
    assert_eq!(BodyType::Asteroid.to_string(), "Asteroid");
}

#[test]
fn child_create_err_messages() {
    assert_eq!(
        ChildCreateErr::OutOfSoI.message(),
        "Outside of body's Sphere of Influence."
    );
    assert_eq!(
        ChildCreateErr::TooMassive.message(),
        "Child Body is too massive, must be smaller than the parent."
    );
    assert_eq!(
        ChildCreateErr::TooClose.message(),
        "Child body is too close, they cannot start touching."
    );
}

#[test]
fn child_equal_mass_is_too_massive() {
    // a child exactly as massive as its parent is rejected
    let r = validate_child(1000, SphereOfInfluence::Finite(500), 1000, 100, 10);
    assert_eq!(r, Err(ChildCreateErr::TooMassive));
}

#[test]
fn child_beyond_soi_is_rejected() {
    let r = validate_child(1000, SphereOfInfluence::Finite(500), 10, 501, 10);
    assert_eq!(r, Err(ChildCreateErr::OutOfSoI));
}

#[test]
fn child_at_soi_boundary_is_allowed() {
    // the distance may reach the sphere of influence exactly
    let r = validate_child(1000, SphereOfInfluence::Finite(500), 10, 500, 10);
    assert_eq!(r, Ok(()));
}

#[test]
fn touching_bodies_are_too_close() {
    // combined radii equal to the distance: already touching
    let r = validate_child(1000, SphereOfInfluence::Finite(500), 10, 100, 100);
    assert_eq!(r, Err(ChildCreateErr::TooClose));
    let r2 = validate_child(1000, SphereOfInfluence::Finite(500), 10, 100, 150);
    assert_eq!(r2, Err(ChildCreateErr::TooClose));
}

#[test]
fn valid_child_is_accepted() {
    let r = validate_child(1000, SphereOfInfluence::Finite(500), 10, 100, 99);
    assert_eq!(r, Ok(()));
    let r2 = validate_child(1000, SphereOfInfluence::Infinite, 999, 100, 99);
    assert_eq!(r2, Ok(()));
}

#[test]
fn validation_order_soi_first_then_mass() {
    // with several bounds broken at once, the sphere bound is reported first,
    // then the mass bound, then the contact bound
    let r = validate_child(10, SphereOfInfluence::Finite(5), 10, 100, 200);
    assert_eq!(r, Err(ChildCreateErr::OutOfSoI));
    let r2 = validate_child(10, SphereOfInfluence::Finite(500), 10, 100, 200);
    assert_eq!(r2, Err(ChildCreateErr::TooMassive));
}

#[test]
fn removed_id_leaves_no_trace_in_relation_lists() {
    let list = vec![4usize, 9, 4, 2, 4];
    assert_eq!(remove_relation(&list, 4), vec![9, 2]);
    assert_eq!(remove_relation(&list, 7), vec![4, 9, 4, 2, 4]);
    assert_eq!(remove_relation(&Vec::new(), 1), Vec::<usize>::new());
}

#[test]
fn sphere_of_influence_comparisons() {
    let inf = SphereOfInfluence::Infinite;
    let fin = SphereOfInfluence::Finite(10);
    assert!(inf.exceeds_distance(u64::MAX));
    assert!(inf.reaches_distance(u64::MAX));
    assert!(fin.exceeds_distance(9));
    assert!(!fin.exceeds_distance(10));
    assert!(fin.reaches_distance(10));
    assert!(!fin.reaches_distance(11));
}

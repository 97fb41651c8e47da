use decs::EcsError;
use decs::entity::EntityHandle;
use decs::store::DECS;

#[test]
fn age_scenario() {
    // Register one 1-byte numeric component, create three entities, attach
    // an age to each, read one back, mutate one in place, remove one, and
    // check the others are unaffected.
    let mut decs = DECS::new();
    let age = decs.register_component(1);

    let e0 = decs.create_entity();
    let e1 = decs.create_entity();
    let e2 = decs.create_entity();

    assert_eq!(decs.add_component(age, e0, &vec![24u8]), Ok(()));
    assert_eq!(decs.add_component(age, e1, &vec![12u8]), Ok(()));
    assert_eq!(decs.add_component(age, e2, &vec![43u8]), Ok(()));

    assert_eq!(decs.get_component(age, e0), Some(vec![24u8]));
    assert!(decs.has_component(e0, age));

    assert!(decs.set_component(age, e2, &vec![55u8]));
    assert_eq!(decs.get_component(age, e2), Some(vec![55u8]));

    assert_eq!(decs.remove_component(age, e0), Ok(()));
    assert_eq!(decs.get_component(age, e0), None);
    assert!(!decs.has_component(e0, age));
    assert_eq!(decs.get_component(age, e1), Some(vec![12u8]));
    assert_eq!(decs.get_component(age, e2), Some(vec![55u8]));
}

#[test]
fn add_then_get_and_has() {
    let mut decs = DECS::new();
    let key = decs.register_component(4);
    let e = decs.create_entity();
    assert_eq!(decs.add_component(key, e, &vec![1u8, 2, 3, 4]), Ok(()));
    assert_eq!(decs.get_component(key, e), Some(vec![1u8, 2, 3, 4]));
    assert!(decs.has_component(e, key));
}

#[test]
fn duplicate_add_rejected() {
    let mut decs = DECS::new();
    let key = decs.register_component(1);
    let e = decs.create_entity();
    assert_eq!(decs.add_component(key, e, &vec![7u8]), Ok(()));
    assert_eq!(
        decs.add_component(key, e, &vec![8u8]),
        Err(EcsError::DuplicateComponent)
    );
    // The first value is still in place.
    assert_eq!(decs.get_component(key, e), Some(vec![7u8]));
}

#[test]
fn unregistered_type_rejected() {
    let mut decs = DECS::new();
    let e = decs.create_entity();
    // No component kind was ever registered; key 0 is unknown.
    assert_eq!(
        decs.add_component(0, e, &vec![1u8]),
        Err(EcsError::NotRegistered)
    );
    assert_eq!(decs.remove_component(0, e), Err(EcsError::NotRegistered));
    assert_eq!(decs.get_component(0, e), None);
    assert!(!decs.set_component(0, e, &vec![1u8]));
}

#[test]
fn unknown_entity_rejected() {
    let mut decs = DECS::new();
    let key = decs.register_component(1);
    let ghost = EntityHandle(42);
    assert_eq!(
        decs.add_component(key, ghost, &vec![1u8]),
        Err(EcsError::UnknownEntity)
    );
    assert_eq!(decs.remove_component(key, ghost), Err(EcsError::UnknownEntity));
}

#[test]
fn remove_absent_is_noop() {
    let mut decs = DECS::new();
    let key = decs.register_component(1);
    let e = decs.create_entity();
    // Removal of a component the entity never had succeeds and changes nothing.
    assert_eq!(decs.remove_component(key, e), Ok(()));
    assert_eq!(decs.get_component(key, e), None);
}

#[test]
fn swap_removal_keeps_other_pairs() {
    // Removing the middle of three records must leave the other two
    // (entity, value) pairs intact, whatever their new positions.
    let mut decs = DECS::new();
    let key = decs.register_component(2);
    let e0 = decs.create_entity();
    let e1 = decs.create_entity();
    let e2 = decs.create_entity();
    assert_eq!(decs.add_component(key, e0, &vec![10u8, 0]), Ok(()));
    assert_eq!(decs.add_component(key, e1, &vec![11u8, 1]), Ok(()));
    assert_eq!(decs.add_component(key, e2, &vec![12u8, 2]), Ok(()));

    assert_eq!(decs.remove_component(key, e1), Ok(()));

    assert_eq!(decs.get_component(key, e1), None);
    assert!(!decs.has_component(e1, key));
    assert_eq!(decs.get_component(key, e0), Some(vec![10u8, 0]));
    assert_eq!(decs.get_component(key, e2), Some(vec![12u8, 2]));
}

#[test]
fn entity_handles_are_sequential() {
    let mut decs = DECS::new();
    let e0 = decs.create_entity();
    let e1 = decs.create_entity();
    let e2 = decs.create_entity();
    assert_eq!(e0, EntityHandle(0));
    assert_eq!(e1, EntityHandle(1));
    assert_eq!(e2, EntityHandle(2));
}

#[test]
fn two_component_kinds_are_independent() {
    let mut decs = DECS::new();
    let health = decs.register_component(1);
    let pos = decs.register_component(2);
    let e = decs.create_entity();
    assert_eq!(decs.add_component(health, e, &vec![100u8]), Ok(()));
    assert_eq!(decs.add_component(pos, e, &vec![3u8, 4]), Ok(()));

    assert_eq!(decs.remove_component(health, e), Ok(()));
    assert_eq!(decs.get_component(health, e), None);
    assert_eq!(decs.get_component(pos, e), Some(vec![3u8, 4]));
    assert!(decs.has_component(e, pos));
    assert!(!decs.has_component(e, health));
}

#[test]
fn set_absent_component_reports_false() {
    let mut decs = DECS::new();
    let key = decs.register_component(1);
    let e = decs.create_entity();
    assert!(!decs.set_component(key, e, &vec![9u8]));
    assert_eq!(decs.get_component(key, e), None);
}

#[test]
fn reset_discards_one_kind_only() {
    let mut decs = DECS::new();
    let age = decs.register_component(1);
    let pos = decs.register_component(2);
    let e0 = decs.create_entity();
    let e1 = decs.create_entity();
    assert_eq!(decs.add_component(age, e0, &vec![24u8]), Ok(()));
    assert_eq!(decs.add_component(age, e1, &vec![12u8]), Ok(()));
    assert_eq!(decs.add_component(pos, e0, &vec![3u8, 4]), Ok(()));

    assert_eq!(decs.reset_component(age), Ok(()));

    assert_eq!(decs.get_component(age, e0), None);
    assert_eq!(decs.get_component(age, e1), None);
    assert!(!decs.has_component(e0, age));
    assert_eq!(decs.get_component(pos, e0), Some(vec![3u8, 4]));
    // The kind stays registered: adding works again without re-registration.
    assert_eq!(decs.add_component(age, e0, &vec![30u8]), Ok(()));
    assert_eq!(decs.get_component(age, e0), Some(vec![30u8]));

    assert_eq!(decs.reset_component(9), Err(EcsError::NotRegistered));
}

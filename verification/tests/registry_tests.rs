use decs::EcsError;
use decs::blob::ComponentBlob;
use decs::entity::{EntityData, EntityHandle, EntityRegistry};

#[test]
fn registry_creates_sequential_handles() {
    let mut reg = EntityRegistry::new();
    assert_eq!(reg.create(), EntityHandle(0));
    assert_eq!(reg.create(), EntityHandle(1));
    assert_eq!(reg.create(), EntityHandle(2));
}

#[test]
fn registry_records_and_removes_keys() {
    let mut reg = EntityRegistry::new();
    let e = reg.create();
    assert!(!reg.has_component(e, 3));
    assert_eq!(reg.record_component_added(e, 3), Ok(()));
    assert!(reg.has_component(e, 3));
    assert_eq!(
        reg.record_component_added(e, 3),
        Err(EcsError::DuplicateComponent)
    );
    assert_eq!(reg.record_component_removed(e, 3), Ok(()));
    assert!(!reg.has_component(e, 3));
    // Removing an absent key again is a no-op.
    assert_eq!(reg.record_component_removed(e, 3), Ok(()));
}

#[test]
fn registry_rejects_unknown_handles() {
    let mut reg = EntityRegistry::new();
    let ghost = EntityHandle(9);
    assert_eq!(
        reg.record_component_added(ghost, 0),
        Err(EcsError::UnknownEntity)
    );
    assert_eq!(
        reg.record_component_removed(ghost, 0),
        Err(EcsError::UnknownEntity)
    );
    assert!(reg.lookup(ghost).is_err());
    let e = reg.create();
    let rec = reg.lookup(e).unwrap();
    assert_eq!(rec.handle, e);
    assert!(rec.components.is_empty());
}

#[test]
fn registry_removal_swaps_with_last_key() {
    let mut reg = EntityRegistry::new();
    let e = reg.create();
    assert_eq!(reg.record_component_added(e, 1), Ok(()));
    assert_eq!(reg.record_component_added(e, 2), Ok(()));
    assert_eq!(reg.record_component_added(e, 3), Ok(()));
    assert_eq!(reg.record_component_removed(e, 1), Ok(()));
    assert!(!reg.has_component(e, 1));
    assert!(reg.has_component(e, 2));
    assert!(reg.has_component(e, 3));
}

#[test]
fn entity_data_starts_empty() {
    let d = EntityData::new(EntityHandle(5));
    assert_eq!(d.handle, EntityHandle(5));
    assert!(d.components.is_empty());
}

#[test]
fn blob_push_find_and_swap_remove() {
    let mut blob = ComponentBlob::new(2);
    assert_eq!(blob.find(10), None);
    blob.push_record(10, &vec![1u8, 2]);
    blob.push_record(11, &vec![3u8, 4]);
    blob.push_record(12, &vec![5u8, 6]);

    let i10 = blob.find(10).unwrap();
    assert_eq!(blob.payload_copy(i10), vec![1u8, 2]);

    blob.write_payload(i10, &vec![9u8, 9]);
    assert_eq!(blob.payload_copy(blob.find(10).unwrap()), vec![9u8, 9]);

    // Swap-remove the first record: the last one takes its slot.
    blob.swap_remove_at(i10);
    assert_eq!(blob.find(10), None);
    assert_eq!(blob.payload_copy(blob.find(11).unwrap()), vec![3u8, 4]);
    assert_eq!(blob.payload_copy(blob.find(12).unwrap()), vec![5u8, 6]);
}

use decs::EcsError;
use decs::table::{LinearTable, PackedTable};

#[test]
fn packed_rows_do_not_corrupt_each_other() {
    // Register a wide variable-ish field and a 1-byte field, add two rows,
    // and check that writing one row's byte never touches the other row.
    let mut table = PackedTable::new();
    let name = table.register(24).unwrap();
    let age = table.register(1).unwrap();

    assert_eq!(table.add_row(), 0);
    assert_eq!(table.add_row(), 1);

    assert_eq!(table.set_component(age, 0, &vec![24u8]), Ok(()));
    assert_eq!(table.set_component(age, 1, &vec![99u8]), Ok(()));
    assert_eq!(table.get_component(age, 0), Ok(vec![24u8]));
    assert_eq!(table.get_component(age, 1), Ok(vec![99u8]));

    let mut name_bytes = vec![0u8; 24];
    name_bytes[0] = b'W';
    assert_eq!(table.set_component(name, 0, &name_bytes), Ok(()));
    // Writing the wide field of row 0 leaves both ages alone.
    assert_eq!(table.get_component(age, 0), Ok(vec![24u8]));
    assert_eq!(table.get_component(age, 1), Ok(vec![99u8]));
    assert_eq!(table.get_component(name, 0), Ok(name_bytes));
}

#[test]
fn packed_new_rows_are_zeroed() {
    let mut table = PackedTable::new();
    let f = table.register(3).unwrap();
    assert_eq!(table.add_row(), 0);
    assert_eq!(table.get_component(f, 0), Ok(vec![0u8, 0, 0]));
}

#[test]
fn packed_register_after_rows_is_rejected() {
    let mut table = PackedTable::new();
    table.register(1).unwrap();
    assert_eq!(table.add_row(), 0);
    assert_eq!(table.register(2), Err(EcsError::SchemaClosed));
}

#[test]
fn packed_bad_field_and_row_are_rejected() {
    let mut table = PackedTable::new();
    let f = table.register(2).unwrap();
    assert_eq!(table.add_row(), 0);
    assert_eq!(table.get_component(f + 1, 0), Err(EcsError::NotRegistered));
    assert_eq!(table.get_component(f, 1), Err(EcsError::RowOutOfRange));
    assert_eq!(
        table.set_component(f + 1, 0, &vec![0u8, 0]),
        Err(EcsError::NotRegistered)
    );
    assert_eq!(
        table.set_component(f, 7, &vec![0u8, 0]),
        Err(EcsError::RowOutOfRange)
    );
}

#[test]
fn linear_rows_grow_in_lock_step() {
    let mut table = LinearTable::new();
    let name = table.register(24).unwrap();
    let age = table.register(1).unwrap();

    assert_eq!(table.add_row(), 0);
    assert_eq!(table.add_row(), 1);

    assert_eq!(table.set_component(age, 0, &vec![24u8]), Ok(()));
    assert_eq!(table.set_component(age, 1, &vec![99u8]), Ok(()));
    assert_eq!(table.get_component(age, 0), Ok(vec![24u8]));
    assert_eq!(table.get_component(age, 1), Ok(vec![99u8]));

    let mut name_bytes = vec![0u8; 24];
    name_bytes[0] = b'W';
    assert_eq!(table.set_component(name, 0, &name_bytes), Ok(()));
    assert_eq!(table.get_component(age, 0), Ok(vec![24u8]));
    assert_eq!(table.get_component(age, 1), Ok(vec![99u8]));
    assert_eq!(table.get_component(name, 0), Ok(name_bytes));
}

#[test]
fn linear_new_rows_are_zeroed() {
    let mut table = LinearTable::new();
    let f = table.register(2).unwrap();
    assert_eq!(table.add_row(), 0);
    assert_eq!(table.get_component(f, 0), Ok(vec![0u8, 0]));
}

#[test]
fn linear_register_after_rows_is_rejected() {
    let mut table = LinearTable::new();
    table.register(1).unwrap();
    assert_eq!(table.add_row(), 0);
    assert_eq!(table.register(4), Err(EcsError::SchemaClosed));
}

#[test]
fn linear_bad_field_and_row_are_rejected() {
    let mut table = LinearTable::new();
    let f = table.register(2).unwrap();
    assert_eq!(table.add_row(), 0);
    assert_eq!(table.get_component(f + 1, 0), Err(EcsError::NotRegistered));
    assert_eq!(table.get_component(f, 1), Err(EcsError::RowOutOfRange));
}

use egui_data_table::DataTable;

#[test]
fn new_table_is_empty() {
    let table: DataTable<u32> = DataTable::new();
    assert!(table.is_empty());
    assert!(!table.is_dirty());
    assert!(!table.has_user_modification());
    let table: DataTable<u32> = DataTable::default();
    assert_eq!(table.len(), 0);
}

#[test]
fn take_and_replace_hand_out_the_rows() {
    let mut table = DataTable::from_rows(vec![1, 2, 3]);
    assert_eq!(table.replace(vec![4, 5]), vec![1, 2, 3]);
    assert_eq!(*table, vec![4, 5]);
    assert_eq!(table.take(), vec![4, 5]);
    assert!(table.is_empty());
    table.extend_rows(vec![6]);
    table.rows_mut().push(7);
    assert_eq!(*table, vec![6, 7]);
}

#[test]
fn retain_keeps_what_the_closure_keeps() {
    let mut table = DataTable::from_rows(vec![1, 2, 3, 4, 5, 6]);
    table.retain(|row| row % 2 == 0);
    assert_eq!(*table, vec![2, 4, 6]);
    let mut calls = 0;
    table.retain(|_| {
        calls += 1;
        true
    });
    assert_eq!(calls, 3);
    assert_eq!(*table, vec![2, 4, 6]);
}

#[test]
fn clone_copies_rows_and_flag() {
    let mut table = DataTable::from_rows(vec![1, 2]);
    table.clear_user_modification_flag();
    table.clear_dirty_flag();
    let copy = table.clone();
    assert_eq!(*copy, vec![1, 2]);
    assert!(!copy.has_user_modification());
    assert!(!copy.is_dirty());
}

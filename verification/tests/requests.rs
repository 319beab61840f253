use egui_data_table::cache::{row_to_filter, sort_key_column};
use egui_data_table::history::write_request;
use egui_data_table::index::{ColumnIdx, IsAscending, RowIdx, RowSlabIndex};
use egui_data_table::DataTable;

#[test]
fn sort_keys_are_asked_about_by_their_column() {
    let sort = vec![(ColumnIdx(4), IsAscending(true)), (ColumnIdx(1), IsAscending(false))];
    assert_eq!(sort_key_column(&sort, 0), 4);
    assert_eq!(sort_key_column(&sort, 1), 1);
}

#[test]
fn the_filter_is_asked_about_each_row_of_the_store() {
    let rows = [10u8, 20, 30];
    assert_eq!(row_to_filter(&rows, 0), &10);
    assert_eq!(row_to_filter(&rows, 2), &30);
}

#[test]
fn a_write_is_shown_with_the_row_as_it_is_and_the_row_to_write_from() {
    let table = DataTable::from_rows(vec![10u8, 20, 30]);
    let slab = vec![7u8, 8];
    let values = vec![
        (RowIdx(2), ColumnIdx(4), RowSlabIndex(0)),
        (RowIdx(0), ColumnIdx(1), RowSlabIndex(1)),
    ];
    assert_eq!(write_request(&table, &slab, &values, 0), (4, 2, &30, &7));
    assert_eq!(write_request(&table, &slab, &values, 1), (1, 0, &10, &8));
}

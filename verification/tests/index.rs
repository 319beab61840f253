use egui_data_table::index::{VisColumnPos, VisLinearIdx, VisRowPos, VisSelection};

#[test]
fn linear_index_and_back() {
    let idx = VisRowPos(3).linear_index(4, VisColumnPos(2));
    assert_eq!(idx, VisLinearIdx(14));
    assert_eq!(idx.row_col(4), (VisRowPos(3), VisColumnPos(2)));
}

#[test]
fn from_points_normalizes_corners() {
    // In a grid of 5 columns, cell 7 is (1, 2) and cell 11 is (2, 1).
    let sel = VisSelection::from_points(5, VisLinearIdx(7), VisLinearIdx(11));
    assert_eq!(sel, VisSelection(VisLinearIdx(6), VisLinearIdx(12)));
    let other = VisSelection::from_points(5, VisLinearIdx(11), VisLinearIdx(7));
    assert_eq!(other, sel);
}

#[test]
fn contains_tests_rows_and_columns() {
    let sel = VisSelection(VisLinearIdx(6), VisLinearIdx(12));
    assert!(sel.contains(5, VisRowPos(1), VisColumnPos(1)));
    assert!(sel.contains(5, VisRowPos(2), VisColumnPos(2)));
    assert!(!sel.contains(5, VisRowPos(1), VisColumnPos(3)));
    assert!(!sel.contains(5, VisRowPos(0), VisColumnPos(1)));
    assert!(!sel.contains(5, VisRowPos(3), VisColumnPos(1)));
    assert!(!sel.contains(5, VisRowPos(1), VisColumnPos(0)));
}

#[test]
fn contains_rect_wants_every_edge_inside() {
    let sel = VisSelection(VisLinearIdx(6), VisLinearIdx(12));
    assert!(sel.contains_rect(5, VisSelection(VisLinearIdx(6), VisLinearIdx(7))));
    assert!(sel.contains_rect(5, sel));
    assert!(!sel.contains_rect(5, VisSelection(VisLinearIdx(6), VisLinearIdx(13))));
    assert!(!sel.contains_rect(5, VisSelection(VisLinearIdx(1), VisLinearIdx(7))));
}

#[test]
fn union_spans_both() {
    let a = VisSelection(VisLinearIdx(6), VisLinearIdx(6));
    let b = VisSelection(VisLinearIdx(13), VisLinearIdx(13));
    assert_eq!(a.union(5, b), VisSelection(VisLinearIdx(6), VisLinearIdx(13)));
    let c = VisSelection(VisLinearIdx(4), VisLinearIdx(4));
    let d = VisSelection(VisLinearIdx(10), VisLinearIdx(10));
    assert_eq!(c.union(5, d), VisSelection(VisLinearIdx(0), VisLinearIdx(14)));
}

#[test]
fn is_point_compares_corners() {
    assert!(VisSelection(VisLinearIdx(3), VisLinearIdx(3)).is_point());
    assert!(!VisSelection(VisLinearIdx(3), VisLinearIdx(4)).is_point());
    assert_eq!(
        VisSelection::_from_row_col(4, VisRowPos(1), VisColumnPos(1)),
        VisSelection(VisLinearIdx(5), VisLinearIdx(5))
    );
}

use egui_data_table::clipboard::{codec_for_reading, codec_for_writing, dump_cells, record_decoded};
use egui_data_table::index::{ColumnIdx, RowSlabIndex, VisRowOffset};
use egui_data_table::state::Clipboard;
use egui_data_table::viewer::DecodeErrorBehavior;

fn cell(row: usize, col: usize, slab: usize) -> (VisRowOffset, ColumnIdx, RowSlabIndex) {
    (VisRowOffset(row), ColumnIdx(col), RowSlabIndex(slab))
}

#[test]
fn sort_orders_by_row_then_column() {
    let mut clipboard = Clipboard {
        slab: vec![0u8, 1],
        pastes: vec![cell(1, 0, 1), cell(0, 2, 0), cell(1, 1, 0), cell(0, 1, 1)],
    };
    clipboard.sort();
    assert_eq!(
        clipboard.pastes,
        vec![cell(0, 1, 1), cell(0, 2, 0), cell(1, 0, 1), cell(1, 1, 0)]
    );
    assert_eq!(clipboard.slab, vec![0, 1]);
}

#[test]
fn dump_writes_tabs_and_newlines_up_to_each_cell() {
    let pastes = vec![cell(0, 2, 0), cell(0, 4, 0), cell(2, 3, 0), cell(3, 2, 0)];
    let contents = vec!["a".to_owned(), "b".to_owned(), String::new(), "d\n".to_owned()];
    assert_eq!(dump_cells(&pastes, &contents), "a\t\tb\n\n\t \nd\\n");
    assert_eq!(dump_cells(&vec![], &vec![]), "");
}

#[test]
fn decode_outcomes() {
    let mut pastes = vec![cell(0, 0, 0), cell(1, 0, 1)];
    assert_eq!(record_decoded(&mut pastes, Ok(()), cell(1, 1, 1), 1), Some(true));
    assert_eq!(pastes.len(), 3);
    assert_eq!(
        record_decoded(&mut pastes, Err(DecodeErrorBehavior::SkipCell), cell(1, 2, 1), 1),
        Some(true)
    );
    assert_eq!(pastes.len(), 3);
    assert_eq!(
        record_decoded(&mut pastes, Err(DecodeErrorBehavior::Abort), cell(1, 2, 1), 1),
        None
    );
    assert_eq!(
        record_decoded(&mut pastes, Err(DecodeErrorBehavior::SkipRow), cell(1, 2, 1), 1),
        Some(false)
    );
    assert_eq!(pastes, vec![cell(0, 0, 0)]);
    assert_eq!(DecodeErrorBehavior::default(), DecodeErrorBehavior::Abort);
}

struct Digits;

impl egui_data_table::viewer::RowCodec<Vec<u8>> for Digits {
    type DeserializeError = ();

    fn create_empty_decoded_row(&mut self) -> Vec<u8> {
        vec![0; 3]
    }

    fn encode_column(&mut self, src_row: &Vec<u8>, column: usize, dst: &mut String) {
        dst.push_str(&src_row[column].to_string());
    }

    fn decode_column(
        &mut self,
        src_data: &str,
        column: usize,
        dst_row: &mut Vec<u8>,
    ) -> Result<(), DecodeErrorBehavior> {
        dst_row[column] = src_data.parse().map_err(|_| DecodeErrorBehavior::Abort)?;
        Ok(())
    }
}

#[test]
fn dump_with_writes_each_cell_with_the_codec() {
    let clipboard = Clipboard {
        slab: vec![vec![1u8, 2, 3], vec![4, 5, 6]],
        pastes: vec![cell(0, 1, 0), cell(0, 2, 0), cell(1, 2, 1)],
    };
    assert_eq!(clipboard.dump_with(&mut Digits), "2\t3\n\t6");
    let empty: Clipboard<Vec<u8>> = Clipboard { slab: vec![], pastes: vec![] };
    assert_eq!(empty.dump_with(&mut Digits), "");
}

#[test]
fn each_cell_is_written_from_its_slab_row_and_column() {
    let clipboard = Clipboard {
        slab: vec![vec![1u8, 2, 3], vec![4, 5, 6]],
        pastes: vec![cell(0, 1, 0), cell(0, 2, 0), cell(1, 2, 1)],
    };
    assert_eq!(clipboard.encode_request(0), (&vec![1u8, 2, 3], 1));
    assert_eq!(clipboard.encode_request(1), (&vec![1u8, 2, 3], 2));
    assert_eq!(clipboard.encode_request(2), (&vec![4u8, 5, 6], 2));
}

#[test]
fn dump_if_writes_only_with_a_codec() {
    let clipboard = Clipboard {
        slab: vec![vec![1u8, 2, 3], vec![4, 5, 6]],
        pastes: vec![cell(0, 1, 0), cell(0, 2, 0), cell(1, 2, 1)],
    };
    assert_eq!(clipboard.dump_if(Some(Digits)), Some("2\t3\n\t6".to_owned()));
    assert_eq!(clipboard.dump_if(None::<Digits>), None);
}

#[test]
fn codecs_are_asked_for_by_direction() {
    assert!(!codec_for_reading());
    assert!(codec_for_writing());
}

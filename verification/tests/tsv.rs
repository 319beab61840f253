use egui_data_table::tsv::{write_content, write_newline, write_tab, ParsedTsv};

#[test]
fn tsv_parsing() {
    const TSV_DATA: &str = "Hello\tWorld\nThis\tIs\tA\tTest";

    let parsed = ParsedTsv::parse(TSV_DATA);
    assert_eq!(parsed.num_columns_at(0), 2);
    assert_eq!(parsed.num_columns_at(1), 4);
    assert_eq!(parsed.num_columns_at(2), 0);

    assert_eq!(parsed.num_rows(), 2);

    assert_eq!(parsed.get_cell(0, 0), Some("Hello"));
    assert_eq!(parsed.get_cell(0, 1), Some("World"));
    assert_eq!(parsed.get_cell(1, 0), Some("This"));
    assert_eq!(parsed.get_cell(1, 1), Some("Is"));
    assert_eq!(parsed.get_cell(1, 2), Some("A"));
    assert_eq!(parsed.get_cell(1, 3), Some("Test"));
    assert!(parsed.get_cell(1, 4).is_none());

    assert_eq!(
        parsed.iter_index_data(),
        vec![
            (0, 0, "Hello"),
            (0, 1, "World"),
            (1, 0, "This"),
            (1, 1, "Is"),
            (1, 2, "A"),
            (1, 3, "Test"),
        ]
    );
}

#[test]
fn parse_two_rows_of_unequal_width() {
    let parsed = ParsedTsv::parse("a\tb\nc");
    assert_eq!(parsed.num_rows(), 2);
    assert_eq!(parsed.num_columns_at(0), 2);
    assert_eq!(parsed.get_cell(0, 0), Some("a"));
    assert_eq!(parsed.get_cell(0, 1), Some("b"));
    assert_eq!(parsed.num_columns_at(1), 1);
    assert_eq!(parsed.get_cell(1, 0), Some("c"));
    assert_eq!(parsed.calc_table_width(), 2);
}

#[test]
fn parse_empty_text_has_no_rows() {
    let parsed = ParsedTsv::parse("");
    assert_eq!(parsed.num_rows(), 0);
    assert_eq!(parsed.calc_table_width(), 0);
    assert_eq!(parsed.num_columns_at(0), 0);
    assert!(parsed.get_cell(0, 0).is_none());
    assert!(parsed.iter_rows().is_empty());
}

#[test]
fn parse_drops_carriage_returns() {
    let parsed = ParsedTsv::parse("a\r\nb\r\n");
    assert_eq!(parsed.num_rows(), 2);
    assert_eq!(parsed.get_cell(0, 0), Some("a"));
    assert_eq!(parsed.get_cell(1, 0), Some("b"));
}

#[test]
fn parse_unescapes_cells() {
    let parsed = ParsedTsv::parse("a\\tb\\nc\\rd\\\\e\\xf");
    assert_eq!(parsed.num_rows(), 1);
    assert_eq!(parsed.num_columns_at(0), 1);
    assert_eq!(parsed.get_cell(0, 0), Some("a\tb\nc\rd\\e\\xf"));
}

#[test]
fn parse_keeps_empty_cells_that_a_tab_closed() {
    let parsed = ParsedTsv::parse("\t\tx\t\ny");
    assert_eq!(parsed.num_rows(), 2);
    assert_eq!(parsed.num_columns_at(0), 3);
    assert_eq!(parsed.get_cell(0, 0), Some(""));
    assert_eq!(parsed.get_cell(0, 1), Some(""));
    assert_eq!(parsed.get_cell(0, 2), Some("x"));
    assert_eq!(parsed.get_cell(1, 0), Some("y"));
}

#[test]
fn parse_keeps_empty_rows_between_rows() {
    let parsed = ParsedTsv::parse("a\n\nb");
    assert_eq!(parsed.num_rows(), 3);
    assert_eq!(parsed.num_columns_at(0), 1);
    assert_eq!(parsed.num_columns_at(1), 0);
    assert_eq!(parsed.num_columns_at(2), 1);
    let rows = parsed.iter_rows();
    assert_eq!(rows.len(), 3);
    assert_eq!(rows[0], (0, vec![(0, "a")]));
    assert_eq!(rows[1], (1, vec![]));
    assert_eq!(rows[2], (2, vec![(0, "b")]));
}

#[test]
fn get_cell_stays_within_its_row() {
    let parsed = ParsedTsv::parse("a\tb\nc");
    assert_eq!(parsed.get_cell(0, 1), Some("b"));
    assert!(parsed.get_cell(0, 2).is_none());
    assert!(parsed.get_cell(0, 3).is_none());
    assert_eq!(parsed.get_cell(1, 0), Some("c"));
    assert!(parsed.get_cell(1, 1).is_none());
    assert!(parsed.get_cell(2, 0).is_none());
    assert!(parsed.get_cell(3, 0).is_none());
    assert!(parsed.get_cell(0, usize::MAX).is_none());
}

#[test]
fn write_content_escapes_control_characters() {
    let mut buf = String::from("x");
    write_content(&mut buf, "a\tb\nc\rd\\e");
    assert_eq!(buf, "xa\\tb\\nc\\rd\\\\e");
}

#[test]
fn write_content_writes_a_space_for_an_empty_cell() {
    let mut buf = String::new();
    write_content(&mut buf, "");
    assert_eq!(buf, " ");
}

#[test]
fn write_tab_and_newline_append_one_character() {
    let mut buf = String::from("a");
    write_tab(&mut buf);
    assert_eq!(buf, "a\t");
    write_newline(&mut buf);
    assert_eq!(buf, "a\t\n");
}

#[test]
fn written_cells_read_back() {
    let cells = ["plain", "tab\there", "line\nbreak", "back\\slash", "cr\rhere", "\\t"];
    let mut buf = String::new();
    for (i, cell) in cells.iter().enumerate() {
        if i > 0 {
            write_tab(&mut buf);
        }
        write_content(&mut buf, cell);
    }
    let parsed = ParsedTsv::parse(&buf);
    assert_eq!(parsed.num_rows(), 1);
    assert_eq!(parsed.num_columns_at(0), cells.len());
    for (i, cell) in cells.iter().enumerate() {
        assert_eq!(parsed.get_cell(0, i), Some(*cell));
    }
}

/// Writes the rows of `parsed` with the writing functions.
fn written(parsed: &ParsedTsv) -> String {
    let mut buf = String::new();
    for (row, cells) in parsed.iter_rows() {
        if row > 0 {
            write_newline(&mut buf);
        }
        for (column, cell) in cells {
            if column > 0 {
                write_tab(&mut buf);
            }
            write_content(&mut buf, cell);
        }
    }
    buf
}

#[test]
fn read_text_is_written_as_it_was() {
    for text in ["a", "a\tb\nc", "one two\tthree\n\nfour\tfive\tsix", "x\n\n\ny"] {
        assert_eq!(written(&ParsedTsv::parse(text)), text);
    }
}

#[test]
fn read_text_is_written_with_a_space_in_empty_cells() {
    assert_eq!(written(&ParsedTsv::parse("\ta")), " \ta");
    assert_eq!(written(&ParsedTsv::parse("a\t\tb\n\tc")), "a\t \tb\n \tc");
}

#[test]
fn text_that_ends_a_row_with_a_tab_or_a_newline_loses_it() {
    assert_eq!(written(&ParsedTsv::parse("a\n")), "a");
    assert_eq!(written(&ParsedTsv::parse("a\t\nb")), "a\nb");
}

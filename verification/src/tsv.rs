//! Tab-separated text: how cells are written, and how pasted text is read back.
//!
//! A tab ends a cell and a newline ends a row. Inside a cell, tab, newline, carriage
//! return and backslash are written as a backslash followed by `t`, `n`, `r` or a
//! second backslash; an empty cell is written as one space.

use vstd::prelude::*;
use vstd::std_specs::iter::IteratorSpec;

verus! {

broadcast use vstd::string::group_string_axioms;

/// `String::push` of the standard library: the character is appended to the characters
/// that the string holds.
pub assume_specification[ String::push ](s: &mut String, c: char)
    ensures
        final(s)@ == old(s)@.push(c),
;

/* ----------------------------------------- Writing -------------------------------------------- */

/// What one character of a cell is written as.
pub open spec fn escaped_char(c: char) -> Seq<char> {
    if c == '\t' {
        seq!['\\', 't']
    } else if c == '\n' {
        seq!['\\', 'n']
    } else if c == '\r' {
        seq!['\\', 'r']
    } else if c == '\\' {
        seq!['\\', '\\']
    } else {
        seq![c]
    }
}

/// The characters of `s`, each written as `escaped_char` says.
pub open spec fn escaped(s: Seq<char>) -> Seq<char>
    decreases s.len(),
{
    if s.len() == 0 {
        Seq::empty()
    } else {
        escaped(s.drop_last()) + escaped_char(s.last())
    }
}

/// What a cell holding `item` is written as: one space if it is empty, else its
/// characters escaped.
pub open spec fn cell_text(item: Seq<char>) -> Seq<char> {
    if item.len() == 0 {
        seq![' ']
    } else {
        escaped(item)
    }
}

/// Ends a cell.
pub fn write_tab(buf: &mut String)
    ensures
        final(buf)@ == old(buf)@.push('\t'),
{
    buf.push('\t');
}

/// Ends a row.
pub fn write_newline(buf: &mut String)
    ensures
        final(buf)@ == old(buf)@.push('\n'),
{
    buf.push('\n');
}

/// Writes the content of one cell.
pub fn write_content(buf: &mut String, item: &str)
    ensures
        final(buf)@ == old(buf)@ + cell_text(item@),
{
    if item.is_empty() {
        buf.push(' ');
        assert(buf@ =~= old(buf)@ + cell_text(item@));
        return ;
    }
    let chars = item.chars();
    assert(chars.remaining() == item@);
    for ch in it: chars
        invariant
            it.seq() == item@,
            buf@ == old(buf)@ + escaped(item@.take(it.index() as int)),
    {
        let ghost before = buf@;
        let ghost done = item@.take(it.index() as int);
        let ghost next = item@.take(it.index() + 1);
        if ch == '\t' {
            buf.push('\\');
            buf.push('t');
        } else if ch == '\n' {
            buf.push('\\');
            buf.push('n');
        } else if ch == '\r' {
            buf.push('\\');
            buf.push('r');
        } else if ch == '\\' {
            buf.push('\\');
            buf.push('\\');
        } else {
            buf.push(ch);
        }
        proof {
            assert(next.drop_last() =~= done);
            assert(next.last() == ch);
            assert(buf@ =~= before + escaped_char(ch));
            assert(buf@ =~= old(buf)@ + escaped(next));
        }
    }
    assert(item@.take(item@.len() as int) =~= item@);
}

/* ----------------------------------------- Reading -------------------------------------------- */

/// The reader's state after some prefix of the text.
pub struct Scan {
    /// Cells that a tab, a newline or the end of the text has closed, unescaped.
    pub cells: Seq<Seq<char>>,
    /// For each row begun so far, the number of cells closed before it.
    pub row_starts: Seq<int>,
    /// The unescaped characters of the cell that is still open.
    pub open_cell: Seq<char>,
    /// The last character was a backslash that begins an escape.
    pub escaping: bool,
}

impl Scan {
    /// Before the first character: no cell, and the first row begun.
    pub open spec fn start() -> Scan {
        Scan { cells: Seq::empty(), row_starts: seq![0int], open_cell: Seq::empty(), escaping: false }
    }

    /// The open cell is closed and an empty one opened.
    pub open spec fn close_cell(self) -> Scan {
        Scan { cells: self.cells.push(self.open_cell), open_cell: Seq::empty(), ..self }
    }

    /// The open cell is closed unless it is empty.
    pub open spec fn close_cell_if_any(self) -> Scan {
        if self.open_cell.len() > 0 {
            self.close_cell()
        } else {
            self
        }
    }

    /// A new row begins after the cells closed so far.
    pub open spec fn begin_row(self) -> Scan {
        Scan { row_starts: self.row_starts.push(self.cells.len() as int), ..self }
    }

    /// `c` joins the open cell.
    pub open spec fn put(self, c: char) -> Scan {
        Scan { open_cell: self.open_cell.push(c), escaping: false, ..self }
    }

    /// The state after reading one more character.
    pub open spec fn step(self, c: char) -> Scan {
        if self.escaping {
            if c == 't' {
                self.put('\t')
            } else if c == 'n' {
                self.put('\n')
            } else if c == 'r' {
                self.put('\r')
            } else if c == '\\' {
                self.put('\\')
            } else {
                self.put('\\').put(c)
            }
        } else if c == '\t' {
            self.close_cell()
        } else if c == '\n' {
            self.close_cell_if_any().begin_row()
        } else if c == '\r' {
            self
        } else if c == '\\' {
            Scan { escaping: true, ..self }
        } else {
            self.put(c)
        }
    }

    /// The state at the end of the text: what is left of an open cell is closed, and
    /// the last row ends if it holds a cell.
    pub open spec fn finish(self) -> Scan {
        let closed = self.close_cell_if_any();
        if closed.row_starts.last() != closed.cells.len() {
            closed.begin_row()
        } else {
            closed
        }
    }

    /// The state after reading all of `text`, before the end is handled.
    pub open spec fn after(text: Seq<char>) -> Scan
        decreases text.len(),
    {
        if text.len() == 0 {
            Scan::start()
        } else {
            Scan::after(text.drop_last()).step(text.last())
        }
    }

    /// Row starts begin at zero, never decrease and never pass the number of cells.
    pub open spec fn well_formed(self) -> bool {
        &&& self.row_starts.len() > 0
        &&& self.row_starts[0] == 0
        &&& forall|i: int, j: int|
            0 <= i <= j < self.row_starts.len() ==> self.row_starts[i] <= self.row_starts[j]
        &&& self.row_starts.last() <= self.cells.len()
    }

    /// Every step keeps the state well formed.
    pub proof fn lemma_step_well_formed(self, c: char)
        requires
            self.well_formed(),
        ensures
            self.step(c).well_formed(),
    {
    }

    /// The state after any text is well formed.
    pub proof fn lemma_after_well_formed(text: Seq<char>)
        ensures
            Scan::after(text).well_formed(),
        decreases text.len(),
    {
        if text.len() > 0 {
            Scan::lemma_after_well_formed(text.drop_last());
            Scan::after(text.drop_last()).lemma_step_well_formed(text.last());
        }
    }
}

/// The rows that a list of cells and the row starts into it describe.
pub open spec fn table_of(cells: Seq<Seq<char>>, row_starts: Seq<int>) -> Seq<Seq<Seq<char>>> {
    Seq::new(
        (row_starts.len() - 1) as nat,
        |i: int| cells.subrange(row_starts[i], row_starts[i + 1]),
    )
}

/// The table that `text` reads as: its rows, each a list of unescaped cells.
pub open spec fn parsed_table(text: Seq<char>) -> Seq<Seq<Seq<char>>> {
    let end = Scan::after(text).finish();
    table_of(end.cells, end.row_starts)
}

/// Tab-separated text read into rows of cells.
pub struct ParsedTsv {
    /// Every cell of the text, unescaped, row after row. A cell that a tab closed is
    /// kept even if it is empty.
    cells: Vec<String>,
    /// For each row the index of its first cell in `cells`, and one last entry, the
    /// number of cells.
    row_offsets: Vec<usize>,
}

impl View for ParsedTsv {
    type V = Seq<Seq<Seq<char>>>;

    /// The rows, each a list of cells.
    open spec fn view(&self) -> Seq<Seq<Seq<char>>> {
        table_of(self.cells(), self.row_starts())
    }
}

impl ParsedTsv {
    /// All cells, row after row.
    pub closed spec fn cells(&self) -> Seq<Seq<char>> {
        Seq::new(self.cells@.len(), |i: int| self.cells@[i]@)
    }

    /// Index of the first cell of each row, followed by the number of cells.
    pub closed spec fn row_starts(&self) -> Seq<int> {
        Seq::new(self.row_offsets@.len(), |i: int| self.row_offsets@[i] as int)
    }

    #[verifier::type_invariant]
    spec fn layout_holds(&self) -> bool {
        &&& self.row_offsets@.len() > 0
        &&& self.row_offsets@[0] == 0
        &&& forall|i: int, j: int|
            0 <= i <= j < self.row_offsets@.len() ==> self.row_offsets@[i] <= self.row_offsets@[j]
        &&& self.row_offsets@[self.row_offsets@.len() - 1] == self.cells@.len()
    }

    /// Number of cells in row `row`; zero for a row that the text does not have.
    pub open spec fn width_at(&self, row: int) -> int {
        if 0 <= row < self@.len() {
            self@[row].len() as int
        } else {
            0
        }
    }

    /// The view has one row less than there are row starts, and row `r` holds the
    /// cells from its start up to the next one.
    proof fn lemma_row(&self, r: int)
        requires
            self.layout_holds(),
            0 <= r < self.row_offsets@.len() - 1,
        ensures
            self@.len() == self.row_offsets@.len() - 1,
            self.cells().len() == self.cells@.len(),
            self.row_offsets@[r] <= self.row_offsets@[r + 1] <= self.cells@.len(),
            self@[r].len() == self.row_offsets@[r + 1] - self.row_offsets@[r],
            forall|c: int|
                0 <= c < self@[r].len() ==> #[trigger] self@[r][c] == self.cells@[self.row_offsets@[r]
                    + c]@,
    {
        assert(self.row_offsets@[r] <= self.row_offsets@[r + 1]);
        assert(self.row_offsets@[r + 1] <= self.row_offsets@[self.row_offsets@.len() - 1]);
    }

    /// Reads tab-separated text.
    pub fn parse(data: &str) -> (parsed: ParsedTsv)
        ensures
            parsed.cells() == Scan::after(data@).finish().cells,
            parsed.row_starts() == Scan::after(data@).finish().row_starts,
            parsed@ == parsed_table(data@),
    {
        let mut cells: Vec<String> = Vec::new();
        let mut row_offsets: Vec<usize> = Vec::new();
        let mut cell = String::new();
        let mut escaping = false;

        // The first row begins before any cell.
        row_offsets.push(0);

        let chars = data.chars();
        assert(chars.remaining() == data@);
        for ch in it: chars
            invariant
                it.seq() == data@,
                Scan::after(data@.take(it.index() as int)).cells =~= Seq::new(
                    cells@.len(),
                    |i: int| cells@[i]@,
                ),
                Scan::after(data@.take(it.index() as int)).row_starts =~= Seq::new(
                    row_offsets@.len(),
                    |i: int| row_offsets@[i] as int,
                ),
                Scan::after(data@.take(it.index() as int)).open_cell =~= cell@,
                Scan::after(data@.take(it.index() as int)).escaping == escaping,
        {
            let ghost seen = data@.take(it.index() as int);
            let ghost before = Scan::after(seen);
            proof {
                Scan::lemma_after_well_formed(seen);
                assert(data@.take(it.index() + 1).drop_last() =~= seen);
                assert(data@.take(it.index() + 1).last() == ch);
            }
            if escaping {
                if ch == 't' {
                    cell.push('\t');
                } else if ch == 'n' {
                    cell.push('\n');
                } else if ch == 'r' {
                    cell.push('\r');
                } else if ch == '\\' {
                    cell.push('\\');
                } else {
                    // An unknown escape stays as it was written.
                    cell.push('\\');
                    cell.push(ch);
                }
                escaping = false;
            } else if ch == '\t' || ch == '\n' {
                if ch == '\t' || !cell.as_str().is_empty() {
                    // A tab always closes a cell; a newline only one that holds something.
                    cells.push(cell);
                    cell = String::new();
                }
                if ch == '\n' {
                    row_offsets.push(cells.len());
                }
            } else if ch == '\r' {
                // Carriage returns are dropped.
            } else if ch == '\\' {
                escaping = true;
            } else {
                cell.push(ch);
            }
            proof {
                let now = Scan {
                    cells: Seq::new(cells@.len(), |i: int| cells@[i]@),
                    row_starts: Seq::new(row_offsets@.len(), |i: int| row_offsets@[i] as int),
                    open_cell: cell@,
                    escaping,
                };
                assert(now.cells =~= before.step(ch).cells);
                assert(now.row_starts =~= before.step(ch).row_starts);
                assert(now.open_cell =~= before.step(ch).open_cell);
            }
        }

        proof {
            assert(data@.take(data@.len() as int) =~= data@);
            Scan::lemma_after_well_formed(data@);
        }
        let ghost last = Scan::after(data@);

        // What is left of an open cell is the last cell.
        if !cell.as_str().is_empty() {
            cells.push(cell);
        }
        if row_offsets[row_offsets.len() - 1] != cells.len() {
            row_offsets.push(cells.len());
        }

        proof {
            let end = Scan {
                cells: Seq::new(cells@.len(), |i: int| cells@[i]@),
                row_starts: Seq::new(row_offsets@.len(), |i: int| row_offsets@[i] as int),
                open_cell: Seq::empty(),
                escaping: last.escaping,
            };
            assert(end.cells =~= last.finish().cells);
            assert(end.row_starts =~= last.finish().row_starts);
            assert(last.finish().well_formed());
            assert forall|i: int, j: int| 0 <= i <= j < row_offsets@.len() implies row_offsets@[i]
                <= row_offsets@[j] by {
                assert(end.row_starts[i] <= end.row_starts[j]);
            }
            assert(end.row_starts[0] == 0);
        }
        let parsed = ParsedTsv { cells, row_offsets };
        proof {
            assert(parsed.cells() =~= last.finish().cells);
            assert(parsed.row_starts() =~= last.finish().row_starts);
        }
        parsed
    }

    /// Number of cells of the longest row.
    pub fn calc_table_width(&self) -> (width: usize)
        ensures
            forall|row: int| 0 <= row < self@.len() ==> self@[row].len() <= width,
            self@.len() == 0 ==> width == 0,
            self@.len() > 0 ==> exists|row: int| 0 <= row < self@.len() && self@[row].len() == width,
    {
        proof {
            use_type_invariant(self);
        }
        let rows = self.row_offsets.len() - 1;
        let mut width: usize = 0;
        let mut row: usize = 0;
        while row < rows
            invariant
                self.layout_holds(),
                rows == self@.len() == self.row_offsets@.len() - 1,
                row <= rows,
                forall|r: int| 0 <= r < row ==> self@[r].len() <= width,
                row == 0 ==> width == 0,
                row > 0 ==> exists|r: int| 0 <= r < row && self@[r].len() == width,
            decreases rows - row,
        {
            proof {
                self.lemma_row(row as int);
            }
            let here = self.row_offsets[row + 1] - self.row_offsets[row];
            if here > width {
                width = here;
            }
            row += 1;
        }
        width
    }

    /// Number of cells in row `row`; zero for a row that the text does not have.
    pub fn num_columns_at(&self, row: usize) -> (width: usize)
        ensures
            width == self.width_at(row as int),
    {
        proof {
            use_type_invariant(self);
        }
        if row >= self.row_offsets.len() - 1 {
            return 0;
        }
        proof {
            self.lemma_row(row as int);
        }
        let start = self.row_offsets[row];
        let end = self.row_offsets[row + 1];

        end - start
    }

    /// Number of rows.
    pub fn num_rows(&self) -> (n: usize)
        ensures
            n == self@.len(),
    {
        proof {
            use_type_invariant(self);
        }
        self.row_offsets.len() - 1
    }

    /// Cell `column` of row `row`, where the row has that many cells.
    pub fn get_cell(&self, row: usize, column: usize) -> (cell: Option<&str>)
        ensures
            cell is Some <==> row < self@.len() && column < self@[row as int].len(),
            cell is Some ==> cell->0@ == self@[row as int][column as int],
    {
        proof {
            use_type_invariant(self);
        }
        if row >= self.row_offsets.len() - 1 {
            return None;
        }
        proof {
            self.lemma_row(row as int);
        }
        let start = self.row_offsets[row];
        let end = self.row_offsets[row + 1];
        if column >= end - start {
            return None;
        }
        Some(self.cells[start + column].as_str())
    }

    /// Every row with its number, and in it every cell with its column.
    pub fn iter_rows(&self) -> (rows: Vec<(usize, Vec<(usize, &str)>)>)
        ensures
            rows@.len() == self@.len(),
            forall|r: int|
                0 <= r < rows@.len() ==> {
                    &&& (#[trigger] rows@[r]).0 == r
                    &&& rows@[r].1@.len() == self@[r].len()
                },
            forall|r: int, c: int|
                0 <= r < rows@.len() && 0 <= c < rows@[r].1@.len() ==> {
                    &&& (#[trigger] rows@[r].1@[c]).0 == c
                    &&& rows@[r].1@[c].1@ == self@[r][c]
                },
    {
        proof {
            use_type_invariant(self);
        }
        let count = self.row_offsets.len() - 1;
        let mut rows: Vec<(usize, Vec<(usize, &str)>)> = Vec::new();
        let mut row: usize = 0;
        while row < count
            invariant
                self.layout_holds(),
                count == self@.len() == self.row_offsets@.len() - 1,
                row <= count,
                rows@.len() == row,
                forall|r: int|
                    0 <= r < rows@.len() ==> {
                        &&& (#[trigger] rows@[r]).0 == r
                        &&& rows@[r].1@.len() == self@[r].len()
                    },
                forall|r: int, c: int|
                    0 <= r < rows@.len() && 0 <= c < rows@[r].1@.len() ==> {
                        &&& (#[trigger] rows@[r].1@[c]).0 == c
                        &&& rows@[r].1@[c].1@ == self@[r][c]
                    },
            decreases count - row,
        {
            proof {
                self.lemma_row(row as int);
            }
            let start = self.row_offsets[row];
            let end = self.row_offsets[row + 1];
            let mut cells: Vec<(usize, &str)> = Vec::new();
            let mut column: usize = 0;
            while column < end - start
                invariant
                    self.layout_holds(),
                    0 <= row < self.row_offsets@.len() - 1,
                    start == self.row_offsets@[row as int],
                    start <= end <= self.cells@.len(),
                    self@[row as int].len() == end - start,
                    column <= end - start,
                    cells@.len() == column,
                    forall|c: int|
                        0 <= c < cells@.len() ==> {
                            &&& (#[trigger] cells@[c]).0 == c
                            &&& cells@[c].1@ == self@[row as int][c]
                        },
                decreases end - start - column,
            {
                proof {
                    self.lemma_row(row as int);
                    assert(self@[row as int][column as int] == self.cells@[start + column]@);
                }
                cells.push((column, self.cells[start + column].as_str()));
                column += 1;
            }
            rows.push((row, cells));
            row += 1;
        }
        rows
    }

    /// Every cell with its row and its column, row after row.
    pub fn iter_index_data(&self) -> (list: Vec<(usize, usize, &str)>)
        ensures
            forall|i: int|
                0 <= i < list@.len() ==> {
                    let (row, column, text) = #[trigger] list@[i];
                    &&& row < self@.len()
                    &&& column < self@[row as int].len()
                    &&& text@ == self@[row as int][column as int]
                },
            forall|i: int, j: int|
                0 <= i < j < list@.len() ==> (#[trigger] list@[i]).0 < (#[trigger] list@[j]).0 || (
                list@[i].0 == list@[j].0 && list@[i].1 < list@[j].1),
            list@.len() == self.cells().len(),
    {
        let rows = self.iter_rows();
        let mut list: Vec<(usize, usize, &str)> = Vec::new();
        proof {
            use_type_invariant(self);
        }
        let mut r: usize = 0;
        while r < rows.len()
            invariant
                self.layout_holds(),
                r <= rows@.len(),
                rows@.len() == self@.len() == self.row_offsets@.len() - 1,
                self.cells().len() == self.cells@.len(),
                forall|i: int|
                    0 <= i < rows@.len() ==> {
                        &&& (#[trigger] rows@[i]).0 == i
                        &&& rows@[i].1@.len() == self@[i].len()
                    },
                forall|i: int, c: int|
                    0 <= i < rows@.len() && 0 <= c < rows@[i].1@.len() ==> {
                        &&& (#[trigger] rows@[i].1@[c]).0 == c
                        &&& rows@[i].1@[c].1@ == self@[i][c]
                    },
                list@.len() == self.row_offsets@[r as int],
                forall|i: int|
                    0 <= i < list@.len() ==> {
                        let (row, column, text) = #[trigger] list@[i];
                        &&& row < r
                        &&& column < self@[row as int].len()
                        &&& text@ == self@[row as int][column as int]
                    },
                forall|i: int, j: int|
                    0 <= i < j < list@.len() ==> (#[trigger] list@[i]).0 < (#[trigger] list@[j]).0
                        || (list@[i].0 == list@[j].0 && list@[i].1 < list@[j].1),
            decreases rows@.len() - r,
        {
            let mut c: usize = 0;
            proof {
                self.lemma_row(r as int);
            }
            while c < rows[r].1.len()
                invariant
                    r < rows@.len(),
                    rows@.len() == self@.len(),
                    c <= rows@[r as int].1@.len(),
                    rows@[r as int].0 == r,
                    rows@[r as int].1@.len() == self@[r as int].len(),
                    forall|k: int|
                        0 <= k < rows@[r as int].1@.len() ==> {
                            &&& (#[trigger] rows@[r as int].1@[k]).0 == k
                            &&& rows@[r as int].1@[k].1@ == self@[r as int][k]
                        },
                    list@.len() == self.row_offsets@[r as int] + c,
                    forall|i: int|
                        0 <= i < list@.len() ==> {
                            let (row, column, text) = #[trigger] list@[i];
                            &&& row <= r
                            &&& row == r ==> column < c
                            &&& column < self@[row as int].len()
                            &&& text@ == self@[row as int][column as int]
                        },
                    forall|i: int, j: int|
                        0 <= i < j < list@.len() ==> (#[trigger] list@[i]).0 < (
                        #[trigger] list@[j]).0 || (list@[i].0 == list@[j].0 && list@[i].1
                            < list@[j].1),
                decreases rows@[r as int].1@.len() - c,
            {
                let (column, text) = rows[r].1[c];
                assert(rows@[r as int].1@[c as int].0 == c);
                list.push((rows[r].0, column, text));
                c += 1;
            }
            r += 1;
        }
        list
    }
}

/* ------------------------------------- Reading what was written ------------------------------ */

/// What a row of cells is written as: the cells, with a tab between them.
pub open spec fn row_text(cells: Seq<Seq<char>>) -> Seq<char>
    decreases cells.len(),
{
    if cells.len() == 0 {
        Seq::empty()
    } else if cells.len() == 1 {
        cell_text(cells[0])
    } else {
        row_text(cells.drop_last()) + seq!['\t'] + cell_text(cells.last())
    }
}

/// What a table is written as: the rows, with a newline between them.
pub open spec fn table_text(rows: Seq<Seq<Seq<char>>>) -> Seq<char>
    decreases rows.len(),
{
    if rows.len() == 0 {
        Seq::empty()
    } else if rows.len() == 1 {
        row_text(rows[0])
    } else {
        table_text(rows.drop_last()) + seq!['\n'] + row_text(rows.last())
    }
}

/// Whether the character stands for itself in a cell.
pub open spec fn is_plain(c: char) -> bool {
    c != '\t' && c != '\n' && c != '\r' && c != '\\'
}

/// Whether the text holds no carriage return and no backslash, and no tab right
/// before a newline.
pub open spec fn tidy_inside(text: Seq<char>) -> bool {
    &&& forall|i: int| 0 <= i < text.len() ==> text[i] != '\r' && text[i] != '\\'
    &&& forall|i: int| 0 < i < text.len() && (#[trigger] text[i]) == '\n' ==> text[i - 1] != '\t'
}

/// Whether the text can be read and written again without loss: it holds no
/// carriage return and no backslash, no tab stands right before a newline, and it
/// does not end with a tab or a newline.
pub open spec fn tidy(text: Seq<char>) -> bool {
    &&& tidy_inside(text)
    &&& text.len() > 0 ==> is_plain(text.last())
}

/// The text with a space put into every empty cell that a tab ends.
pub open spec fn spaced(text: Seq<char>) -> Seq<char>
    decreases text.len(),
{
    if text.len() == 0 {
        Seq::empty()
    } else if text.last() == '\t' && Scan::after(text.drop_last()).open_cell.len() == 0 {
        spaced(text.drop_last()).push(' ').push('\t')
    } else {
        spaced(text.drop_last()).push(text.last())
    }
}

/// The cells, each followed by a tab.
pub open spec fn tabbed(cells: Seq<Seq<char>>) -> Seq<char>
    decreases cells.len(),
{
    if cells.len() == 0 {
        Seq::empty()
    } else {
        tabbed(cells.drop_last()) + cell_text(cells.last()) + seq!['\t']
    }
}

/// The rows, each followed by a newline.
pub open spec fn terminated(rows: Seq<Seq<Seq<char>>>) -> Seq<char>
    decreases rows.len(),
{
    if rows.len() == 0 {
        Seq::empty()
    } else {
        terminated(rows.drop_last()) + row_text(rows.last()) + seq!['\n']
    }
}

impl Scan {
    /// The rows that a newline has ended.
    pub open spec fn done_rows(self) -> Seq<Seq<Seq<char>>> {
        table_of(self.cells, self.row_starts)
    }

    /// The closed cells of the row that is being read.
    pub open spec fn row_cells(self) -> Seq<Seq<char>> {
        self.cells.subrange(self.row_starts.last(), self.cells.len() as int)
    }
}

/// A row with one more cell is written as its cells, a tab after each, and then the
/// new cell.
pub proof fn lemma_row_text_push(cells: Seq<Seq<char>>, cell: Seq<char>)
    ensures
        row_text(cells.push(cell)) == tabbed(cells) + cell_text(cell),
    decreases cells.len(),
{
    let all = cells.push(cell);
    assert(all.drop_last() =~= cells);
    if cells.len() == 0 {
        assert(row_text(all) =~= tabbed(cells) + cell_text(cell));
    } else {
        lemma_row_text_push(cells.drop_last(), cells.last());
        assert(cells.drop_last().push(cells.last()) =~= cells);
        assert(row_text(all) =~= tabbed(cells) + cell_text(cell));
    }
}

/// A table with one more row is written as its rows, a newline after each, and then
/// the new row.
pub proof fn lemma_table_text_push(rows: Seq<Seq<Seq<char>>>, row: Seq<Seq<char>>)
    ensures
        table_text(rows.push(row)) == terminated(rows) + row_text(row),
    decreases rows.len(),
{
    let all = rows.push(row);
    assert(all.drop_last() =~= rows);
    if rows.len() == 0 {
        assert(table_text(all) =~= terminated(rows) + row_text(row));
    } else {
        lemma_table_text_push(rows.drop_last(), rows.last());
        assert(rows.drop_last().push(rows.last()) =~= rows);
        assert(table_text(all) =~= terminated(rows) + row_text(row));
    }
}

/// Plain characters are written as they are.
pub proof fn lemma_escaped_plain(s: Seq<char>)
    requires
        forall|i: int| 0 <= i < s.len() ==> is_plain(#[trigger] s[i]),
    ensures
        escaped(s) == s,
    decreases s.len(),
{
    if s.len() > 0 {
        lemma_escaped_plain(s.drop_last());
        assert(escaped(s) =~= s);
    } else {
        assert(escaped(s) =~= s);
    }
}

/// Closed cells that lie behind the last row start do not show in the rows that are
/// done.
pub proof fn lemma_table_of_more_cells(cells: Seq<Seq<char>>, row_starts: Seq<int>, cell: Seq<char>)
    requires
        row_starts.len() > 0,
        forall|i: int| 0 <= i < row_starts.len() ==> 0 <= #[trigger] row_starts[i] <= cells.len(),
        forall|i: int, j: int| 0 <= i <= j < row_starts.len() ==> row_starts[i] <= row_starts[j],
    ensures
        table_of(cells.push(cell), row_starts) == table_of(cells, row_starts),
{
    let one = table_of(cells.push(cell), row_starts);
    let other = table_of(cells, row_starts);
    assert forall|i: int| 0 <= i < one.len() implies one[i] == other[i] by {
        assert(row_starts[i] <= row_starts[i + 1]);
        assert(one[i] =~= other[i]);
    }
    assert(one =~= other);
}

/// A new row start ends the row that was being read.
pub proof fn lemma_table_of_new_row(cells: Seq<Seq<char>>, row_starts: Seq<int>)
    requires
        row_starts.len() > 0,
    ensures
        table_of(cells, row_starts.push(cells.len() as int)) == table_of(cells, row_starts).push(
            cells.subrange(row_starts.last(), cells.len() as int),
        ),
{
    let more = row_starts.push(cells.len() as int);
    let one = table_of(cells, more);
    let other = table_of(cells, row_starts).push(
        cells.subrange(row_starts.last(), cells.len() as int),
    );
    assert forall|i: int| 0 <= i < one.len() implies one[i] == other[i] by {
        if i < row_starts.len() - 1 {
            assert(more[i] == row_starts[i] && more[i + 1] == row_starts[i + 1]);
        } else {
            assert(more[i] == row_starts.last());
        }
    }
    assert(one =~= other);
}

/// Whether the reader's state is what tidy text `text` leaves: no escape is open,
/// the open cell holds characters that stand for themselves, and the text is,
/// spaced, the rows that are done, the closed cells of the row that is being read,
/// and the open cell.
pub open spec fn reads_as(st: Scan, text: Seq<char>) -> bool {
    &&& st.well_formed()
    &&& !st.escaping
    &&& forall|i: int| 0 <= i < st.open_cell.len() ==> is_plain(#[trigger] st.open_cell[i])
    &&& st.open_cell.len() == 0 && st.row_cells().len() > 0 ==> text.len() > 0 && text.last() == '\t'
    &&& st.open_cell.len() > 0 ==> text.len() > 0 && is_plain(text.last())
    &&& spaced(text) == terminated(st.done_rows()) + tabbed(st.row_cells()) + st.open_cell
}

/// A tab keeps the reader's state what the text leaves.
pub proof fn lemma_reads_tab(was: Scan, head: Seq<char>)
    requires
        reads_as(was, head),
        was == Scan::after(head),
    ensures
        reads_as(was.close_cell(), head.push('\t')),
{
    let st = was.close_cell();
    let text = head.push('\t');
    assert(text.drop_last() =~= head);
    lemma_table_of_more_cells(was.cells, was.row_starts, was.open_cell);
    assert(st.row_cells() =~= was.row_cells().push(was.open_cell));
    assert(st.row_cells().drop_last() =~= was.row_cells());
    if was.open_cell.len() > 0 {
        lemma_escaped_plain(was.open_cell);
    }
    assert(tabbed(st.row_cells()) == tabbed(was.row_cells()) + cell_text(was.open_cell) + seq!['\t']);
    assert(spaced(text) =~= terminated(st.done_rows()) + tabbed(st.row_cells()) + st.open_cell);
}

/// A newline that no tab stands before keeps the reader's state what the text
/// leaves.
pub proof fn lemma_reads_newline(was: Scan, head: Seq<char>)
    requires
        reads_as(was, head),
        was == Scan::after(head),
        head.len() > 0 ==> head.last() != '\t',
    ensures
        reads_as(was.close_cell_if_any().begin_row(), head.push('\n')),
{
    let closed = was.close_cell_if_any();
    let st = closed.begin_row();
    let text = head.push('\n');
    assert(text.drop_last() =~= head);
    let row = was.row_cells();
    if was.open_cell.len() > 0 {
        lemma_escaped_plain(was.open_cell);
        lemma_row_text_push(row, was.open_cell);
        lemma_table_of_more_cells(was.cells, was.row_starts, was.open_cell);
        assert(closed.row_cells() =~= row.push(was.open_cell));
    } else {
        assert(row.len() == 0);
        assert(closed.row_cells() =~= row);
        assert(row_text(row) =~= Seq::<char>::empty());
        assert(tabbed(row) =~= Seq::<char>::empty());
    }
    lemma_table_of_new_row(closed.cells, closed.row_starts);
    assert(st.done_rows() == closed.done_rows().push(closed.row_cells()));
    assert(st.done_rows().drop_last() =~= was.done_rows());
    assert(st.row_cells() =~= Seq::<Seq<char>>::empty());
    assert(tabbed(st.row_cells()) =~= Seq::<char>::empty());
    assert(terminated(st.done_rows()) == terminated(was.done_rows()) + row_text(closed.row_cells())
        + seq!['\n']);
    assert(spaced(text) =~= terminated(st.done_rows()) + tabbed(st.row_cells()) + st.open_cell);
}

/// A character that stands for itself keeps the reader's state what the text leaves.
pub proof fn lemma_reads_plain(was: Scan, head: Seq<char>, c: char)
    requires
        reads_as(was, head),
        was == Scan::after(head),
        is_plain(c),
    ensures
        reads_as(was.put(c), head.push(c)),
{
    let st = was.put(c);
    let text = head.push(c);
    assert(text.drop_last() =~= head);
    assert(st.row_cells() =~= was.row_cells());
    assert(spaced(text) =~= terminated(st.done_rows()) + tabbed(st.row_cells()) + st.open_cell);
}

/// While tidy text is read, the reader's state is what the text leaves.
pub proof fn lemma_scan_spaced(text: Seq<char>)
    requires
        tidy_inside(text),
    ensures
        reads_as(Scan::after(text), text),
    decreases text.len(),
{
    let st = Scan::after(text);
    if text.len() == 0 {
        assert(st.done_rows() =~= Seq::<Seq<Seq<char>>>::empty());
        assert(st.row_cells() =~= Seq::<Seq<char>>::empty());
        assert(terminated(st.done_rows()) =~= Seq::<char>::empty());
        assert(tabbed(st.row_cells()) =~= Seq::<char>::empty());
        assert(spaced(text) =~= terminated(st.done_rows()) + tabbed(st.row_cells()) + st.open_cell);
    } else {
        let head = text.drop_last();
        let c = text.last();
        assert(tidy_inside(head)) by {
            assert forall|i: int| 0 <= i < head.len() implies head[i] != '\r' && head[i] != '\\' by {
                assert(head[i] == text[i]);
            }
            assert forall|i: int| 0 < i < head.len() && (#[trigger] head[i]) == '\n' implies head[i - 1]
                != '\t' by {
                assert(head[i] == text[i] && head[i - 1] == text[i - 1]);
            }
        }
        lemma_scan_spaced(head);
        let was = Scan::after(head);
        assert(c == text[text.len() - 1]);
        assert(c != '\r' && c != '\\');
        assert(head.push(c) =~= text);
        if c == '\t' {
            lemma_reads_tab(was, head);
        } else if c == '\n' {
            if head.len() > 0 {
                assert(head.last() == text[text.len() - 2]);
            }
            lemma_reads_newline(was, head);
        } else {
            lemma_reads_plain(was, head, c);
        }
    }
}

/// Text that is read and written again is the same text, but for a space in every
/// empty cell: this holds of all tidy text. Text without an empty cell, in which a
/// character that stands for itself comes before every tab, is the same text
/// exactly.
pub proof fn law_read_then_written(text: Seq<char>)
    requires
        tidy(text),
    ensures
        table_text(parsed_table(text)) == spaced(text),
        (forall|i: int| 0 <= i < text.len() && (#[trigger] text[i]) == '\t' ==> i > 0 && is_plain(text[i - 1]))
            ==> table_text(parsed_table(text)) == text,
{
    lemma_scan_spaced(text);
    let st = Scan::after(text);
    let end = st.finish();
    if text.len() == 0 {
        assert(parsed_table(text) =~= Seq::<Seq<Seq<char>>>::empty());
        assert(spaced(text) =~= Seq::<char>::empty());
    } else {
        assert(st.open_cell.len() > 0) by {
            if st.open_cell.len() == 0 {
                lemma_open_cell_after_plain(text);
            }
        }
        lemma_escaped_plain(st.open_cell);
        let closed = st.close_cell();
        assert(end == closed.begin_row());
        let last_row = st.row_cells().push(st.open_cell);
        lemma_table_of_more_cells(st.cells, st.row_starts, st.open_cell);
        lemma_table_of_new_row(closed.cells, closed.row_starts);
        assert(closed.row_cells() =~= last_row);
        assert(parsed_table(text) == st.done_rows().push(last_row));
        lemma_table_text_push(st.done_rows(), last_row);
        lemma_row_text_push(st.row_cells(), st.open_cell);
        assert(table_text(parsed_table(text)) =~= spaced(text));
    }
    if forall|i: int| 0 <= i < text.len() && (#[trigger] text[i]) == '\t' ==> i > 0 && is_plain(text[i - 1]) {
        lemma_spaced_same(text, text.len() as int);
        assert(text.take(text.len() as int) =~= text);
    }
}

/// After a character that stands for itself the open cell holds something.
pub proof fn lemma_open_cell_after_plain(text: Seq<char>)
    requires
        tidy_inside(text),
        text.len() > 0,
        is_plain(text.last()),
    ensures
        Scan::after(text).open_cell.len() > 0,
{
    let head = text.drop_last();
    assert(tidy_inside(head)) by {
        assert forall|i: int| 0 <= i < head.len() implies head[i] != '\r' && head[i] != '\\' by {
            assert(head[i] == text[i]);
        }
        assert forall|i: int| 0 < i < head.len() && (#[trigger] head[i]) == '\n' implies head[i - 1] != '\t' by {
            assert(head[i] == text[i] && head[i - 1] == text[i - 1]);
        }
    }
    lemma_scan_spaced(head);
    assert(Scan::after(text) == Scan::after(head).put(text.last()));
}

/// Where a character that stands for itself comes before every tab, no space is put
/// in.
pub proof fn lemma_spaced_same(text: Seq<char>, upto: int)
    requires
        tidy_inside(text),
        0 <= upto <= text.len(),
        forall|i: int| 0 <= i < text.len() && (#[trigger] text[i]) == '\t' ==> i > 0 && is_plain(text[i - 1]),
    ensures
        spaced(text.take(upto)) == text.take(upto),
    decreases upto,
{
    let part = text.take(upto);
    if upto > 0 {
        lemma_spaced_same(text, upto - 1);
        assert(part.drop_last() =~= text.take(upto - 1));
        assert(part.last() == text[upto - 1]);
        if part.last() == '\t' {
            let head = part.drop_last();
            assert(head.len() > 0 && head.last() == text[upto - 2]);
            assert(tidy_inside(head)) by {
                assert forall|i: int| 0 <= i < head.len() implies head[i] != '\r' && head[i]
                    != '\\' by {
                    assert(head[i] == text[i]);
                }
                assert forall|i: int| 0 < i < head.len() && (#[trigger] head[i]) == '\n' implies head[i - 1]
                    != '\t' by {
                    assert(head[i] == text[i] && head[i - 1] == text[i - 1]);
                }
            }
            lemma_open_cell_after_plain(head);
        }
        assert(spaced(part) =~= part);
    } else {
        assert(spaced(part) =~= part);
    }
}

} // verus!

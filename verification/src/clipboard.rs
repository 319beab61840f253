//! The clipboard: copied cells, the text they are shared as, and the cells that
//! shared text is read as.

use vstd::prelude::*;
use crate::grouping::{are_runs, chunk_by, joined, lemma_joined_prefix, lemma_run_boundaries};
use crate::index::{ColumnIdx, RowSlabIndex, VisColumnPos, VisLinearIdx, VisRowOffset};
use crate::state::{Clipboard, ClipboardModel, CursorModel, CursorState, PasteCell, UiModel, UiState};
use crate::tsv::{cell_text, write_content, write_newline, write_tab, ParsedTsv};
use crate::viewer::{DecodeErrorBehavior, RowCodec, RowViewer};

verus! {

/// Whether the first cell stands before the second or with it: in a higher row, or in
/// the same row and not further right.
pub open spec fn paste_before(a: PasteCell, b: PasteCell) -> bool {
    a.0.0 < b.0.0 || (a.0.0 == b.0.0 && a.1.0 <= b.1.0)
}

/// Whether the cells stand row after row, and from left to right in a row.
pub open spec fn pastes_sorted(pastes: Seq<PasteCell>) -> bool {
    forall|i: int, j: int| 0 <= i < j < pastes.len() ==> paste_before(pastes[i], pastes[j])
}

/// Whether the two cells lie in the same row and column.
pub open spec fn same_place(a: PasteCell, b: PasteCell) -> bool {
    a.0 == b.0 && a.1 == b.1
}

/// Whether `after` holds the cells of `before`, the cell at each place `i` being the
/// one that stood at `from[i]`.
pub open spec fn arranges(from: Seq<int>, before: Seq<PasteCell>, after: Seq<PasteCell>) -> bool {
    &&& from.len() == before.len()
    &&& after.len() == before.len()
    &&& from.no_duplicates()
    &&& forall|i: int|
        0 <= i < from.len() ==> 0 <= #[trigger] from[i] < before.len() && after[i] == before[from[i]]
}

/// Whether `after` is `before` put in order without cells of one row and column
/// changing places.
pub open spec fn stably_sorted(before: Seq<PasteCell>, after: Seq<PasteCell>) -> bool {
    &&& pastes_sorted(after)
    &&& exists|from: Seq<int>|
        {
            &&& #[trigger] arranges(from, before, after)
            &&& forall|a: int, b: int|
                0 <= a < b < after.len() && same_place(after[a], after[b]) ==> from[a] < from[b]
        }
}

impl<R> Clipboard<R> {
    /// Puts the cells in order, row after row and from left to right in a row. Cells
    /// of one row and column keep their order.
    pub fn sort(&mut self)
        ensures
            final(self)@.slab == old(self)@.slab,
            final(self)@.pastes.to_multiset() == old(self)@.pastes.to_multiset(),
            stably_sorted(old(self)@.pastes, final(self)@.pastes),
    {
        broadcast use vstd::multiset::group_multiset_axioms;

        let n = self.pastes.len();
        let ghost first = self.pastes@;
        let ghost mut from: Seq<int> = Seq::new(n as nat, |i: int| i);
        let mut t: usize = 0;
        while t < n
            invariant
                n == self.pastes@.len(),
                first == old(self).pastes@,
                t <= n,
                self.slab == old(self).slab,
                self.pastes@.to_multiset() == first.to_multiset(),
                arranges(from, first, self.pastes@),
                forall|i: int| t <= i < n ==> from[i] == i,
                forall|i: int| 0 <= i < t ==> from[i] < t,
                forall|i: int, j: int|
                    0 <= i < j < t ==> paste_before(self.pastes@[i], self.pastes@[j]) && (same_place(
                        self.pastes@[i],
                        self.pastes@[j],
                    ) ==> from[i] < from[j]),
            decreases n - t,
        {
            let mut j: usize = t;
            while j > 0 && !(self.pastes[j - 1].0.0 < self.pastes[j].0.0 || (self.pastes[j - 1].0.0
                == self.pastes[j].0.0 && self.pastes[j - 1].1.0 <= self.pastes[j].1.0))
                invariant
                    n == self.pastes@.len(),
                    j <= t < n,
                    self.slab == old(self).slab,
                    self.pastes@.to_multiset() == first.to_multiset(),
                    arranges(from, first, self.pastes@),
                    from[j as int] == t,
                    forall|i: int| t < i < n ==> from[i] == i,
                    forall|i: int| 0 <= i <= t && i != j ==> from[i] < t,
                    forall|a: int, b: int|
                        0 <= a < b <= t && a != j && b != j ==> paste_before(
                            self.pastes@[a],
                            self.pastes@[b],
                        ) && (same_place(self.pastes@[a], self.pastes@[b]) ==> from[a] < from[b]),
                    forall|b: int|
                        j < b <= t ==> paste_before(self.pastes@[j as int], self.pastes@[b])
                            && !same_place(self.pastes@[j as int], self.pastes@[b]),
                decreases j,
            {
                let ahead = self.pastes[j - 1];
                let behind = self.pastes[j];
                let ghost before = self.pastes@;
                let ghost was = from;
                self.pastes.set(j - 1, behind);
                self.pastes.set(j, ahead);
                proof {
                    from = from.update(j - 1, was[j as int]).update(j as int, was[j - 1]);
                    let mid = before.update(j - 1, behind);
                    vstd::seq_lib::to_multiset_update(before, j - 1, behind);
                    vstd::seq_lib::to_multiset_update(mid, j as int, ahead);
                    assert(mid[j as int] == behind);
                    assert(self.pastes@ == mid.update(j as int, ahead));
                    let held = before.to_multiset();
                    let holds = self.pastes@.to_multiset();
                    assert(holds == held.insert(behind).remove(ahead).insert(ahead).remove(behind));
                    before.to_multiset_ensures();
                    assert(before.contains(ahead)) by {
                        assert(before[j - 1] == ahead);
                    }
                    assert(before.contains(behind)) by {
                        assert(before[j as int] == behind);
                    }
                    assert forall|x: PasteCell| holds.count(x) == held.count(x) by {
                        let a = held.insert(behind);
                        let b = a.remove(ahead);
                        let c = b.insert(ahead);
                        assert(a.count(x) == held.count(x) + if x == behind { 1int } else { 0int });
                        assert(a.count(ahead) >= 1);
                        assert(b.count(x) == a.count(x) - if x == ahead { 1int } else { 0int });
                        assert(c.count(x) == b.count(x) + if x == ahead { 1int } else { 0int });
                        assert(c.count(behind) >= 1);
                        assert(c.remove(behind).count(x) == c.count(x) - if x == behind {
                            1int
                        } else {
                            0int
                        });
                    }
                    assert(holds =~= held);
                    assert(from.no_duplicates()) by {
                        assert forall|x: int, y: int|
                            0 <= x < from.len() && 0 <= y < from.len() && x != y implies from[x]
                            != from[y] by {
                            let x0 = if x == j - 1 {
                                j as int
                            } else if x == j {
                                j - 1
                            } else {
                                x
                            };
                            let y0 = if y == j - 1 {
                                j as int
                            } else if y == j {
                                j - 1
                            } else {
                                y
                            };
                            assert(from[x] == was[x0] && from[y] == was[y0]);
                        }
                    }
                }
                j -= 1;
            }
            proof {
                let now = self.pastes@;
                assert forall|a: int, b: int| 0 <= a < b < t + 1 implies paste_before(now[a], now[b])
                    && (same_place(now[a], now[b]) ==> from[a] < from[b]) by {
                    if b == j && a < j - 1 {
                        assert(paste_before(now[a], now[j - 1]));
                        assert(paste_before(now[j - 1], now[j as int]));
                    }
                }
            }
            t += 1;
        }
        proof {
            assert(arranges(from, first, self.pastes@));
        }
    }
}

/* ------------------------------------------ Writing ------------------------------------------- */

/// Where the writer of shared text stands: the text so far, the row and the column
/// that it has reached, and the row of the cell written last.
pub struct DumpCursor {
    pub text: Seq<char>,
    pub row: int,
    pub col: int,
    pub last_row: Option<VisRowOffset>,
}

/// `count` times the character `c`; nothing if `count` is not positive.
pub open spec fn repeated(c: char, count: int) -> Seq<char> {
    Seq::new(vstd::math::max(count, 0) as nat, |i: int| c)
}

/// The least column of the cells; the greatest number if there is no cell.
pub open spec fn min_column(pastes: Seq<PasteCell>) -> int
    decreases pastes.len(),
{
    if pastes.len() == 0 {
        usize::MAX as int
    } else {
        vstd::math::min(min_column(pastes.drop_last()), pastes.last().1.0 as int)
    }
}

impl DumpCursor {
    /// Before the first cell.
    pub open spec fn start() -> DumpCursor {
        DumpCursor { text: Seq::empty(), row: 0, col: 0, last_row: None }
    }

    /// The writer after one more cell, whose content is `content`. A cell of another
    /// row than the cell before it begins a new run: newlines lead down to its row,
    /// and the columns are counted from the first again. Tabs lead to the cell's
    /// column, counted from `column_offset`. Then the content is written.
    pub open spec fn step(self, cell: PasteCell, content: Seq<char>, column_offset: int) -> DumpCursor {
        let new_run = self.last_row != Some(cell.0);
        let row = if new_run {
            vstd::math::max(self.row, cell.0.0 as int)
        } else {
            self.row
        };
        let from = if new_run {
            0
        } else {
            self.col
        };
        let target = cell.1.0 - column_offset;
        DumpCursor {
            text: self.text + repeated('\n', row - self.row) + repeated('\t', target - from)
                + cell_text(content),
            row,
            col: vstd::math::max(from, target),
            last_row: Some(cell.0),
        }
    }

    /// The writer after all the cells.
    pub open spec fn after(pastes: Seq<PasteCell>, contents: Seq<Seq<char>>, column_offset: int) -> DumpCursor
        decreases pastes.len(),
    {
        if pastes.len() == 0 {
            DumpCursor::start()
        } else {
            DumpCursor::after(pastes.drop_last(), contents.drop_last(), column_offset).step(
                pastes.last(),
                contents.last(),
                column_offset,
            )
        }
    }
}

/// The text that the cells are shared as, `contents` being what each cell holds. The
/// columns are counted from the least column of the cells, so that what was copied
/// begins at the left.
pub open spec fn dumped(pastes: Seq<PasteCell>, contents: Seq<Seq<char>>) -> Seq<char> {
    DumpCursor::after(pastes, contents, min_column(pastes)).text
}

/// What the strings hold.
pub open spec fn texts(strings: Seq<String>) -> Seq<Seq<char>> {
    Seq::new(strings.len(), |i: int| strings[i]@)
}

/// The least column is a column of the cells, or the greatest number.
pub proof fn lemma_min_column(pastes: Seq<PasteCell>)
    ensures
        forall|i: int| 0 <= i < pastes.len() ==> min_column(pastes) <= (#[trigger] pastes[i]).1.0,
        0 <= min_column(pastes) <= usize::MAX,
    decreases pastes.len(),
{
    if pastes.len() > 0 {
        lemma_min_column(pastes.drop_last());
        assert forall|i: int| 0 <= i < pastes.len() implies min_column(pastes) <= (
        #[trigger] pastes[i]).1.0 by {
            if i < pastes.len() - 1 {
                assert(pastes.drop_last()[i] == pastes[i]);
            }
        }
    }
}

/// Writes the cells as shared text, `contents` being what each cell holds.
pub fn dump_cells(pastes: &Vec<PasteCell>, contents: &Vec<String>) -> (text: String)
    requires
        pastes@.len() == contents@.len(),
    ensures
        text@ == dumped(pastes@, texts(contents@)),
{
    // The columns are counted from the least one: what was copied further right does
    // not begin with empty cells.
    let mut min: usize = usize::MAX;
    let mut i: usize = 0;
    while i < pastes.len()
        invariant
            i <= pastes@.len(),
            min == min_column(pastes@.take(i as int)),
        decreases pastes@.len() - i,
    {
        proof {
            assert(pastes@.take(i + 1).drop_last() =~= pastes@.take(i as int));
            lemma_min_column(pastes@.take(i as int));
        }
        if pastes[i].1.0 < min {
            min = pastes[i].1.0;
        }
        i += 1;
    }
    proof {
        assert(pastes@.take(pastes@.len() as int) =~= pastes@);
        lemma_min_column(pastes@);
    }
    let column_offset = min;

    let mut keys: Vec<usize> = Vec::new();
    let mut i: usize = 0;
    while i < pastes.len()
        invariant
            i <= pastes@.len(),
            keys@.len() == i,
            forall|k: int| 0 <= k < i ==> keys@[k] == pastes@[k].0.0,
        decreases pastes@.len() - i,
    {
        keys.push(pastes[i].0.0);
        i += 1;
    }
    let groups = chunk_by(&keys);
    let ghost runs = groups.deep_view();
    assert(pastes@.len() == pastes.len());

    let mut buf_out = String::new();
    let mut row_cursor: usize = 0;
    let mut at: usize = 0;
    let mut g: usize = 0;
    let ghost all = texts(contents@);
    while g < groups.len()
        invariant
            g <= groups@.len(),
            runs == groups.deep_view(),
            runs.len() == groups@.len(),
            joined(runs) == keys@,
            are_runs(runs),
            keys@.len() == pastes@.len() == contents@.len(),
            forall|k: int| 0 <= k < keys@.len() ==> keys@[k] == pastes@[k].0.0,
            forall|i: int| 0 <= i < pastes@.len() ==> column_offset <= (#[trigger] pastes@[i]).1.0,
            all == texts(contents@),
            at == joined(runs.take(g as int)).len(),
            at <= pastes@.len() <= usize::MAX,
            ({
                let cursor = DumpCursor::after(
                    pastes@.take(at as int),
                    all.take(at as int),
                    column_offset as int,
                );
                &&& buf_out@ == cursor.text
                &&& row_cursor == cursor.row
                &&& cursor.last_row == if at == 0 {
                    None
                } else {
                    Some(pastes@[at - 1].0)
                }
            }),
        decreases groups@.len() - g,
    {
        let count = groups[g].len();
        proof {
            lemma_joined_prefix(runs, g as int);
            assert(runs[g as int] == groups@[g as int]@);
            assert(count > 0);
            lemma_run_boundaries(runs, g as int, 0);
        }
        let row = pastes[at].0;
        let ghost before = DumpCursor::after(
            pastes@.take(at as int),
            all.take(at as int),
            column_offset as int,
        );
        let ghost text_before = buf_out@;
        while row_cursor < row.0
            invariant
                row_cursor <= row.0 || row_cursor == before.row,
                before.row <= row_cursor,
                buf_out@ == text_before + repeated('\n', row_cursor - before.row),
            decreases row.0 - row_cursor,
        {
            write_newline(&mut buf_out);
            row_cursor += 1;
            assert(buf_out@ =~= text_before + repeated('\n', row_cursor - before.row));
        }
        proof {
            assert(text_before + repeated('\n', 0) =~= text_before);
        }
        let ghost lines = repeated('\n', vstd::math::max(before.row, row.0 as int) - before.row);
        assert(buf_out@ == text_before + lines);
        let mut column_cursor: usize = 0;
        let mut k: usize = 0;
        while k < count
            invariant
                k <= count,
                count == runs[g as int].len(),
                g < runs.len(),
                joined(runs) == keys@,
                are_runs(runs),
                keys@.len() == pastes@.len() == contents@.len(),
                forall|k: int| 0 <= k < keys@.len() ==> keys@[k] == pastes@[k].0.0,
                forall|i: int| 0 <= i < pastes@.len() ==> column_offset <= (#[trigger] pastes@[i]).1.0,
                all == texts(contents@),
                at == joined(runs.take(g as int)).len() + k,
                joined(runs.take(g as int)).len() + count <= pastes@.len() <= usize::MAX,
                row.0 == runs[g as int][0],
                lines == repeated('\n', vstd::math::max(before.row, row.0 as int) - before.row),
                ({
                    let cursor = DumpCursor::after(
                        pastes@.take(at as int),
                        all.take(at as int),
                        column_offset as int,
                    );
                    &&& k > 0 ==> buf_out@ == cursor.text && row_cursor == cursor.row
                        && column_cursor == cursor.col && cursor.last_row == Some(row)
                    &&& k == 0 ==> cursor == before && buf_out@ == before.text + lines
                        && row_cursor == vstd::math::max(before.row, row.0 as int) && column_cursor
                        == 0 && before.last_row != Some(row)
                }),
            decreases count - k,
        {
            proof {
                lemma_run_boundaries(runs, g as int, k as int);
                assert(pastes@.take(at + 1).drop_last() =~= pastes@.take(at as int));
                assert(all.take(at + 1).drop_last() =~= all.take(at as int));
                assert(pastes@[at as int].0 == row);
            }
            let cell = pastes[at];
            let ghost text_then = buf_out@;
            let ghost from = column_cursor;
            let target = cell.1.0 - column_offset;
            while column_cursor < target
                invariant
                    from <= column_cursor,
                    column_cursor <= target || column_cursor == from,
                    buf_out@ == text_then + repeated('\t', column_cursor - from),
                decreases target - column_cursor,
            {
                write_tab(&mut buf_out);
                column_cursor += 1;
                assert(buf_out@ =~= text_then + repeated('\t', column_cursor - from));
            }
            proof {
                assert(text_then + repeated('\t', 0) =~= text_then);
                assert(buf_out@ == text_then + repeated('\t', target - from));
            }
            write_content(&mut buf_out, contents[at].as_str());
            proof {
                assert(all.take(at + 1).last() == contents@[at as int]@);
                let cursor = DumpCursor::after(
                    pastes@.take(at as int),
                    all.take(at as int),
                    column_offset as int,
                );
                let next = cursor.step(cell, contents@[at as int]@, column_offset as int);
                assert(DumpCursor::after(
                    pastes@.take(at + 1),
                    all.take(at + 1),
                    column_offset as int,
                ) == next);
                let tabs = repeated('\t', target - from);
                let content = cell_text(contents@[at as int]@);
                assert(buf_out@ == text_then + tabs + content);
                if k == 0 {
                    assert(text_then == before.text + lines);
                    assert(cursor == before);
                    assert(before.last_row != Some(cell.0));
                    assert(from == 0);
                    assert(target == cell.1.0 - column_offset);
                    assert(next.text == before.text + repeated(
                        '\n',
                        vstd::math::max(before.row, cell.0.0 as int) - before.row,
                    ) + repeated('\t', (cell.1.0 - column_offset) - 0) + content);
                    assert(lines == repeated(
                        '\n',
                        vstd::math::max(before.row, cell.0.0 as int) - before.row,
                    ));
                    assert(tabs == repeated('\t', (cell.1.0 - column_offset) - 0));
                    assert(next.text == before.text + lines + tabs + content);
                } else {
                    assert(repeated('\n', 0) =~= Seq::<char>::empty());
                    assert(cursor.text + repeated('\n', 0) =~= cursor.text);
                    assert(next.text == cursor.text + repeated('\n', 0) + tabs + content);
                }
            }
            at += 1;
            k += 1;
        }
        g += 1;
    }
    proof {
        assert(runs.take(runs.len() as int) =~= runs);
        assert(pastes@.take(pastes@.len() as int) =~= pastes@);
        assert(all.take(all.len() as int) =~= all);
    }
    buf_out
}

impl<R> ClipboardModel<R> {
    /// Whether every cell takes its value from a row that the slab holds, and the
    /// cells stand row after row.
    pub open spec fn wf(self) -> bool {
        &&& forall|i: int|
            0 <= i < self.pastes.len() ==> (#[trigger] self.pastes[i]).2.0 < self.slab.len()
        &&& forall|i: int, j: int|
            0 <= i < j < self.pastes.len() ==> self.pastes[i].0.0 <= self.pastes[j].0.0
    }
}

/// Whether `pastes` can be what the rows of `table` are read as, the first column of
/// the text falling on the visible column `first_col`: every cell lies in a row of the
/// text, and in a visible column that a cell of that row falls on; the text's cells
/// that fall beyond the last visible column give nothing.
pub open spec fn reads_table(
    pastes: Seq<PasteCell>,
    table: Seq<Seq<Seq<char>>>,
    first_col: int,
    vis_cols: Seq<ColumnIdx>,
) -> bool {
    forall|i: int|
        0 <= i < pastes.len() ==> {
            let (row, column, _) = #[trigger] pastes[i];
            &&& row.0 < table.len()
            &&& exists|j: int|
                0 <= j < table[row.0 as int].len() && first_col + j < vis_cols.len() && column
                    == #[trigger] vis_cols[first_col + j]
        }
}

/// Whether the cells stand in the order of the text: row after row, each row with a
/// slab row of its own, and in a row in the order of the visible columns.
pub open spec fn reads_in_order(pastes: Seq<PasteCell>, vis_cols: Seq<ColumnIdx>) -> bool {
    forall|a: int, b: int|
        0 <= a < b < pastes.len() ==> {
            let one = #[trigger] pastes[a];
            let other = #[trigger] pastes[b];
            ||| one.0.0 < other.0.0 && one.2.0 < other.2.0
            ||| one.0 == other.0 && one.2 == other.2 && vis_cols.index_of(one.1) < vis_cols.index_of(
                other.1,
            )
        }
}

/// What a codec says of one cell of the text.
pub type Answer = Result<(), DecodeErrorBehavior>;

/// How far shared text has been read: the cells read so far, the number of rows
/// before this one that were kept, where the cells of this row begin, whether the
/// rest of this row is skipped, the number of cells that the codec was asked about,
/// and whether the codec gave the text up.
pub struct Reading {
    pub pastes: Seq<PasteCell>,
    pub kept_rows: int,
    pub row_began_at: int,
    pub skipped: bool,
    pub asked: int,
    pub given_up: bool,
}

impl Reading {
    /// Before the first cell of the first row.
    pub open spec fn start() -> Reading {
        Reading {
            pastes: Seq::empty(),
            kept_rows: 0,
            row_began_at: 0,
            skipped: false,
            asked: 0,
            given_up: false,
        }
    }

    /// Whether the codec is asked about the cell in column `column` of the text: the
    /// text was not given up, the row is not skipped, and the cell falls on one of
    /// the `ncol` visible columns, the first column of the text falling on
    /// `first_col`.
    pub open spec fn asks(self, column: int, first_col: int, ncol: int) -> bool {
        !self.given_up && !self.skipped && first_col + column < ncol
    }

    /// The reading after the codec has answered for `cell`. A cell that was read
    /// joins the cells; one that is to be skipped does not; a row that is to be
    /// skipped takes with it the cells that were read from it; `Abort` gives the
    /// text up.
    pub open spec fn took(self, cell: PasteCell, answer: Answer) -> Reading {
        match answer {
            Ok(_) => Reading { pastes: self.pastes.push(cell), asked: self.asked + 1, ..self },
            Err(DecodeErrorBehavior::SkipCell) => Reading { asked: self.asked + 1, ..self },
            Err(DecodeErrorBehavior::SkipRow) => Reading {
                pastes: self.pastes.take(self.row_began_at),
                skipped: true,
                asked: self.asked + 1,
                ..self
            },
            Err(DecodeErrorBehavior::Abort) => Reading {
                given_up: true,
                asked: self.asked + 1,
                ..self
            },
        }
    }

    /// The reading at the beginning of the next row. A row that was not skipped
    /// keeps its row of the slab.
    pub open spec fn next_row(self) -> Reading {
        Reading {
            kept_rows: if self.skipped {
                self.kept_rows
            } else {
                self.kept_rows + 1
            },
            row_began_at: self.pastes.len() as int,
            skipped: false,
            ..self
        }
    }

    /// The reading after the rows before row `r` and the first `c` cells of row `r`,
    /// where the first column of the text falls on the visible column `first_col`
    /// and the codec's answers are `answers`, one for each cell that it is asked
    /// about, in the order of the text.
    pub open spec fn after(
        table: Seq<Seq<Seq<char>>>,
        first_col: int,
        vis_cols: Seq<ColumnIdx>,
        answers: Seq<Answer>,
        r: int,
        c: int,
    ) -> Reading
        decreases r, c,
    {
        if c > 0 && r >= 0 {
            let before = Reading::after(table, first_col, vis_cols, answers, r, c - 1);
            if before.asks(c - 1, first_col, vis_cols.len() as int) {
                before.took(
                    (
                        VisRowOffset(r as usize),
                        vis_cols[first_col + c - 1],
                        RowSlabIndex(before.kept_rows as usize),
                    ),
                    answers[before.asked],
                )
            } else {
                before
            }
        } else if r > 0 && r <= table.len() {
            Reading::after(
                table,
                first_col,
                vis_cols,
                answers,
                r - 1,
                table[r - 1].len() as int,
            ).next_row()
        } else {
            Reading::start()
        }
    }

    /// The reading after the whole text.
    pub open spec fn of(
        table: Seq<Seq<Seq<char>>>,
        first_col: int,
        vis_cols: Seq<ColumnIdx>,
        answers: Seq<Answer>,
    ) -> Reading {
        Reading::after(table, first_col, vis_cols, answers, table.len() as int, 0)
    }

    /// Answers that come after those that were asked for change nothing.
    pub proof fn lemma_more_answers(
        table: Seq<Seq<Seq<char>>>,
        first_col: int,
        vis_cols: Seq<ColumnIdx>,
        answers: Seq<Answer>,
        answer: Answer,
        r: int,
        c: int,
    )
        requires
            Reading::after(table, first_col, vis_cols, answers, r, c).asked <= answers.len(),
        ensures
            Reading::after(table, first_col, vis_cols, answers.push(answer), r, c) == Reading::after(
                table,
                first_col,
                vis_cols,
                answers,
                r,
                c,
            ),
            0 <= Reading::after(table, first_col, vis_cols, answers, r, c).asked,
        decreases r, c,
    {
        if c > 0 && r >= 0 {
            Reading::lemma_asked_not_negative(table, first_col, vis_cols, answers, r, c - 1);
            Reading::lemma_more_answers(table, first_col, vis_cols, answers, answer, r, c - 1);
        } else if r > 0 && r <= table.len() {
            Reading::lemma_more_answers(
                table,
                first_col,
                vis_cols,
                answers,
                answer,
                r - 1,
                table[r - 1].len() as int,
            );
        }
    }

    /// The number of cells asked about is not negative.
    pub proof fn lemma_asked_not_negative(
        table: Seq<Seq<Seq<char>>>,
        first_col: int,
        vis_cols: Seq<ColumnIdx>,
        answers: Seq<Answer>,
        r: int,
        c: int,
    )
        ensures
            0 <= Reading::after(table, first_col, vis_cols, answers, r, c).asked,
        decreases r, c,
    {
        if c > 0 && r >= 0 {
            Reading::lemma_asked_not_negative(table, first_col, vis_cols, answers, r, c - 1);
        } else if r > 0 && r <= table.len() {
            Reading::lemma_asked_not_negative(
                table,
                first_col,
                vis_cols,
                answers,
                r - 1,
                table[r - 1].len() as int,
            );
        }
    }

    /// The text is given up where one of the answers that were asked for is `Abort`,
    /// and only there.
    pub proof fn lemma_given_up_is_abort(
        table: Seq<Seq<Seq<char>>>,
        first_col: int,
        vis_cols: Seq<ColumnIdx>,
        answers: Seq<Answer>,
        r: int,
        c: int,
    )
        requires
            Reading::after(table, first_col, vis_cols, answers, r, c).asked <= answers.len(),
        ensures
            ({
                let now = Reading::after(table, first_col, vis_cols, answers, r, c);
                0 <= now.asked && now.given_up == answers.take(now.asked).contains(
                    Err(DecodeErrorBehavior::Abort),
                )
            }),
        decreases r, c,
    {
        let abort: Answer = Err(DecodeErrorBehavior::Abort);
        if c > 0 && r >= 0 {
            let before = Reading::after(table, first_col, vis_cols, answers, r, c - 1);
            Reading::lemma_asked_not_negative(table, first_col, vis_cols, answers, r, c - 1);
            Reading::lemma_given_up_is_abort(table, first_col, vis_cols, answers, r, c - 1);
            if before.asks(c - 1, first_col, vis_cols.len() as int) {
                let seen = answers.take(before.asked);
                let more = answers.take(before.asked + 1);
                assert(more =~= seen.push(answers[before.asked]));
                if more.contains(abort) {
                    let k = choose|k: int| 0 <= k < more.len() && more[k] == abort;
                    if k < before.asked {
                        assert(seen[k] == abort);
                    }
                }
                if answers[before.asked] == abort {
                    assert(more[before.asked] == abort);
                }
            }
        } else if r > 0 && r <= table.len() {
            Reading::lemma_given_up_is_abort(
                table,
                first_col,
                vis_cols,
                answers,
                r - 1,
                table[r - 1].len() as int,
            );
        } else {
            assert(answers.take(0) =~= Seq::<Answer>::empty());
        }
    }

    /// Once the text is given up, nothing more is asked and nothing more is read:
    /// the reading after the whole text is given up too, with as many cells asked
    /// about.
    pub proof fn lemma_given_up_stays(
        table: Seq<Seq<Seq<char>>>,
        first_col: int,
        vis_cols: Seq<ColumnIdx>,
        answers: Seq<Answer>,
        r: int,
        c: int,
        r2: int,
        c2: int,
    )
        requires
            0 <= r < table.len(),
            0 <= c <= table[r].len(),
            Reading::after(table, first_col, vis_cols, answers, r, c).given_up,
            r < r2 <= table.len() && c2 == 0 || r == r2 && c <= c2 <= table[r].len() || r < r2
                < table.len() && 0 <= c2 <= table[r2].len(),
        ensures
            Reading::after(table, first_col, vis_cols, answers, r2, c2).given_up,
            Reading::after(table, first_col, vis_cols, answers, r2, c2).asked == Reading::after(
                table,
                first_col,
                vis_cols,
                answers,
                r,
                c,
            ).asked,
        decreases r2, c2,
    {
        if r == r2 && c == c2 {
        } else if c2 > 0 {
            Reading::lemma_given_up_stays(table, first_col, vis_cols, answers, r, c, r2, c2 - 1);
        } else {
            Reading::lemma_given_up_stays(
                table,
                first_col,
                vis_cols,
                answers,
                r,
                c,
                r2 - 1,
                table[r2 - 1].len() as int,
            );
        }
    }

    /// In a row that is skipped nothing more is asked and nothing more is read.
    pub proof fn lemma_skipped_stays(
        table: Seq<Seq<Seq<char>>>,
        first_col: int,
        vis_cols: Seq<ColumnIdx>,
        answers: Seq<Answer>,
        r: int,
        c: int,
        c2: int,
    )
        requires
            0 <= r,
            0 <= c <= c2,
            Reading::after(table, first_col, vis_cols, answers, r, c).skipped,
        ensures
            Reading::after(table, first_col, vis_cols, answers, r, c2) == Reading::after(
                table,
                first_col,
                vis_cols,
                answers,
                r,
                c,
            ),
        decreases c2,
    {
        if c < c2 {
            Reading::lemma_skipped_stays(table, first_col, vis_cols, answers, r, c, c2 - 1);
        }
    }
}

impl<R> UiModel<R> {
    /// Whether text that reads as `table` is read at all: a cell is selected, and no
    /// row of the text has more cells than columns are visible.
    pub open spec fn takes_text(self, table: Seq<Seq<Seq<char>>>) -> bool {
        &&& self.cursor.selections().len() > 0
        &&& forall|row: int| 0 <= row < table.len() ==> (#[trigger] table[row]).len() <= self.vis_cols.len()
    }

    /// The visible column on which the first column of pasted text falls.
    pub open spec fn paste_origin(self) -> int {
        self.cursor.selections()[0].left(self.ncol())
    }

    /// Whether `after` and `updated` are what reading `table` leads to when the
    /// codec's answers are `answers`: every answer was asked for; the text is read
    /// unless the codec gave it up, which is to say unless an answer is `Abort`; and
    /// the cells that were read, with as many rows in the slab as rows were kept,
    /// take the place of the clipboard.
    pub open spec fn read_with(
        self,
        table: Seq<Seq<Seq<char>>>,
        answers: Seq<Answer>,
        updated: bool,
        after: UiModel<R>,
    ) -> bool {
        let end = Reading::of(table, self.paste_origin(), self.vis_cols, answers);
        &&& answers.len() == end.asked
        &&& updated == !end.given_up
        &&& updated == !answers.contains(Err(DecodeErrorBehavior::Abort))
        &&& updated ==> {
            &&& after.clipboard is Some
            &&& after == (UiModel { clipboard: after.clipboard, ..self })
            &&& after.clipboard->0.pastes == end.pastes
            &&& after.clipboard->0.slab.len() == end.kept_rows
        }
    }

    /// Whether `after` and `updated` are what reading text that reads as `table`
    /// can lead to. Text that is not read leaves the state as it is. Text is not
    /// read if no cell is selected or a row of it is wider than the grid; else what
    /// is read follows from the answers of the codec.
    pub open spec fn text_read(self, table: Seq<Seq<Seq<char>>>, updated: bool, after: UiModel<R>) -> bool {
        &&& !updated ==> after == self
        &&& !self.takes_text(table) ==> !updated
        &&& self.takes_text(table) ==> exists|answers: Seq<Answer>|
            #[trigger] self.read_with(table, answers, updated, after)
    }
}

/// Takes in what reading one cell of the text came to. A cell that was read joins
/// the cells; one that is to be skipped does not; a row that is to be skipped takes
/// with it the cells that were read from it, those from `row_began_at` on. Returns
/// whether the row goes on, or nothing if the text is given up.
pub fn record_decoded(
    pastes: &mut Vec<PasteCell>,
    outcome: Result<(), DecodeErrorBehavior>,
    cell: PasteCell,
    row_began_at: usize,
) -> (go_on: Option<bool>)
    requires
        row_began_at <= old(pastes)@.len(),
    ensures
        match outcome {
            Ok(_) => final(pastes)@ == old(pastes)@.push(cell) && go_on == Some(true),
            Err(DecodeErrorBehavior::SkipCell) => final(pastes)@ == old(pastes)@ && go_on == Some(
                true,
            ),
            Err(DecodeErrorBehavior::SkipRow) => final(pastes)@ == old(pastes)@.take(
                row_began_at as int,
            ) && go_on == Some(false),
            Err(DecodeErrorBehavior::Abort) => final(pastes)@ == old(pastes)@ && go_on is None,
        },
{
    match outcome {
        Ok(_) => {
            pastes.push(cell);
            Some(true)
        },
        Err(DecodeErrorBehavior::SkipCell) => Some(true),
        Err(DecodeErrorBehavior::SkipRow) => {
            pastes.truncate(row_began_at);
            Some(false)
        },
        Err(DecodeErrorBehavior::Abort) => None,
    }
}

/// What a viewer is told when a codec is wanted for reading text: that it is not
/// for writing.
pub fn codec_for_reading() -> (is_encoding: bool)
    ensures
        !is_encoding,
{
    false
}

/// What a viewer is told when a codec is wanted for writing text.
pub fn codec_for_writing() -> (is_encoding: bool)
    ensures
        is_encoding,
{
    true
}

impl<R> UiState<R> {
    /// The visible column on which the first column of pasted text falls: the left
    /// column of the first selected rectangle. Nothing if no cell is selected.
    pub fn paste_column(&self) -> (column: Option<VisColumnPos>)
        requires
            self@.vis_cols.len() > 0,
        ensures
            column == if self@.cursor.selections().len() > 0 {
                Some(VisColumnPos(self@.cursor.selections()[0].left(self@.ncol()) as usize))
            } else {
                None
            },
    {
        if let CursorState::Select(selections) = &self.cc_cursor {
            if selections.len() == 0 {
                return None;
            }
            let (_, col) = selections[0].0.row_col(self.p.vis_cols.len());
            Some(col)
        } else {
            None
        }
    }

    /// Reads shared text into the clipboard, and says whether it did. The text is
    /// read as cells that begin at the left column of the selection.
    ///
    /// The text is not read if no cell is selected, or if a row of it has more cells
    /// than columns are visible. Else it is for the viewer to say: it may have no codec
    /// to read text with, and the codec may give the text up at any cell. Text that
    /// was read was read as `text_read` says.
    pub fn try_update_clipboard_from_string<V: RowViewer<R>>(&mut self, vwr: &mut V, contents: &str) -> (updated: bool)
        requires
            old(self)@.wf(),
        ensures
            !updated ==> final(self)@ == old(self)@,
            !old(self)@.takes_text(crate::tsv::parsed_table(contents@)) ==> !updated,
            updated ==> {
                &&& old(self)@.text_read(crate::tsv::parsed_table(contents@), updated, final(self)@)
                &&& final(self)@.clipboard is Some
                &&& final(self)@ == (UiModel { clipboard: final(self)@.clipboard, ..old(self)@ })
                &&& final(self)@.clipboard->0.wf()
                &&& reads_table(
                    final(self)@.clipboard->0.pastes,
                    crate::tsv::parsed_table(contents@),
                    old(self)@.paste_origin(),
                    old(self)@.vis_cols,
                )
                &&& reads_in_order(final(self)@.clipboard->0.pastes, old(self)@.vis_cols)
                // No cell falls on a column that is not visible.
                &&& forall|i: int|
                    0 <= i < final(self)@.clipboard->0.pastes.len() ==> old(self)@.vis_cols.contains(
                        (#[trigger] final(self)@.clipboard->0.pastes[i]).1,
                    )
            },
    {
        let codec = vwr.try_create_codec(codec_for_reading());
        self.read_clipboard_if(codec, contents)
    }

    /// The column that the cell in column `column` of pasted text falls on, where
    /// the first column of the text falls on the visible column `first`. Nothing
    /// where the cell falls beyond the last visible column.
    pub fn paste_target(&self, first: usize, column: usize) -> (target: Option<ColumnIdx>)
        ensures
            target == if first + column < self@.vis_cols.len() {
                Some(self@.vis_cols[first + column])
            } else {
                None
            },
    {
        let ncol = self.p.vis_cols.len();
        if first < ncol && column < ncol - first {
            Some(self.p.vis_cols[first + column])
        } else {
            None
        }
    }

    /// Reads shared text into the clipboard with the given codec, and says whether it
    /// did. The text is read as cells that begin at the left column of the
    /// selection; a cell that falls beyond the last visible column is dropped.
    ///
    /// The text is not read if no cell is selected, or if a row of it has more cells
    /// than columns are visible. Else the codec is asked about cell after cell, and
    /// `text_read` says what its answers lead to: the text is read unless one of
    /// them gives it up.
    pub fn read_clipboard_text<C: RowCodec<R>>(&mut self, codec: &mut C, contents: &str) -> (updated: bool)
        requires
            old(self)@.wf(),
        ensures
            old(self)@.text_read(crate::tsv::parsed_table(contents@), updated, final(self)@),
            updated ==> {
                &&& final(self)@.clipboard->0.wf()
                &&& reads_table(
                    final(self)@.clipboard->0.pastes,
                    crate::tsv::parsed_table(contents@),
                    old(self)@.paste_origin(),
                    old(self)@.vis_cols,
                )
                &&& reads_in_order(final(self)@.clipboard->0.pastes, old(self)@.vis_cols)
                // No cell falls on a column that is not visible.
                &&& forall|i: int|
                    0 <= i < final(self)@.clipboard->0.pastes.len() ==> old(self)@.vis_cols.contains(
                        (#[trigger] final(self)@.clipboard->0.pastes[i]).1,
                    )
            },
            // Where there is no cell to read, the codec has no say.
            old(self)@.cursor.selections().len() > 0 && (forall|row: int|
                0 <= row < crate::tsv::parsed_table(contents@).len() ==> (#[trigger] crate::tsv::parsed_table(
                    contents@,
                )[row]).len() == 0) ==> updated,
    {
        let selection_offset = match self.paste_column() {
            Some(col) => col.0,
            None => {
                return false;
            },
        };
        let ncol = self.p.vis_cols.len();
        let view = ParsedTsv::parse(contents);
        let table_width = view.calc_table_width();
        let ghost table = view@;
        if table_width > ncol {
            // Text of more columns than are visible does not belong here.
            proof {
                let wide = choose|row: int| 0 <= row < table.len() && table[row].len() == table_width;
                assert(table[wide].len() > ncol);
            }
            return false;
        }
        let ghost vis_cols = self@.vis_cols;
        let ghost origin = selection_offset as int;
        proof {
            assert(old(self)@.takes_text(table));
            assert(origin == old(self)@.paste_origin());
        }
        let ghost mut answers: Seq<Answer> = Seq::empty();

        let mut slab: Vec<R> = Vec::new();
        let mut pastes: Vec<PasteCell> = Vec::new();
        let rows = view.iter_rows();
        let mut r: usize = 0;
        while r < rows.len()
            invariant
                self@ == old(self)@,
                vis_cols == self@.vis_cols,
                ncol == vis_cols.len(),
                selection_offset < ncol,
                origin == selection_offset,
                origin == old(self)@.paste_origin(),
                table == crate::tsv::parsed_table(contents@),
                rows@.len() == table.len(),
                forall|i: int|
                    0 <= i < rows@.len() ==> (#[trigger] rows@[i]).0 == i && rows@[i].1@.len()
                        == table[i].len(),
                forall|i: int, c: int|
                    0 <= i < rows@.len() && 0 <= c < rows@[i].1@.len() ==> (#[trigger] rows@[i].1@[c]).0
                        == c,
                r <= rows@.len(),
                forall|i: int| 0 <= i < pastes@.len() ==> (#[trigger] pastes@[i]).2.0 < slab@.len(),
                forall|i: int| 0 <= i < pastes@.len() ==> (#[trigger] pastes@[i]).0.0 < r,
                forall|i: int, j: int| 0 <= i < j < pastes@.len() ==> pastes@[i].0.0 <= pastes@[j].0.0,
                reads_table(pastes@, table, selection_offset as int, vis_cols),
                reads_in_order(pastes@, vis_cols),
                vis_cols.no_duplicates(),
                Reading::after(table, origin, vis_cols, answers, r as int, 0) == (Reading {
                    pastes: pastes@,
                    kept_rows: slab@.len() as int,
                    row_began_at: pastes@.len() as int,
                    skipped: false,
                    asked: answers.len() as int,
                    given_up: false,
                }),
            decreases rows@.len() - r,
        {
            let row_offset = rows[r].0;
            let slab_id = slab.len();
            slab.push(codec.create_empty_decoded_row());
            // Where the cells of this row begin, should the row be skipped.
            let pastes_restore = pastes.len();
            let mut skipped = false;
            let mut c: usize = 0;
            while c < rows[r].1.len() && !skipped
                invariant
                    self@ == old(self)@,
                    vis_cols == self@.vis_cols,
                    ncol == vis_cols.len(),
                    selection_offset < ncol,
                    origin == selection_offset,
                    origin == old(self)@.paste_origin(),
                    table == crate::tsv::parsed_table(contents@),
                    r < rows@.len() == table.len(),
                    row_offset == r,
                    rows@[r as int].0 == r,
                    rows@[r as int].1@.len() == table[r as int].len(),
                    forall|k: int|
                        0 <= k < rows@[r as int].1@.len() ==> (#[trigger] rows@[r as int].1@[k]).0 == k,
                    c <= rows@[r as int].1@.len(),
                    pastes_restore <= pastes@.len(),
                    !skipped ==> slab@.len() == slab_id + 1,
                    skipped ==> slab@.len() == slab_id && pastes@.len() == pastes_restore,
                    forall|i: int|
                        0 <= i < pastes_restore ==> (#[trigger] pastes@[i]).2.0 < slab_id,
                    forall|i: int| 0 <= i < pastes@.len() ==> (#[trigger] pastes@[i]).2.0 <= slab_id,
                    forall|i: int| 0 <= i < pastes@.len() ==> (#[trigger] pastes@[i]).0.0 <= r,
                    forall|i: int, j: int|
                        0 <= i < j < pastes@.len() ==> pastes@[i].0.0 <= pastes@[j].0.0,
                    reads_table(pastes@, table, selection_offset as int, vis_cols),
                    reads_in_order(pastes@, vis_cols),
                    vis_cols.no_duplicates(),
                    forall|i: int| 0 <= i < pastes_restore ==> (#[trigger] pastes@[i]).0.0 < r,
                    forall|i: int|
                        pastes_restore <= i < pastes@.len() ==> {
                            &&& (#[trigger] pastes@[i]).0.0 == r
                            &&& pastes@[i].2.0 == slab_id
                            &&& vis_cols.contains(pastes@[i].1)
                            &&& vis_cols.index_of(pastes@[i].1) < selection_offset + c
                        },
                    Reading::after(table, origin, vis_cols, answers, r as int, c as int) == (Reading {
                        pastes: pastes@,
                        kept_rows: slab_id as int,
                        row_began_at: pastes_restore as int,
                        skipped,
                        asked: answers.len() as int,
                        given_up: false,
                    }),
                decreases rows@[r as int].1@.len() - c,
            {
                let (column, data) = rows[r].1[c];
                let ghost here = Reading::after(table, origin, vis_cols, answers, r as int, c as int);
                // A cell that falls beyond the last visible column is dropped.
                if let Some(target) = self.paste_target(selection_offset, column) {
                    let outcome = codec.decode_column(data, target.0, &mut slab[slab_id]);
                    let ghost before = pastes@;
                    let cell = (VisRowOffset(row_offset), target, RowSlabIndex(slab_id));
                    proof {
                        Reading::lemma_more_answers(
                            table,
                            origin,
                            vis_cols,
                            answers,
                            outcome,
                            r as int,
                            c as int,
                        );
                        answers = answers.push(outcome);
                        assert(here.asks(c as int, origin, vis_cols.len() as int));
                        assert(Reading::after(table, origin, vis_cols, answers, r as int, c + 1)
                            == here.took(cell, outcome));
                    }
                    match record_decoded(&mut pastes, outcome, cell, pastes_restore) {
                        Some(true) => {
                            proof {
                                assert(vis_cols[selection_offset + column] == target);
                                assert(vis_cols.contains(target));
                                assert(vis_cols.index_of(target) == selection_offset + column);
                                assert(rows@[r as int].1@[c as int].0 == c);
                                assert forall|i: int| 0 <= i < pastes@.len() implies {
                                    let (row, col, _) = #[trigger] pastes@[i];
                                    &&& row.0 < table.len()
                                    &&& exists|j: int|
                                        0 <= j < table[row.0 as int].len() && selection_offset + j
                                            < vis_cols.len() && col == #[trigger] vis_cols[selection_offset
                                            + j]
                                } by {
                                    if i < before.len() {
                                        assert(pastes@[i] == before[i]);
                                    } else {
                                        assert(cell.1 == vis_cols[selection_offset + column]);
                                    }
                                }
                            }
                        },
                        Some(false) => {
                            slab.pop();
                            skipped = true;
                            proof {
                                assert forall|i: int| 0 <= i < pastes@.len() implies {
                                    let (row, col, _) = #[trigger] pastes@[i];
                                    &&& row.0 < table.len()
                                    &&& exists|j: int|
                                        0 <= j < table[row.0 as int].len() && selection_offset + j
                                            < vis_cols.len() && col == #[trigger] vis_cols[selection_offset
                                            + j]
                                } by {
                                    assert(pastes@[i] == before[i]);
                                }
                            }
                        },
                        None => {
                            // The codec gives the text up.
                            proof {
                                assert(table[r as int].len() > 0);
                                Reading::lemma_given_up_stays(
                                    table,
                                    origin,
                                    vis_cols,
                                    answers,
                                    r as int,
                                    c + 1,
                                    table.len() as int,
                                    0,
                                );
                                Reading::lemma_given_up_is_abort(
                                    table,
                                    origin,
                                    vis_cols,
                                    answers,
                                    table.len() as int,
                                    0,
                                );
                                assert(answers.take(answers.len() as int) =~= answers);
                                assert(old(self)@.read_with(table, answers, false, self@));
                            }
                            return false;
                        },
                    }
                } else {
                    proof {
                        assert(!here.asks(c as int, origin, vis_cols.len() as int));
                    }
                }
                c += 1;
            }
            proof {
                let width = table[r as int].len() as int;
                if skipped {
                    Reading::lemma_skipped_stays(table, origin, vis_cols, answers, r as int, c as int, width);
                }
                assert(Reading::after(table, origin, vis_cols, answers, r + 1, 0) == Reading::after(
                    table,
                    origin,
                    vis_cols,
                    answers,
                    r as int,
                    width,
                ).next_row());
            }
            r += 1;
        }

        // The cells that were read take the place of what was copied.
        self.clipboard = Some(Clipboard { slab, pastes });
        proof {
            let c = self@.clipboard->0;
            assert forall|i: int| 0 <= i < c.pastes.len() implies vis_cols.contains(
                (#[trigger] c.pastes[i]).1,
            ) by {
                let (row, col, _) = c.pastes[i];
                let j = choose|j: int|
                    0 <= j < table[row.0 as int].len() && selection_offset + j < vis_cols.len() && col
                        == #[trigger] vis_cols[selection_offset + j];
                assert(vis_cols[selection_offset + j] == col);
            }
            assert(self@ == (UiModel { clipboard: self@.clipboard, ..old(self)@ }));
            Reading::lemma_given_up_is_abort(table, origin, vis_cols, answers, table.len() as int, 0);
            assert(answers.take(answers.len() as int) =~= answers);
            assert(old(self)@.read_with(table, answers, true, self@));
        }
        true
    }

    /// Reads shared text into the clipboard with the codec, if there is one; without
    /// a codec nothing is read and the clipboard stays as it is.
    pub fn read_clipboard_if<C: RowCodec<R>>(&mut self, codec: Option<C>, contents: &str) -> (updated: bool)
        requires
            old(self)@.wf(),
        ensures
            codec is None ==> !updated,
            !updated ==> final(self)@ == old(self)@,
            codec is Some ==> old(self)@.text_read(
                crate::tsv::parsed_table(contents@),
                updated,
                final(self)@,
            ),
            updated ==> {
                &&& final(self)@.clipboard->0.wf()
                &&& reads_table(
                    final(self)@.clipboard->0.pastes,
                    crate::tsv::parsed_table(contents@),
                    old(self)@.paste_origin(),
                    old(self)@.vis_cols,
                )
                &&& reads_in_order(final(self)@.clipboard->0.pastes, old(self)@.vis_cols)
                &&& forall|i: int|
                    0 <= i < final(self)@.clipboard->0.pastes.len() ==> old(self)@.vis_cols.contains(
                        (#[trigger] final(self)@.clipboard->0.pastes[i]).1,
                    )
            },
    {
        match codec {
            Some(mut codec) => self.read_clipboard_text(&mut codec, contents),
            None => false,
        }
    }

    /// The text that the clipboard is shared as, if the viewer has a codec to write
    /// text with. What each cell is written as is for the codec to say; `dump_if`
    /// says what the text is for a given codec.
    pub fn try_dump_clipboard_content<V: RowViewer<R>>(clipboard: &Clipboard<R>, vwr: &mut V) -> (text: Option<
        String,
    >)
        requires
            clipboard@.wf(),
        ensures
            text is Some ==> exists|contents: Seq<Seq<char>>|
                contents.len() == clipboard@.pastes.len() && text->0@ == #[trigger] dumped(
                    clipboard@.pastes,
                    contents,
                ),
    {
        let codec = vwr.try_create_codec(codec_for_writing());
        clipboard.dump_if(codec)
    }
}

impl<R> Clipboard<R> {
    /// What a codec is asked to write for cell `i`: the row of the slab that holds
    /// the cell's value, and the cell's column.
    pub fn encode_request(&self, i: usize) -> (request: (&R, usize))
        requires
            self@.wf(),
            i < self@.pastes.len(),
        ensures
            *request.0 == self@.slab[self@.pastes[i as int].2.0 as int],
            request.1 == self@.pastes[i as int].1.0,
    {
        let (_, column, data_idx) = self.pastes[i];
        (&self.slab[data_idx.0], column.0)
    }

    /// The text that the clipboard is shared as, each cell written by the codec.
    /// What each cell is written as is for the codec to say; `dump_cells` says how
    /// the cells make up the text.
    pub fn dump_with<C: RowCodec<R>>(&self, codec: &mut C) -> (text: String)
        requires
            self@.wf(),
        ensures
            exists|contents: Seq<Seq<char>>|
                contents.len() == self@.pastes.len() && text@ == #[trigger] dumped(
                    self@.pastes,
                    contents,
                ),
    {
        let mut contents: Vec<String> = Vec::new();
        let mut i: usize = 0;
        while i < self.pastes.len()
            invariant
                self@.wf(),
                i <= self@.pastes.len(),
                contents@.len() == i,
            decreases self@.pastes.len() - i,
        {
            let (row, column) = self.encode_request(i);
            let mut buf_tmp = String::new();
            codec.encode_column(row, column, &mut buf_tmp);
            contents.push(buf_tmp);
            i += 1;
        }
        let text = dump_cells(&self.pastes, &contents);
        proof {
            assert(texts(contents@).len() == self@.pastes.len());
        }
        text
    }

    /// The text that the clipboard is shared as, written with the codec if there is
    /// one; nothing without a codec.
    pub fn dump_if<C: RowCodec<R>>(&self, codec: Option<C>) -> (text: Option<String>)
        requires
            self@.wf(),
        ensures
            text is Some == codec is Some,
            text is Some ==> exists|contents: Seq<Seq<char>>|
                contents.len() == self@.pastes.len() && text->0@ == #[trigger] dumped(
                    self@.pastes,
                    contents,
                ),
    {
        match codec {
            Some(mut codec) => Some(self.dump_with(&mut codec)),
            None => None,
        }
    }
}

} // verus!

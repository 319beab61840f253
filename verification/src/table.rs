//! The rows of a grid.

use vstd::prelude::*;
use crate::seqs::retained;
use crate::state::{UiModel, UiState};

verus! {

/// The rows of a grid, together with the state of the grid that shows them.
///
/// The rows are reached through the table so that the grid learns of every change:
/// a change made by the application marks what the grid has worked out from the rows
/// as out of date.
pub struct DataTable<R> {
    pub(crate) rows: Vec<R>,
    /// The user has changed the rows through the grid.
    pub(crate) dirty_flag: bool,
    /// The state of the grid while no frame is drawn.
    pub(crate) ui: Option<Box<UiState<R>>>,
}

/// A table as a mathematical value.
pub struct TableModel<R> {
    pub rows: Seq<R>,
    /// The user has changed the rows through the grid.
    pub user_modified: bool,
    /// The state of the grid, if the table holds it.
    pub ui: Option<UiModel<R>>,
}

impl<R> TableModel<R> {
    /// The table with what the grid has worked out from the rows marked as out of
    /// date.
    pub open spec fn marked_dirty(self) -> TableModel<R> {
        match self.ui {
            Some(ui) => TableModel { ui: Some(UiModel { dirty: true, ..ui }), ..self },
            None => self,
        }
    }
}

impl<R> TableModel<R> {
    /// The table once only the rows marked in `keep` are left: what the grid has
    /// worked out is out of date if a row is gone.
    pub open spec fn retained(self, keep: Seq<bool>) -> TableModel<R> {
        let marked = if keep.contains(false) {
            self.marked_dirty()
        } else {
            self
        };
        TableModel { rows: retained(self.rows, keep), ..marked }
    }
}

impl<R> View for DataTable<R> {
    type V = TableModel<R>;

    open(crate) spec fn view(&self) -> TableModel<R> {
        TableModel {
            rows: self.rows@,
            user_modified: self.dirty_flag,
            ui: match self.ui {
                Some(ui) => Some(ui@),
                None => None,
            },
        }
    }
}

impl<R> Default for DataTable<R> {
    fn default() -> (table: Self)
        ensures
            table@.rows.len() == 0,
            !table@.user_modified,
            table@.ui is None,
    {
        Self { rows: Vec::new(), ui: None, dirty_flag: false }
    }
}

impl<R> std::ops::Deref for DataTable<R> {
    type Target = Vec<R>;

    fn deref(&self) -> (rows: &Vec<R>)
        ensures
            rows@ == self@.rows,
    {
        &self.rows
    }
}

impl<R> DataTable<R> {
    /// An empty table.
    pub fn new() -> (table: Self)
        ensures
            table@.rows.len() == 0,
            !table@.user_modified,
            table@.ui is None,
    {
        Self { rows: Vec::new(), ui: None, dirty_flag: false }
    }

    /// A table of the given rows.
    pub fn from_rows(rows: Vec<R>) -> (table: Self)
        ensures
            table@.rows == rows@,
            !table@.user_modified,
            table@.ui is None,
    {
        Self { rows, ui: None, dirty_flag: false }
    }

    /// Appends rows. The state of the grid is dropped.
    pub fn extend_rows(&mut self, rows: Vec<R>)
        ensures
            final(self)@.rows == old(self)@.rows + rows@,
            final(self)@.user_modified == old(self)@.user_modified,
            final(self)@.ui is None,
    {
        let mut rows = rows;
        self.ui = None;
        self.rows.append(&mut rows);
    }

    /// The rows, to be changed in place.
    pub fn rows_mut(&mut self) -> (rows: &mut Vec<R>)
        ensures
            rows@ == old(self)@.rows,
            final(self)@ == (TableModel { rows: final(rows)@, ..old(self)@.marked_dirty() }),
    {
        self.mark_dirty();
        &mut self.rows
    }

    /// Takes the state of the grid out of the table, for the time a frame is drawn.
    pub fn take_ui(&mut self) -> (ui: Option<Box<UiState<R>>>)
        ensures
            match ui {
                Some(state) => old(self)@.ui == Some(state@),
                None => old(self)@.ui is None,
            },
            final(self)@ == (TableModel { ui: None, ..old(self)@ }),
    {
        self.ui.take()
    }

    /// Puts the state of the grid back into the table.
    pub fn put_ui(&mut self, ui: Box<UiState<R>>)
        ensures
            final(self)@ == (TableModel { ui: Some(ui@), ..old(self)@ }),
    {
        self.ui = Some(ui);
    }

    /// Takes the rows out and leaves the table empty.
    pub fn take(&mut self) -> (rows: Vec<R>)
        ensures
            rows@ == old(self)@.rows,
            final(self)@ == (TableModel { rows: Seq::empty(), ..old(self)@.marked_dirty() }),
    {
        self.mark_dirty();
        let mut rows = Vec::new();
        std::mem::swap(&mut self.rows, &mut rows);
        rows
    }

    /// Puts `new` in the place of the rows and returns the rows that were there.
    pub fn replace(&mut self, new: Vec<R>) -> (rows: Vec<R>)
        ensures
            rows@ == old(self)@.rows,
            final(self)@ == (TableModel { rows: new@, ..old(self)@.marked_dirty() }),
    {
        self.mark_dirty();
        let mut rows = new;
        std::mem::swap(&mut self.rows, &mut rows);
        rows
    }

    /// Keeps the rows for which `f` returns `true`, in their order. The grid has to look
    /// at the rows anew only if a row was removed.
    pub fn retain<F: FnMut(&R) -> bool>(&mut self, mut f: F)
        requires
            forall|row: &R| call_requires(f, (row,)),
        ensures
            exists|keep: Seq<bool>|
                {
                    &&& keep.len() == old(self)@.rows.len()
                    &&& forall|i: int|
                        0 <= i < keep.len() ==> call_ensures(f, (&old(self)@.rows[i],), #[trigger] keep[i])
                    &&& final(self)@ == #[trigger] old(self)@.retained(keep)
                },
    {
        let ghost asked = f;
        let mut rows: Vec<R> = Vec::new();
        std::mem::swap(&mut self.rows, &mut rows);
        let mut kept: Vec<R> = Vec::new();
        let mut removed_any = false;
        let ghost mut keep: Seq<bool> = Seq::empty();
        for row in it: rows
            invariant
                f == asked,
                forall|row: &R| call_requires(f, (row,)),
                it.seq() == old(self)@.rows,
                keep.len() == it.index(),
                forall|i: int|
                    0 <= i < keep.len() ==> call_ensures(f, (&old(self)@.rows[i],), #[trigger] keep[i]),
                kept@ == retained(old(self)@.rows.take(it.index() as int), keep),
                removed_any == keep.contains(false),
                self.dirty_flag == old(self).dirty_flag,
                self.ui == old(self).ui,
        {
            let ghost before = keep;
            let retain = f(&row);
            proof {
                keep = keep.push(retain);
                let seen = old(self)@.rows.take(it.index() + 1);
                assert(seen.drop_last() =~= old(self)@.rows.take(it.index() as int));
                assert(keep.drop_last() =~= before);
                if !retain {
                    assert(keep[keep.len() - 1] == false);
                }
                if before.contains(false) {
                    let k = choose|k: int| 0 <= k < before.len() && before[k] == false;
                    assert(keep[k] == false);
                }
                if keep.contains(false) {
                    let k = choose|k: int| 0 <= k < keep.len() && keep[k] == false;
                    if k < before.len() {
                        assert(before[k] == false);
                    }
                }
            }
            if retain {
                kept.push(row);
            } else {
                removed_any = true;
            }
        }
        proof {
            assert(old(self)@.rows.take(old(self)@.rows.len() as int) =~= old(self)@.rows);
        }
        self.rows = kept;
        if removed_any {
            self.mark_dirty();
        }
        proof {
            assert(keep.len() == old(self)@.rows.len());
            assert(self@.rows == retained(old(self)@.rows, keep));
            assert(self@ == old(self)@.retained(keep));
        }
    }

    /// Whether the grid has to look at the rows anew.
    pub fn is_dirty(&self) -> (dirty: bool)
        ensures
            dirty == (self@.ui is Some && self@.ui->0.dirty),
    {
        match &self.ui {
            Some(ui) => ui.cc_is_dirty(),
            None => false,
        }
    }

    /// Does nothing: the grid clears its mark itself.
    pub fn clear_dirty_flag(&mut self)
        ensures
            final(self)@ == old(self)@,
    {
    }

    /// Marks what the grid has worked out from the rows as out of date.
    pub(crate) fn mark_dirty(&mut self)
        ensures
            final(self)@ == old(self)@.marked_dirty(),
    {
        match &mut self.ui {
            Some(state) => {
                state.force_mark_dirty();
            },
            None => {},
        }
    }

    /// Whether the user has changed the rows through the grid.
    pub fn has_user_modification(&self) -> (modified: bool)
        ensures
            modified == self@.user_modified,
    {
        self.dirty_flag
    }

    /// Forgets that the user has changed the rows.
    pub fn clear_user_modification_flag(&mut self)
        ensures
            final(self)@ == (TableModel { user_modified: false, ..old(self)@ }),
    {
        self.dirty_flag = false;
    }
}

impl<R: Clone> Clone for DataTable<R> {
    /// A table of clones of the rows. The state of the grid is not copied.
    fn clone(&self) -> (table: Self)
        ensures
            table@.rows.len() == self@.rows.len(),
            forall|i: int|
                0 <= i < self@.rows.len() ==> cloned::<R>(self@.rows[i], #[trigger] table@.rows[i]),
            table@.user_modified == self@.user_modified,
            table@.ui is None,
    {
        Self { rows: self.rows.clone(), ui: None, dirty_flag: self.dirty_flag }
    }
}

} // verus!

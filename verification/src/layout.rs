//! Where the picture of each graph goes on the page: one row per execution.

use vstd::prelude::*;

verus! {

/// What a picture shows.
#[derive(Clone, Copy, Debug, PartialEq, Eq, Structural)]
pub enum GraphKind {
    /// A graph that is still growing.
    Snapshot,
    /// The graph of a finished execution.
    Complete,
    /// The graph of an execution in which a thread is stuck.
    Blocked,
}

/// The next slot, and the slot of the last picture.
#[derive(Clone, Copy, Debug, PartialEq, Eq)]
pub struct Layout {
    pub row: usize,
    pub col: usize,
    pub row_start: usize,
    pub last_graph: Option<(usize, usize)>,
    pub next_anchor: Option<(usize, usize)>,
}

/// One more, up to the largest number.
pub open spec fn bumped(n: usize) -> usize {
    if n < usize::MAX {
        (n + 1) as usize
    } else {
        n
    }
}

pub fn bump(n: usize) -> (r: usize)
    ensures
        r == bumped(n),
{
    if n < usize::MAX {
        n + 1
    } else {
        n
    }
}

/// The layout after a picture was put in the next slot. The last picture of an
/// execution ends its row. One that could not be written takes its slot all the same.
pub open spec fn placed(l: Layout, is_final: bool, written: bool) -> Layout {
    let drawn = if written {
        Layout { last_graph: Some((l.row, l.col)), next_anchor: None, ..l }
    } else {
        l
    };
    if is_final {
        Layout { row: bumped(l.row), col: 0, row_start: 0, ..drawn }
    } else if bumped(l.col) == usize::MAX {
        Layout { row: bumped(l.row), col: 0, ..drawn }
    } else {
        Layout { col: bumped(l.col), ..drawn }
    }
}

/// The layout at the start of an execution.
pub open spec fn fresh_row(l: Layout) -> Layout {
    Layout { row: bumped(l.row), col: 0, row_start: 0, last_graph: None, next_anchor: None }
}

/// The layout for the executions below a backward revisit: a new row, which
/// starts under the last picture.
pub open spec fn branched(l: Layout) -> Layout {
    Layout {
        row: bumped(l.row),
        col: 0,
        row_start: match l.last_graph {
            Some(slot) => slot.1,
            None => 0,
        },
        last_graph: l.last_graph,
        next_anchor: l.last_graph,
    }
}

/// The layout when the executions below a backward revisit are done.
pub open spec fn rejoined(l: Layout, saved: Layout) -> Layout {
    Layout {
        row: l.row,
        col: 0,
        row_start: 0,
        last_graph: saved.last_graph,
        next_anchor: saved.next_anchor,
    }
}

impl Layout {
    pub fn new() -> (l: Self)
        ensures
            l == (Layout { row: 0, col: 0, row_start: 0, last_graph: None, next_anchor: None }),
    {
        Layout { row: 0, col: 0, row_start: 0, last_graph: None, next_anchor: None }
    }

    /// Puts a picture in the next slot.
    pub fn place(self, is_final: bool, written: bool) -> (l: Self)
        ensures
            l == placed(self, is_final, written),
    {
        let drawn = if written {
            Layout { last_graph: Some((self.row, self.col)), next_anchor: None, ..self }
        } else {
            self
        };
        if is_final {
            Layout { row: bump(self.row), col: 0, row_start: 0, ..drawn }
        } else if bump(self.col) == usize::MAX {
            Layout { row: bump(self.row), col: 0, ..drawn }
        } else {
            Layout { col: bump(self.col), ..drawn }
        }
    }

    pub fn next_execution(self) -> (l: Self)
        ensures
            l == fresh_row(self),
    {
        Layout {
            row: bump(self.row),
            col: 0,
            row_start: 0,
            last_graph: None,
            next_anchor: None,
        }
    }

    pub fn branch(self) -> (l: Self)
        ensures
            l == branched(self),
    {
        let row_start = match self.last_graph {
            Some(slot) => slot.1,
            None => 0,
        };
        Layout {
            row: bump(self.row),
            col: 0,
            row_start,
            last_graph: self.last_graph,
            next_anchor: self.last_graph,
        }
    }

    pub fn rejoin(self, saved: Layout) -> (l: Self)
        ensures
            l == rejoined(self, saved),
    {
        Layout {
            row: self.row,
            col: 0,
            row_start: 0,
            last_graph: saved.last_graph,
            next_anchor: saved.next_anchor,
        }
    }
}

/// Executions never share a row: the row of the next picture only grows.
pub proof fn law_rows_advance(l: Layout, saved: Layout, written: bool)
    ensures
        placed(l, true, written).row == bumped(l.row) && placed(l, true, written).col == 0,
        placed(l, false, written).row >= l.row,
        fresh_row(l).row == bumped(l.row),
        branched(l).row == bumped(l.row),
        rejoined(l, saved).row == l.row,
{
}

} // verus!

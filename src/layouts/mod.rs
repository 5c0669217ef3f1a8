//! Physical keyboard layouts: which cells of a key grid hold keys.
use vstd::prelude::*;

mod adv360;

verus! {

/// The keyboards whose grids are known.
#[derive(Clone, Copy, PartialEq, Eq, Structural)]
pub enum KeyboardLayoutType {
    Adv360,
}

/// A grid of `row_count` rows, read row by row: a cell holding a non-zero
/// value is a key and takes one binding, a cell holding zero is a gap.
pub struct KeyboardLayout {
    pub bindings: Vec<usize>,
    pub row_count: usize,
}

/// The mathematical content of a layout: its cells, row by row, and its
/// number of rows.
pub struct Grid {
    pub cells: Seq<usize>,
    pub rows: nat,
}

impl Grid {
    /// The rows are all of one length.
    pub open spec fn wf(self) -> bool {
        &&& self.rows > 0
        &&& self.cells.len() % self.rows == 0
    }

    /// The number of cells in a row.
    pub open spec fn row_size(self) -> nat {
        if self.rows > 0 {
            self.cells.len() / self.rows
        } else {
            0
        }
    }
}

impl View for KeyboardLayout {
    type V = Grid;

    open spec fn view(&self) -> Grid {
        Grid { cells: self.bindings@, rows: self.row_count as nat }
    }
}

/// Why a grid description is refused.
#[derive(Clone, Copy, PartialEq, Eq, Structural, Debug)]
pub enum LayoutError {
    /// A grid needs at least one row.
    NoRows,
    /// The number of cells is not a multiple of the number of rows.
    RaggedRows,
}

impl KeyboardLayout {
    /// Builds a layout from its cells and its number of rows.
    pub fn new(bindings: Vec<usize>, row_count: usize) -> (r: Result<KeyboardLayout, LayoutError>)
        ensures
            row_count == 0 <==> r == Err::<KeyboardLayout, LayoutError>(LayoutError::NoRows),
            row_count > 0 && bindings@.len() % (row_count as nat) != 0 <==> r == Err::<
                KeyboardLayout,
                LayoutError,
            >(LayoutError::RaggedRows),
            r is Ok ==> r->Ok_0@ == (Grid { cells: bindings@, rows: row_count as nat })
                && r->Ok_0@.wf(),
    {
        if row_count == 0 {
            Err(LayoutError::NoRows)
        } else if bindings.len() % row_count != 0 {
            Err(LayoutError::RaggedRows)
        } else {
            Ok(KeyboardLayout { bindings, row_count })
        }
    }

    /// The number of cells in a row.
    pub fn row_size(&self) -> (r: usize)
        requires
            self.row_count > 0,
        ensures
            r == self@.row_size(),
    {
        self.bindings.len() / self.row_count
    }
}

/// The grid of each known keyboard.
pub open spec fn layout_grid(layout_type: KeyboardLayoutType) -> Grid {
    match layout_type {
        KeyboardLayoutType::Adv360 => adv360::grid(),
    }
}

/// The grid of a known keyboard.
pub fn get_layout(layout_type: &KeyboardLayoutType) -> (r: KeyboardLayout)
    ensures
        r@ == layout_grid(*layout_type),
        r@.wf(),
{
    match layout_type {
        KeyboardLayoutType::Adv360 => adv360::get_layout(),
    }
}

} // verus!

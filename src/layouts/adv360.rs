//! The Kinesis Advantage360.
use vstd::prelude::*;

use super::{Grid, KeyboardLayout};

verus! {

/// Five rows of twenty cells: two key wells of seven columns and the
/// thumb clusters between them.
pub open spec fn grid() -> Grid {
    Grid {
        cells: seq![
            1, 1, 1, 1, 1, 1, 1, 0, 0, 0, 0, 0, 0, 1, 1, 1, 1, 1, 1, 1,
            1, 1, 1, 1, 1, 1, 1, 0, 0, 0, 0, 0, 0, 1, 1, 1, 1, 1, 1, 1,
            1, 1, 1, 1, 1, 1, 1, 0, 1, 1, 1, 1, 0, 1, 1, 1, 1, 1, 1, 1,
            1, 1, 1, 1, 1, 1, 0, 0, 0, 1, 1, 0, 0, 0, 1, 1, 1, 1, 1, 1,
            1, 1, 1, 1, 1, 0, 0, 1, 1, 1, 1, 1, 1, 0, 0, 1, 1, 1, 1, 1,
        ],
        rows: 5,
    }
}

/// The Advantage360's layout.
///
/// Five rows of twenty cells: two key wells of seven columns and the
/// thumb clusters between them.
pub fn get_layout() -> (r: KeyboardLayout)
    ensures
        r@ == grid(),
        r@.wf(),
{
    let bindings: Vec<usize> = vec![
        1, 1, 1, 1, 1, 1, 1, 0, 0, 0, 0, 0, 0, 1, 1, 1, 1, 1, 1, 1,
        1, 1, 1, 1, 1, 1, 1, 0, 0, 0, 0, 0, 0, 1, 1, 1, 1, 1, 1, 1,
        1, 1, 1, 1, 1, 1, 1, 0, 1, 1, 1, 1, 0, 1, 1, 1, 1, 1, 1, 1,
        1, 1, 1, 1, 1, 1, 0, 0, 0, 1, 1, 0, 0, 0, 1, 1, 1, 1, 1, 1,
        1, 1, 1, 1, 1, 0, 0, 1, 1, 1, 1, 1, 1, 0, 0, 1, 1, 1, 1, 1,
    ];
    let r = KeyboardLayout { bindings, row_count: 5 };
    assert(r@.cells =~= grid().cells);
    assert(r@.cells.len() == 100);
    assert(100nat % 5 == 0);
    r
}

} // verus!

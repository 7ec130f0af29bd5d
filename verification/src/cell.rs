use vstd::prelude::*;

verus! {

/// One square of the grid. Each flag says that there is an opening towards
/// the neighbour on that side; `false` means that the wall stands.
#[derive(Clone, Copy)]
pub struct Cell {
    pub left: bool,
    pub right: bool,
    pub top: bool,
    pub bottom: bool,
}

impl Cell {
    /// The cell with all four walls standing.
    pub open spec fn walled() -> Cell {
        Cell { left: false, right: false, top: false, bottom: false }
    }

    /// How many passages this cell accounts for: a passage is counted on the
    /// cell to its left or below it, so only `right` and `top` count.
    pub open spec fn weight(self) -> nat {
        (if self.right { 1nat } else { 0nat }) + (if self.top { 1nat } else { 0nat })
    }
}

impl Default for Cell {
    fn default() -> (c: Cell)
        ensures
            c == Cell::walled(),
    {
        Cell { left: false, right: false, top: false, bottom: false }
    }
}

} // verus!

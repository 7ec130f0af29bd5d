use vstd::prelude::*;
use crate::cell::Cell;
use crate::layout::Layout;
use crate::layout::lemma_index_in_bounds;
use crate::layout::lemma_put;

verus! {

/// A grid of `width * height` cells, stored row by row from the bottom row up.
/// The cells are reached through `cell` and `cell_mut` only.
pub struct Grid {
    cells: Vec<Cell>,
    width: usize,
    height: usize,
}

impl View for Grid {
    type V = Layout;

    closed spec fn view(&self) -> Layout {
        Layout { width: self.width as nat, height: self.height as nat, cells: self.cells@ }
    }
}

impl Clone for Grid {
    /// A copy of the grid: the same size and the same cells.
    fn clone(&self) -> (copy: Grid)
        ensures
            copy@ == self@,
    {
        proof {
            use_type_invariant(self);
        }
        let cells = self.cells.clone();
        assert(cells@ =~= self.cells@);
        Grid { cells, width: self.width, height: self.height }
    }
}

impl Grid {
    #[verifier::type_invariant]
    spec fn inv(self) -> bool {
        self.cells@.len() == self.width * self.height
    }

    /// A grid of the given size in which every wall stands.
    pub fn new(width: usize, height: usize) -> (grid: Grid)
        requires
            width * height <= usize::MAX,
        ensures
            grid@ == Layout::blank(width as nat, height as nat),
    {
        let total: usize = width * height;
        let mut cells: Vec<Cell> = Vec::with_capacity(total);
        let mut i: usize = 0;
        while i < total
            invariant
                i <= total,
                cells@ =~= Seq::new(i as nat, |k: int| Cell::walled()),
            decreases total - i,
        {
            cells.push(Cell::default());
            i += 1;
        }
        Grid { cells, width, height }
    }

    /// The number of columns.
    pub fn width(&self) -> (w: usize)
        ensures
            w == self@.width,
            self@.wf(),
    {
        proof {
            use_type_invariant(self);
        }
        self.width
    }

    /// The number of rows.
    pub fn height(&self) -> (h: usize)
        ensures
            h == self@.height,
            self@.wf(),
    {
        proof {
            use_type_invariant(self);
        }
        self.height
    }

    fn cell_index(&self, x: usize, y: usize) -> (i: usize)
        requires
            self@.contains(x as int, y as int),
        ensures
            i == self@.index(x as int, y as int),
            i < self.cells@.len(),
    {
        proof {
            use_type_invariant(self);
            lemma_index_in_bounds(self@, x as int, y as int);
        }
        assert(self.cells@.len() == self.cells.len());
        y * self.width + x
    }

    /// The cell at `(x, y)`, or `None` where `(x, y)` is no coordinate of the
    /// grid.
    pub fn cell(&self, x: usize, y: usize) -> (c: Option<&Cell>)
        ensures
            self@.wf(),
            c is Some <==> self@.contains(x as int, y as int),
            c is Some ==> *c.unwrap() == self@.at(x as int, y as int),
    {
        proof {
            use_type_invariant(self);
        }
        if x < self.width && y < self.height {
            let i: usize = self.cell_index(x, y);
            Some(&self.cells[i])
        } else {
            None
        }
    }

    /// The cell at `(x, y)` for writing, or `None` where `(x, y)` is no
    /// coordinate of the grid. Whatever the caller leaves in the cell is the
    /// only change to the grid.
    pub fn cell_mut(&mut self, x: usize, y: usize) -> (c: Option<&mut Cell>)
        ensures
            old(self)@.wf(),
            c is Some <==> old(self)@.contains(x as int, y as int),
            c is Some ==> *c.unwrap() == old(self)@.at(x as int, y as int) && final(self)@ == old(
                self,
            )@.put(x as int, y as int, *final(c.unwrap())),
            c is None ==> final(self)@ == old(self)@,
    {
        proof {
            use_type_invariant(&*self);
        }
        if x < self.width && y < self.height {
            let i: usize = self.cell_index(x, y);
            Some(&mut self.cells[i])
        } else {
            None
        }
    }

    /// Opens a passage between `(x, y)` and the cell above it, on both sides
    /// of the wall. Where one of the two is no cell of the grid, nothing
    /// changes.
    pub fn carve_up(&mut self, x: usize, y: usize)
        ensures
            old(self)@.wf(),
            final(self)@ == (if old(self)@.contains(x as int, y as int) && old(self)@.contains(
                x as int,
                y + 1,
            ) {
                old(self)@.carve_up(x as int, y as int)
            } else {
                old(self)@
            }),
    {
        proof {
            use_type_invariant(&*self);
        }
        if x < self.width && y < self.height && y + 1 < self.height {
            proof {
                lemma_put(
                    self@,
                    x as int,
                    y as int,
                    Cell { top: true, ..self@.at(x as int, y as int) },
                );
            }
            match self.cell_mut(x, y) {
                Some(c) => {
                    c.top = true;
                },
                None => {},
            }
            match self.cell_mut(x, y + 1) {
                Some(c) => {
                    c.bottom = true;
                },
                None => {},
            }
        }
    }

    /// Opens a passage between `(x, y)` and the cell to its right, on both
    /// sides of the wall. Where one of the two is no cell of the grid, nothing
    /// changes.
    pub fn carve_right(&mut self, x: usize, y: usize)
        ensures
            old(self)@.wf(),
            final(self)@ == (if old(self)@.contains(x as int, y as int) && old(self)@.contains(
                x + 1,
                y as int,
            ) {
                old(self)@.carve_right(x as int, y as int)
            } else {
                old(self)@
            }),
    {
        proof {
            use_type_invariant(&*self);
        }
        if x < self.width && y < self.height && x + 1 < self.width {
            proof {
                lemma_put(
                    self@,
                    x as int,
                    y as int,
                    Cell { right: true, ..self@.at(x as int, y as int) },
                );
            }
            match self.cell_mut(x, y) {
                Some(c) => {
                    c.right = true;
                },
                None => {},
            }
            match self.cell_mut(x + 1, y) {
                Some(c) => {
                    c.left = true;
                },
                None => {},
            }
        }
    }
}

} // verus!

use vstd::prelude::*;
use vstd::arithmetic::div_mod::lemma_div_pos_is_pos;
use vstd::arithmetic::div_mod::lemma_fundamental_div_mod;
use vstd::arithmetic::div_mod::lemma_mod_bound;
use vstd::arithmetic::div_mod::lemma_multiply_divide_lt;
use crate::cell::Cell;

verus! {

/// The mathematical picture of a grid: its two dimensions and its cells in
/// row-major order, row 0 being the bottom row.
pub struct Layout {
    pub width: nat,
    pub height: nat,
    pub cells: Seq<Cell>,
}

/// The number of passages that a sequence of cells accounts for.
pub open spec fn tally(cells: Seq<Cell>) -> nat
    decreases cells.len(),
{
    if cells.len() == 0 {
        0
    } else {
        tally(cells.drop_last()) + cells.last().weight()
    }
}

impl Layout {
    /// There is exactly one cell for each coordinate.
    pub open spec fn wf(self) -> bool {
        self.cells.len() == self.width * self.height
    }

    /// `(x, y)` is a coordinate of the grid.
    pub open spec fn contains(self, x: int, y: int) -> bool {
        0 <= x < self.width && 0 <= y < self.height
    }

    /// Where the cell at `(x, y)` stands in `cells`.
    pub open spec fn index(self, x: int, y: int) -> int {
        y * self.width + x
    }

    /// The cell at `(x, y)`.
    pub open spec fn at(self, x: int, y: int) -> Cell {
        self.cells[self.index(x, y)]
    }

    /// The layout with the cell at `(x, y)` replaced by `c`.
    pub open spec fn put(self, x: int, y: int, c: Cell) -> Layout {
        Layout { cells: self.cells.update(self.index(x, y), c), ..self }
    }

    /// The layout of the given size in which every wall stands.
    pub open spec fn blank(width: nat, height: nat) -> Layout {
        Layout { width, height, cells: Seq::new(width * height, |i: int| Cell::walled()) }
    }

    /// The layout with a passage opened between `(x, y)` and the cell above
    /// it: an opening on both sides of the wall.
    pub open spec fn carve_up(self, x: int, y: int) -> Layout {
        self.put(x, y, Cell { top: true, ..self.at(x, y) }).put(
            x,
            y + 1,
            Cell { bottom: true, ..self.at(x, y + 1) },
        )
    }

    /// The layout with a passage opened between `(x, y)` and the cell to its
    /// right: an opening on both sides of the wall.
    pub open spec fn carve_right(self, x: int, y: int) -> Layout {
        self.put(x, y, Cell { right: true, ..self.at(x, y) }).put(
            x + 1,
            y,
            Cell { left: true, ..self.at(x + 1, y) },
        )
    }

    /// Both sides of every inner wall agree: a cell is open to the right
    /// exactly when its right neighbour is open to the left, and open to the
    /// top exactly when the cell above it is open to the bottom.
    pub open spec fn mirrored(self) -> bool {
        &&& forall|x: int, y: int|
            #![trigger self.at(x, y), self.at(x + 1, y)]
            self.contains(x, y) && self.contains(x + 1, y) ==> self.at(x, y).right == self.at(
                x + 1,
                y,
            ).left
        &&& forall|x: int, y: int|
            #![trigger self.at(x, y), self.at(x, y + 1)]
            self.contains(x, y) && self.contains(x, y + 1) ==> self.at(x, y).top == self.at(
                x,
                y + 1,
            ).bottom
    }

    /// No cell on the rim has an opening that points out of the grid.
    pub open spec fn enclosed(self) -> bool {
        forall|x: int, y: int|
            self.contains(x, y) ==> {
                let c = #[trigger] self.at(x, y);
                &&& x == 0 ==> !c.left
                &&& y == 0 ==> !c.bottom
                &&& x == self.width - 1 ==> !c.right
                &&& y == self.height - 1 ==> !c.top
            }
    }

    /// The number of opened walls, each counted once: on the cell to its left
    /// or below it.
    pub open spec fn passages(self) -> nat {
        tally(self.cells)
    }

    /// The number of passages that the first `n` cells of row `y` account
    /// for.
    pub open spec fn row_passages(self, y: int, n: int) -> nat
        decreases n,
    {
        if n <= 0 {
            0
        } else {
            self.row_passages(y, n - 1) + self.at(n - 1, y).weight()
        }
    }
}

/// A coordinate of the grid has its index inside `cells`.
pub proof fn lemma_index_in_bounds(l: Layout, x: int, y: int)
    requires
        l.wf(),
        l.contains(x, y),
    ensures
        0 <= y * l.width <= l.index(x, y) < l.cells.len(),
{
    assert(0 <= y * l.width <= y * l.width + x < l.width * l.height) by (nonlinear_arith)
        requires
            0 <= x < l.width,
            0 <= y < l.height,
    ;
}

/// Two coordinates of the grid with the same index are the same.
pub proof fn lemma_index_unique(l: Layout, x1: int, y1: int, x2: int, y2: int)
    requires
        l.contains(x1, y1),
        l.contains(x2, y2),
        l.index(x1, y1) == l.index(x2, y2),
    ensures
        x1 == x2,
        y1 == y2,
{
    let w = l.width as int;
    if y1 < y2 {
        assert(y2 * w >= y1 * w + w) by (nonlinear_arith)
            requires
                y1 < y2,
                w > 0,
        ;
    } else if y2 < y1 {
        assert(y1 * w >= y2 * w + w) by (nonlinear_arith)
            requires
                y2 < y1,
                w > 0,
        ;
    }
}

/// Each index of `cells` belongs to one coordinate of the grid: the column is
/// the remainder by the width, the row the quotient.
pub proof fn lemma_index_cell(l: Layout, i: int)
    requires
        l.wf(),
        0 <= i < l.cells.len(),
    ensures
        l.width > 0,
        l.contains(i % (l.width as int), i / (l.width as int)),
        l.index(i % (l.width as int), i / (l.width as int)) == i,
{
    let w = l.width as int;
    let h = l.height as int;
    assert(w > 0) by (nonlinear_arith)
        requires
            0 <= i < w * h,
            w >= 0,
    ;
    lemma_fundamental_div_mod(i, w);
    lemma_mod_bound(i, w);
    lemma_div_pos_is_pos(i, w);
    lemma_multiply_divide_lt(i, w, h);
    assert(w * (i / w) == (i / w) * w) by (nonlinear_arith);
}

/// Cells that account for one passage each account together for as many
/// passages as there are cells.
pub proof fn lemma_tally_ones(cells: Seq<Cell>)
    requires
        forall|i: int| 0 <= i < cells.len() ==> (#[trigger] cells[i]).weight() == 1,
    ensures
        tally(cells) == cells.len(),
    decreases cells.len(),
{
    if cells.len() > 0 {
        let rest = cells.drop_last();
        assert(cells.last() == cells[cells.len() - 1]);
        assert forall|i: int| 0 <= i < rest.len() implies (#[trigger] rest[i]).weight() == 1 by {
            assert(rest[i] == cells[i]);
        }
        lemma_tally_ones(rest);
    }
}

/// One cell more adds its weight to the tally.
pub proof fn lemma_tally_take(cells: Seq<Cell>, k: int)
    requires
        0 <= k < cells.len(),
    ensures
        tally(cells.take(k + 1)) == tally(cells.take(k)) + cells[k].weight(),
{
    assert(cells.take(k + 1).drop_last() =~= cells.take(k));
}

/// The tally of the cells up to a place in row `y` is the tally of the rows
/// below and the passages of the row up to that place.
pub proof fn lemma_tally_row(l: Layout, y: int, n: int)
    requires
        l.wf(),
        0 <= y < l.height,
        0 <= n <= l.width,
    ensures
        0 <= y * l.width <= y * l.width + n <= l.cells.len(),
        tally(l.cells.take(y * l.width + n)) == tally(l.cells.take(y * l.width)) + l.row_passages(
            y,
            n,
        ),
    decreases n,
{
    if n > 0 {
        lemma_tally_row(l, y, n - 1);
        lemma_index_in_bounds(l, n - 1, y);
        lemma_tally_take(l.cells, y * l.width + n - 1);
    } else {
        assert(0 <= y * l.width <= l.width * l.height) by (nonlinear_arith)
            requires
                0 <= y < l.height,
                0 <= l.width,
        ;
    }
}

/// Replacing one cell leaves the size and every other cell as they were.
pub proof fn lemma_put(l: Layout, x: int, y: int, c: Cell)
    requires
        l.wf(),
        l.contains(x, y),
    ensures
        l.put(x, y, c).wf(),
        l.put(x, y, c).width == l.width,
        l.put(x, y, c).height == l.height,
        l.put(x, y, c).at(x, y) == c,
        forall|x2: int, y2: int|
            l.contains(x2, y2) && (x2 != x || y2 != y) ==> #[trigger] l.put(x, y, c).at(x2, y2)
                == l.at(x2, y2),
{
    lemma_index_in_bounds(l, x, y);
    let after = l.put(x, y, c);
    assert forall|x2: int, y2: int|
        l.contains(x2, y2) && (x2 != x || y2 != y) implies #[trigger] after.at(x2, y2) == l.at(
        x2,
        y2,
    ) by {
        lemma_index_in_bounds(l, x2, y2);
        if l.index(x2, y2) == l.index(x, y) {
            lemma_index_unique(l, x, y, x2, y2);
        }
    }
}

/// What a blank layout holds: walled cells only, so it is mirrored and
/// enclosed.
pub proof fn lemma_blank(width: nat, height: nat)
    ensures
        Layout::blank(width, height).wf(),
        forall|x: int, y: int| #![trigger Layout::blank(width, height).at(x, y)]
            Layout::blank(width, height).contains(x, y) ==> Layout::blank(width, height).at(x, y)
                == Cell::walled(),
        Layout::blank(width, height).mirrored(),
        Layout::blank(width, height).enclosed(),
{
    let l = Layout::blank(width, height);
    assert forall|x: int, y: int| #![trigger l.at(x, y)] l.contains(x, y) implies l.at(x, y)
        == Cell::walled() by {
        lemma_index_in_bounds(l, x, y);
    }
}

/// What opening a passage upwards does: the cell below gains `top`, the cell
/// above gains `bottom`, and nothing else changes.
pub proof fn lemma_carve_up(l: Layout, x: int, y: int)
    requires
        l.wf(),
        l.contains(x, y),
        l.contains(x, y + 1),
    ensures
        l.carve_up(x, y).wf(),
        l.carve_up(x, y).width == l.width,
        l.carve_up(x, y).height == l.height,
        l.carve_up(x, y).at(x, y) == (Cell { top: true, ..l.at(x, y) }),
        l.carve_up(x, y).at(x, y + 1) == (Cell { bottom: true, ..l.at(x, y + 1) }),
        forall|x2: int, y2: int|
            l.contains(x2, y2) && !(x2 == x && (y2 == y || y2 == y + 1)) ==> #[trigger] l.carve_up(
                x,
                y,
            ).at(x2, y2) == l.at(x2, y2),
{
    let below = Cell { top: true, ..l.at(x, y) };
    let above = Cell { bottom: true, ..l.at(x, y + 1) };
    let mid = l.put(x, y, below);
    lemma_put(l, x, y, below);
    lemma_put(mid, x, y + 1, above);
    assert(mid.at(x, y + 1) == l.at(x, y + 1));
}

/// What opening a passage to the right does: the cell on the left gains
/// `right`, the cell on the right gains `left`, and nothing else changes.
pub proof fn lemma_carve_right(l: Layout, x: int, y: int)
    requires
        l.wf(),
        l.contains(x, y),
        l.contains(x + 1, y),
    ensures
        l.carve_right(x, y).wf(),
        l.carve_right(x, y).width == l.width,
        l.carve_right(x, y).height == l.height,
        l.carve_right(x, y).at(x, y) == (Cell { right: true, ..l.at(x, y) }),
        l.carve_right(x, y).at(x + 1, y) == (Cell { left: true, ..l.at(x + 1, y) }),
        forall|x2: int, y2: int|
            l.contains(x2, y2) && !(y2 == y && (x2 == x || x2 == x + 1))
                ==> #[trigger] l.carve_right(x, y).at(x2, y2) == l.at(x2, y2),
{
    let near = Cell { right: true, ..l.at(x, y) };
    let far = Cell { left: true, ..l.at(x + 1, y) };
    let mid = l.put(x, y, near);
    lemma_put(l, x, y, near);
    lemma_put(mid, x + 1, y, far);
    assert(mid.at(x + 1, y) == l.at(x + 1, y));
}

} // verus!

use vstd::prelude::*;
use rand::rngs::ThreadRng;
use crate::binary_tree_maze::lemma_binary_tree_is_maze;
use crate::cell::Cell;
use crate::chance::flip;
use crate::generator::before;
use crate::generator::is_corner;
use crate::generator::turns_right;
use crate::generator::turns_up;
use crate::generator::GeneratorAlgorithm;
use crate::grid::Grid;
use crate::layout::lemma_blank;
use crate::layout::lemma_carve_right;
use crate::layout::lemma_carve_up;
use crate::layout::Layout;
use crate::render::titled;
use crate::render::titled_text;

verus! {

/// A maze in which every cell but the top right one has a passage either
/// upwards or to the right, chosen by a coin.
pub struct BinaryTree {
    pub grid: Grid,
}

/// The layouts that the binary tree algorithm can produce: the walls agree on
/// both sides, none is open towards the outside, and each cell but the top
/// right corner is open either upwards or to the right, not both.
pub open spec fn is_binary_tree(l: Layout) -> bool {
    &&& l.wf()
    &&& l.mirrored()
    &&& l.enclosed()
    &&& forall|x: int, y: int|
        l.contains(x, y) && !is_corner(l, x, y) ==> (#[trigger] l.at(x, y)).top != l.at(x, y).right
}

impl BinaryTree {
    /// What carving the cell at `(x, y)` with the coin `head` makes of a
    /// layout: a passage upwards, a passage to the right, or, in the top
    /// right corner, nothing.
    pub open spec fn step(l: Layout, x: int, y: int, head: bool) -> Layout {
        if turns_up(l.width, l.height, x, y, head) {
            l.carve_up(x, y)
        } else if turns_right(l.width, l.height, x, y, head) {
            l.carve_right(x, y)
        } else {
            l
        }
    }

    /// Carves the cell at `(x, y)` as the coin `head` tells.
    pub fn carve(grid: &mut Grid, x: usize, y: usize, head: bool)
        requires
            old(grid)@.contains(x as int, y as int),
        ensures
            final(grid)@ == Self::step(old(grid)@, x as int, y as int, head),
    {
        let width: usize = grid.width();
        let height: usize = grid.height();
        if y < height - 1 && (head || x == width - 1) {
            grid.carve_up(x, y);
        }
        if x < width - 1 && (!head || y == height - 1) {
            grid.carve_right(x, y);
        }
    }

    /// The maze in print: a heading with the algorithm's name and the size
    /// of the grid, then the diagram of the grid.
    pub fn to_text(&self) -> (text: String)
        ensures
            text@ == titled("BinaryTree"@, self.grid@),
    {
        titled_text("BinaryTree", &self.grid)
    }
}

impl GeneratorAlgorithm for BinaryTree {
    open spec fn layout(&self) -> Layout {
        self.grid@
    }

    /// Carves the cells row by row from the bottom left, with one coin flip
    /// for each. Whatever the coins show, the outcome is a binary tree layout,
    /// hence a maze, and its top right corner is closed upwards and to the
    /// right.
    fn create(width: usize, height: usize) -> (maze: Self)
        ensures
            is_binary_tree(maze.grid@),
            width > 0 && height > 0 ==> !maze.grid@.at(width - 1, height - 1).top
                && !maze.grid@.at(width - 1, height - 1).right,
    {
        let mut grid = Grid::new(width, height);
        let mut rng: ThreadRng = rand::thread_rng();
        proof {
            lemma_blank_is_start(width as nat, height as nat);
        }
        for y in 0..height
            invariant
                grid@.width == width,
                grid@.height == height,
                carved_until(grid@, 0, y as int),
        {
            for x in 0..width
                invariant
                    y < height,
                    grid@.width == width,
                    grid@.height == height,
                    carved_until(grid@, x as int, y as int),
            {
                let head: bool = flip(&mut rng);
                proof {
                    lemma_step_carves(grid@, x as int, y as int, head);
                }
                Self::carve(&mut grid, x, y, head);
            }
            proof {
                lemma_next_row(grid@, y as int);
            }
        }
        proof {
            lemma_carved_all(grid@);
            lemma_binary_tree_is_maze(grid@);
        }
        BinaryTree { grid }
    }
}

/// What the binary tree carving has made of the cell at `(x, y)` once it has
/// reached `(cx, cy)`: a cell before `(cx, cy)` other than the corner is open
/// either upwards or to the right, and a cell from `(cx, cy)` on is closed on
/// both of these sides.
pub open spec fn carved_cell(l: Layout, cx: int, cy: int, x: int, y: int) -> bool {
    let c = l.at(x, y);
    if before(x, y, cx, cy) {
        is_corner(l, x, y) || c.top != c.right
    } else {
        !c.top && !c.right
    }
}

/// The binary tree carving has reached `(cx, cy)`: every cell is as
/// `carved_cell` says.
pub open spec fn carved_until(l: Layout, cx: int, cy: int) -> bool {
    &&& l.wf()
    &&& l.mirrored()
    &&& l.enclosed()
    &&& forall|x: int, y: int| l.contains(x, y) ==> #[trigger] carved_cell(l, cx, cy, x, y)
}

/// Before the first cell is carved, the carving has reached `(0, 0)`.
pub proof fn lemma_blank_is_start(width: nat, height: nat)
    ensures
        carved_until(Layout::blank(width, height), 0, 0),
{
    let l = Layout::blank(width, height);
    lemma_blank(width, height);
    assert forall|x: int, y: int| l.contains(x, y) implies #[trigger] carved_cell(
        l,
        0,
        0,
        x,
        y,
    ) by {
        assert(l.at(x, y) == Cell::walled());
    }
}

/// Carving the cell that the carving has reached moves it on by one cell.
pub proof fn lemma_step_carves(l: Layout, x: int, y: int, head: bool)
    requires
        carved_until(l, x, y),
        l.contains(x, y),
    ensures
        BinaryTree::step(l, x, y, head).width == l.width,
        BinaryTree::step(l, x, y, head).height == l.height,
        carved_until(BinaryTree::step(l, x, y, head), x + 1, y),
{
    let after = BinaryTree::step(l, x, y, head);
    if turns_up(l.width, l.height, x, y, head) {
        lemma_carve_up(l, x, y);
    } else if turns_right(l.width, l.height, x, y, head) {
        lemma_carve_right(l, x, y);
    }
    assert forall|x2: int, y2: int| after.contains(x2, y2) implies #[trigger] carved_cell(
        after,
        x + 1,
        y,
        x2,
        y2,
    ) by {
        assert(carved_cell(l, x, y, x2, y2));
    }
}

/// The end of one row is the start of the next.
pub proof fn lemma_next_row(l: Layout, y: int)
    requires
        carved_until(l, l.width as int, y),
    ensures
        carved_until(l, 0, y + 1),
{
    assert forall|x2: int, y2: int| l.contains(x2, y2) implies #[trigger] carved_cell(
        l,
        0,
        y + 1,
        x2,
        y2,
    ) by {
        assert(carved_cell(l, l.width as int, y, x2, y2));
    }
}

/// Once the carving has passed the last row, the layout is a binary tree
/// layout.
pub proof fn lemma_carved_all(l: Layout)
    requires
        carved_until(l, 0, l.height as int),
    ensures
        is_binary_tree(l),
{
    assert forall|x: int, y: int| l.contains(x, y) && !is_corner(l, x, y) implies (#[trigger] l.at(
        x,
        y,
    )).top != l.at(x, y).right by {
        assert(carved_cell(l, 0, l.height as int, x, y));
    }
}

} // verus!

use vstd::prelude::*;
use crate::layout::Layout;

verus! {

/// Whether the cell at `(x, y)` opens a passage upwards: never in the top
/// row; below it on heads, and in the last column whatever the coin shows.
pub open spec fn turns_up(width: nat, height: nat, x: int, y: int, head: bool) -> bool {
    y < height - 1 && (head || x == width - 1)
}

/// Whether the cell at `(x, y)` opens a passage to the right: never in the
/// last column; before it on tails, and in the top row whatever the coin
/// shows.
pub open spec fn turns_right(width: nat, height: nat, x: int, y: int, head: bool) -> bool {
    x < width - 1 && (!head || y == height - 1)
}

/// In row-major order, `(x, y)` comes before `(cx, cy)`.
pub open spec fn before(x: int, y: int, cx: int, cy: int) -> bool {
    y < cy || (y == cy && x < cx)
}

/// The top right corner of the layout.
pub open spec fn is_corner(l: Layout, x: int, y: int) -> bool {
    x == l.width - 1 && y == l.height - 1
}

/// A way to generate a maze of a given size.
pub trait GeneratorAlgorithm: Sized {
    /// The layout of the generated grid.
    spec fn layout(&self) -> Layout;

    /// A freshly generated maze of `width` columns and `height` rows. The
    /// two sides of each wall agree, no opening points out of the grid, and
    /// the passages form a spanning tree of the cells. With a dimension of
    /// zero the grid has no cell and nothing is carved.
    fn create(width: usize, height: usize) -> (maze: Self)
        requires
            width * height <= usize::MAX,
        ensures
            maze.layout().width == width,
            maze.layout().height == height,
            maze.layout().wf(),
            maze.layout().mirrored(),
            maze.layout().enclosed(),
            width > 0 && height > 0 ==> maze.layout().perfect(),
    ;
}

} // verus!

use vstd::prelude::*;
use rand::rngs::ThreadRng;
use crate::cell::Cell;
use crate::chance::flip;
use crate::chance::pick_from;
use crate::generator::before;
use crate::generator::turns_right;
use crate::generator::turns_up;
use crate::generator::GeneratorAlgorithm;
use crate::grid::Grid;
use crate::layout::lemma_blank;
use crate::layout::lemma_carve_right;
use crate::layout::lemma_carve_up;
use crate::layout::Layout;
use crate::paths::Place;
use crate::render::titled;
use crate::render::titled_text;
use crate::sidewinder_maze::lemma_sidewinder_is_maze;

verus! {

/// A maze in which each row below the top one falls into runs of cells joined
/// left to right, each run with one passage upwards from a cell picked at
/// random, and the top row is one corridor.
pub struct SideWinder {
    pub grid: Grid,
}

/// The cells of row `y` from column `a` up to, but not including, column `b`
/// are all open to the right.
pub open spec fn linked(l: Layout, y: int, a: int, b: int) -> bool {
    forall|i: int| a <= i < b ==> (#[trigger] l.at(i, y)).right
}

/// The cell at `(c, y)` is open upwards, and the cells between it and
/// `(x, y)` are joined left to right.
pub open spec fn exits_at(l: Layout, x: int, y: int, c: int) -> bool {
    &&& 0 <= c < l.width
    &&& l.at(c, y).top
    &&& if c <= x {
        linked(l, y, c, x)
    } else {
        linked(l, y, x, c)
    }
}

/// From `(x, y)` a cell that is open upwards can be reached along the row.
pub open spec fn has_exit(l: Layout, x: int, y: int) -> bool {
    exists|c: int| exits_at(l, x, y, c)
}

/// No two cells of row `y` that are open upwards are joined along the row.
pub open spec fn single_exit(l: Layout, y: int) -> bool {
    forall|a: int, b: int|
        0 <= a < b < l.width && l.at(a, y).top && l.at(b, y).top ==> !#[trigger] linked(l, y, a, b)
}

/// The layouts that the sidewinder algorithm can produce: the walls agree on
/// both sides, none is open towards the outside, the top row is one corridor,
/// and each row below it falls into runs with one way up each: from each cell
/// a cell that is open upwards can be reached along the row, and no two such
/// cells are joined along the row.
pub open spec fn is_sidewinder(l: Layout) -> bool {
    &&& l.wf()
    &&& l.mirrored()
    &&& l.enclosed()
    &&& forall|x: int|
        0 <= x < l.width - 1 && l.height > 0 ==> (#[trigger] l.at(x, l.height - 1)).right
    &&& forall|x: int, y: int|
        l.contains(x, y) && y < l.height - 1 ==> #[trigger] has_exit(l, x, y)
    &&& forall|y: int| 0 <= y < l.height - 1 ==> #[trigger] single_exit(l, y)
}

/// A cell drawn from the run, as a place of the layout.
pub open spec fn as_place(pick: Option<(usize, usize)>) -> Option<Place> {
    match pick {
        Some(p) => Some((p.0 as int, p.1 as int)),
        None => None,
    }
}

impl SideWinder {
    /// What carving the cell at `(x, y)` makes of a layout, with the coin
    /// `head` and with `pick` as the cell of the run that was drawn to open
    /// upwards. The pick counts only where the run ends.
    pub open spec fn step(l: Layout, x: int, y: int, head: bool, pick: Option<Place>) -> Layout {
        if turns_up(l.width, l.height, x, y, head) {
            match pick {
                Some(p) => if l.contains(p.0, p.1) && l.contains(p.0, p.1 + 1) {
                    l.carve_up(p.0, p.1)
                } else {
                    l
                },
                None => l,
            }
        } else if turns_right(l.width, l.height, x, y, head) {
            l.carve_right(x, y)
        } else {
            l
        }
    }

    /// Carves the cell at `(x, y)` as the coin `head` tells: where the run
    /// ends here, the passage upwards is opened from `pick`.
    pub fn carve(grid: &mut Grid, x: usize, y: usize, head: bool, pick: Option<(usize, usize)>)
        requires
            old(grid)@.contains(x as int, y as int),
        ensures
            final(grid)@ == Self::step(old(grid)@, x as int, y as int, head, as_place(pick)),
    {
        let width: usize = grid.width();
        let height: usize = grid.height();
        if y < height - 1 && (head || x == width - 1) {
            match pick {
                Some(cand) => {
                    grid.carve_up(cand.0, cand.1);
                },
                None => {},
            }
        }
        if x < width - 1 && (!head || y == height - 1) {
            grid.carve_right(x, y);
        }
    }

    /// The maze in print: a heading with the algorithm's name and the size
    /// of the grid, then the diagram of the grid.
    pub fn to_text(&self) -> (text: String)
        ensures
            text@ == titled("SideWinder"@, self.grid@),
    {
        titled_text("SideWinder", &self.grid)
    }
}

impl GeneratorAlgorithm for SideWinder {
    open spec fn layout(&self) -> Layout {
        self.grid@
    }

    /// Carves the cells row by row from the bottom left, with one coin flip
    /// for each and one draw from the run wherever a run ends. Whatever the
    /// coins and the draws give, the outcome is a sidewinder layout and a
    /// maze.
    fn create(width: usize, height: usize) -> (maze: Self)
        ensures
            is_sidewinder(maze.grid@),
            forall|x: int|
                0 <= x < width - 1 && height > 0 ==> (#[trigger] maze.grid@.at(
                    x,
                    height - 1,
                )).right,
    {
        let mut grid = Grid::new(width, height);
        let mut rng: ThreadRng = rand::thread_rng();
        let mut run: Vec<(usize, usize)> = Vec::new();
        let ghost mut start: int = 0;
        proof {
            lemma_blank_is_start(width as nat, height as nat);
        }
        for y in 0..height
            invariant
                grid@.width == width,
                grid@.height == height,
                wound_until(grid@, 0, 0, y as int),
                y < height ==> run@.len() == 0,
        {
            proof {
                start = 0;
            }
            for x in 0..width
                invariant
                    y < height,
                    grid@.width == width,
                    grid@.height == height,
                    wound_until(grid@, start, x as int, y as int),
                    run_is(run@, start, x as int, y as int),
            {
                let head: bool = flip(&mut rng);
                run.push((x, y));
                let pick: Option<(usize, usize)> = if y < height - 1 && (head || x == width - 1) {
                    pick_from(&run, &mut rng)
                } else {
                    None
                };
                proof {
                    if pick is Some {
                        let p = pick.unwrap();
                        let i = choose|i: int| 0 <= i < run@.len() && run@[i] == p;
                        assert(run@[i].0 == start + i);
                    }
                    lemma_step_winds(grid@, start, x as int, y as int, head, as_place(pick));
                    start = next_start(grid@, start, x as int, y as int, head);
                }
                Self::carve(&mut grid, x, y, head, pick);
                if pick.is_some() {
                    run = Vec::new();
                }
            }
            proof {
                lemma_next_row(grid@, start, y as int);
            }
        }
        proof {
            lemma_wound_all(grid@);
            lemma_sidewinder_is_maze(grid@);
        }
        SideWinder { grid }
    }
}

/// The run holds the cells of row `y` from column `start` up to, but not
/// including, column `x`, in this order.
pub open spec fn run_is(run: Seq<(usize, usize)>, start: int, x: int, y: int) -> bool {
    &&& 0 <= start <= x
    &&& run.len() == x - start
    &&& forall|i: int| 0 <= i < run.len() ==> (#[trigger] run[i]).0 == start + i && run[i].1 == y
}

/// What the sidewinder carving has made of the cell at `(x, y)` once it has
/// reached `(cx, cy)` with its open run starting at column `start`. In the
/// top row a cell before `(cx, cy)` other than the last is open to the right.
/// Below it, a cell before the run has a way up along its row, and a cell of
/// the run is open to the right and closed upwards. A cell from `(cx, cy)` on
/// is closed on both of these sides.
pub open spec fn wound_cell(l: Layout, start: int, cx: int, cy: int, x: int, y: int) -> bool {
    let c = l.at(x, y);
    if y == l.height - 1 {
        !c.top && (c.right <==> before(x, y, cx, cy) && x < l.width - 1)
    } else if before(x, y, start, cy) {
        has_exit(l, x, y)
    } else if before(x, y, cx, cy) {
        c.right && !c.top
    } else {
        !c.top && !c.right
    }
}

/// The sidewinder carving has reached `(cx, cy)`, with its open run starting
/// at column `start`: every cell is as `wound_cell` says, the run before the
/// open one is closed to the right at its end, and below the top row no two
/// cells that are open upwards are joined along their row.
pub open spec fn wound_until(l: Layout, start: int, cx: int, cy: int) -> bool {
    &&& l.wf()
    &&& l.mirrored()
    &&& l.enclosed()
    &&& 0 <= start <= cx
    &&& cy >= l.height - 1 ==> start == 0
    &&& 0 < start ==> !l.at(start - 1, cy).right
    &&& forall|x: int, y: int| l.contains(x, y) ==> #[trigger] wound_cell(l, start, cx, cy, x, y)
    &&& forall|y: int| 0 <= y < l.height - 1 ==> #[trigger] single_exit(l, y)
}

/// Where the open run starts once the cell at `(x, y)` is carved: behind that
/// cell where the run ends there, and where it started otherwise.
pub open spec fn next_start(l: Layout, start: int, x: int, y: int, head: bool) -> int {
    if turns_up(l.width, l.height, x, y, head) {
        x + 1
    } else {
        start
    }
}

/// Before the first cell is carved, the carving has reached `(0, 0)` and no
/// run is open.
pub proof fn lemma_blank_is_start(width: nat, height: nat)
    ensures
        wound_until(Layout::blank(width, height), 0, 0, 0),
{
    let l = Layout::blank(width, height);
    lemma_blank(width, height);
    assert forall|x: int, y: int| l.contains(x, y) implies #[trigger] wound_cell(
        l,
        0,
        0,
        0,
        x,
        y,
    ) by {
        assert(l.at(x, y) == Cell::walled());
    }
    assert forall|y: int| 0 <= y < l.height - 1 implies #[trigger] single_exit(l, y) by {
        assert forall|a: int, b: int|
            0 <= a < b < l.width && l.at(a, y).top && l.at(b, y).top implies !#[trigger] linked(
            l,
            y,
            a,
            b,
        ) by {
            assert(l.at(a, y) == Cell::walled());
        }
    }
}

/// Row `y` of `l2` has each opening upwards or to the right that row `y` of
/// `l` has.
pub open spec fn row_grows(l: Layout, l2: Layout, y: int) -> bool {
    forall|i: int|
        #![trigger l2.at(i, y)]
        0 <= i < l.width ==> (l.at(i, y).right ==> l2.at(i, y).right) && (l.at(i, y).top ==> l2.at(
            i,
            y,
        ).top)
}

/// Opening walls takes no way up away: a cell that has one keeps it in every
/// layout of the same width that has at least the same openings in that row.
pub proof fn lemma_exit_kept(l: Layout, l2: Layout, x: int, y: int)
    requires
        l.contains(x, y),
        l2.width == l.width,
        row_grows(l, l2, y),
        has_exit(l, x, y),
    ensures
        has_exit(l2, x, y),
{
    let c = choose|c: int| exits_at(l, x, y, c);
    assert(exits_at(l2, x, y, c)) by {
        assert(l2.at(c, y).top);
        if c <= x {
            assert forall|i: int| c <= i < x implies (#[trigger] l2.at(i, y)).right by {
                assert(l.at(i, y).right);
            }
        } else {
            assert forall|i: int| x <= i < c implies (#[trigger] l2.at(i, y)).right by {
                assert(l.at(i, y).right);
            }
        }
    }
}

/// Where no wall of a row is opened upwards or to the right, no two ways up
/// come to be joined.
pub proof fn lemma_single_exit_kept(l: Layout, l2: Layout, y: int)
    requires
        l2.width == l.width,
        row_grows(l2, l, y),
        single_exit(l, y),
    ensures
        single_exit(l2, y),
{
    assert forall|a: int, b: int|
        0 <= a < b < l2.width && l2.at(a, y).top && l2.at(b, y).top implies !#[trigger] linked(
        l2,
        y,
        a,
        b,
    ) by {
        assert(!linked(l, y, a, b));
        let i = choose|i: int| a <= i < b && !l.at(i, y).right;
        assert(!l2.at(i, y).right);
    }
}

/// Carving the cell that the carving has reached, with a pick from the open
/// run, moves the carving on by one cell.
pub proof fn lemma_step_winds(
    l: Layout,
    start: int,
    x: int,
    y: int,
    head: bool,
    pick: Option<Place>,
)
    requires
        wound_until(l, start, x, y),
        l.contains(x, y),
        turns_up(l.width, l.height, x, y, head) ==> pick is Some && start <= pick.unwrap().0 <= x
            && pick.unwrap().1 == y,
    ensures
        SideWinder::step(l, x, y, head, pick).width == l.width,
        SideWinder::step(l, x, y, head, pick).height == l.height,
        wound_until(
            SideWinder::step(l, x, y, head, pick),
            next_start(l, start, x, y, head),
            x + 1,
            y,
        ),
{
    let after = SideWinder::step(l, x, y, head, pick);
    let start2 = next_start(l, start, x, y, head);
    assert(wound_cell(l, start, x, y, x, y));
    if turns_up(l.width, l.height, x, y, head) {
        let px = pick.unwrap().0;
        lemma_carve_up(l, px, y);
        assert(wound_cell(l, start, x, y, px, y));
        assert forall|i: int| start <= i < x implies (#[trigger] after.at(i, y)).right by {
            assert(wound_cell(l, start, x, y, i, y));
        }
        assert forall|x2: int, y2: int| after.contains(x2, y2) implies #[trigger] wound_cell(
            after,
            start2,
            x + 1,
            y,
            x2,
            y2,
        ) by {
            assert(wound_cell(l, start, x, y, x2, y2));
            if y2 == l.height - 1 {
            } else if before(x2, y2, start, y) {
                lemma_exit_kept(l, after, x2, y2);
            } else if before(x2, y2, x + 1, y) {
                assert(exits_at(after, x2, y, px));
            }
        }
        assert forall|y2: int| 0 <= y2 < l.height - 1 implies #[trigger] single_exit(after, y2) by {
            assert(single_exit(l, y2));
            if y2 != y {
                lemma_single_exit_kept(l, after, y2);
            } else {
                assert forall|a: int, b: int|
                    0 <= a < b < l.width && after.at(a, y).top && after.at(
                        b,
                        y,
                    ).top implies !#[trigger] linked(after, y, a, b) by {
                    assert(wound_cell(l, start, x, y, a, y));
                    assert(wound_cell(l, start, x, y, b, y));
                    if b == px {
                        assert(!after.at(start - 1, y).right);
                    } else {
                        assert(!linked(l, y, a, b));
                        let i = choose|i: int| a <= i < b && !l.at(i, y).right;
                        assert(!after.at(i, y).right);
                    }
                }
            }
        }
    } else if turns_right(l.width, l.height, x, y, head) {
        lemma_carve_right(l, x, y);
        assert forall|x2: int, y2: int| after.contains(x2, y2) implies #[trigger] wound_cell(
            after,
            start2,
            x + 1,
            y,
            x2,
            y2,
        ) by {
            assert(wound_cell(l, start, x, y, x2, y2));
            if y2 != l.height - 1 && before(x2, y2, start, y) {
                lemma_exit_kept(l, after, x2, y2);
            }
        }
        assert forall|y2: int| 0 <= y2 < l.height - 1 implies #[trigger] single_exit(after, y2) by {
            assert(single_exit(l, y2));
            if y2 != y {
                lemma_single_exit_kept(l, after, y2);
            } else {
                assert forall|a: int, b: int|
                    0 <= a < b < l.width && after.at(a, y).top && after.at(
                        b,
                        y,
                    ).top implies !#[trigger] linked(after, y, a, b) by {
                    assert(wound_cell(l, start, x, y, b, y));
                    assert(!linked(l, y, a, b));
                    let i = choose|i: int| a <= i < b && !l.at(i, y).right;
                    assert(!after.at(i, y).right);
                }
            }
        }
    } else {
        assert forall|x2: int, y2: int| after.contains(x2, y2) implies #[trigger] wound_cell(
            after,
            start2,
            x + 1,
            y,
            x2,
            y2,
        ) by {
            assert(wound_cell(l, start, x, y, x2, y2));
        }
    }
}

/// The end of one row is the start of the next, with no run open.
pub proof fn lemma_next_row(l: Layout, start: int, y: int)
    requires
        wound_until(l, start, l.width as int, y),
        0 <= y < l.height,
    ensures
        y < l.height - 1 ==> start == l.width,
        wound_until(l, 0, 0, y + 1),
{
    if y < l.height - 1 && start < l.width {
        assert(wound_cell(l, start, l.width as int, y, l.width - 1, y));
        assert(l.at(l.width - 1, y).right);
    }
    assert forall|x2: int, y2: int| l.contains(x2, y2) implies #[trigger] wound_cell(
        l,
        0,
        0,
        y + 1,
        x2,
        y2,
    ) by {
        assert(wound_cell(l, start, l.width as int, y, x2, y2));
        assert(before(x2, y2, 0, y + 1) == before(x2, y2, l.width as int, y));
    }
    assert forall|y2: int| 0 <= y2 < l.height - 1 implies #[trigger] single_exit(l, y2) by {}
}

/// Once the carving has passed the last row, the layout is a sidewinder
/// layout.
pub proof fn lemma_wound_all(l: Layout)
    requires
        wound_until(l, 0, 0, l.height as int),
    ensures
        is_sidewinder(l),
{
    assert forall|x: int| 0 <= x < l.width - 1 && l.height > 0 implies (#[trigger] l.at(
        x,
        l.height - 1,
    )).right by {
        assert(wound_cell(l, 0, 0, l.height as int, x, l.height - 1));
    }
    assert forall|x: int, y: int| l.contains(x, y) && y < l.height - 1 implies #[trigger] has_exit(
        l,
        x,
        y,
    ) by {
        assert(wound_cell(l, 0, 0, l.height as int, x, y));
    }
}

} // verus!

use vstd::prelude::*;
use crate::cell::Cell;
use crate::layout::lemma_tally_row;
use crate::layout::tally;
use crate::layout::Layout;
use crate::paths::lemma_connected_refl;
use crate::paths::lemma_connected_step;
use crate::paths::lemma_connected_sym;
use crate::paths::lemma_connected_through;
use crate::paths::lemma_connected_trans;
use crate::paths::lemma_ranked_is_acyclic;
use crate::paths::Place;
use crate::sidewinder::exits_at;
use crate::sidewinder::has_exit;
use crate::sidewinder::is_sidewinder;
use crate::sidewinder::linked;
use crate::sidewinder::single_exit;

verus! {

/// Cells of one row that are joined left to right are connected.
pub proof fn lemma_linked_connected(l: Layout, y: int, a: int, b: int)
    requires
        l.mirrored(),
        l.contains(a, y),
        l.contains(b, y),
        a <= b,
        linked(l, y, a, b),
    ensures
        l.connected((a, y), (b, y)),
    decreases b - a,
{
    if a == b {
        lemma_connected_refl(l, (a, y));
    } else {
        lemma_linked_connected(l, y, a, b - 1);
        assert(l.at(b - 1, y).right);
        assert(l.joined((b - 1, y), (b, y)));
        lemma_connected_step(l, (b - 1, y), (b, y));
        lemma_connected_trans(l, (a, y), (b - 1, y), (b, y));
    }
}

/// In a sidewinder layout every cell is connected to the top right corner:
/// along the row to the way up, up one row, and so on to the top corridor.
pub proof fn lemma_reaches_corner(l: Layout, x: int, y: int)
    requires
        is_sidewinder(l),
        l.contains(x, y),
    ensures
        l.connected((x, y), (l.width - 1, l.height - 1)),
    decreases l.height - y,
{
    let corner = (l.width - 1, l.height - 1);
    if y == l.height - 1 {
        assert(linked(l, y, x, l.width - 1));
        lemma_linked_connected(l, y, x, l.width - 1);
    } else {
        assert(has_exit(l, x, y));
        let c = choose|c: int| exits_at(l, x, y, c);
        if c <= x {
            lemma_linked_connected(l, y, c, x);
            lemma_connected_sym(l, (c, y), (x, y));
        } else {
            lemma_linked_connected(l, y, x, c);
        }
        assert(l.joined((c, y), (c, y + 1)));
        lemma_connected_step(l, (c, y), (c, y + 1));
        lemma_connected_trans(l, (x, y), (c, y), (c, y + 1));
        lemma_reaches_corner(l, c, y + 1);
        lemma_connected_trans(l, (x, y), (c, y + 1), corner);
    }
}

/// In a row where no two ways up are joined, a cell has at most one way up
/// along the row.
pub proof fn lemma_exit_unique(l: Layout, x: int, y: int, c1: int, c2: int)
    requires
        single_exit(l, y),
        exits_at(l, x, y, c1),
        exits_at(l, x, y, c2),
    ensures
        c1 == c2,
{
    if c1 < c2 {
        assert(linked(l, y, c1, c2));
    } else if c2 < c1 {
        assert(linked(l, y, c2, c1));
    }
}

/// The column of the way up from the cell at `(x, y)`.
pub open spec fn exit_of(l: Layout, x: int, y: int) -> int {
    choose|c: int| exits_at(l, x, y, c)
}

/// The next cell on the way from the cell at `a` to the top right corner: in
/// the top row the cell to its right; below it the next cell towards the way
/// up, and from there the cell above.
pub open spec fn parent(l: Layout, a: Place) -> Place {
    if a.1 == l.height - 1 || a.0 < exit_of(l, a.0, a.1) {
        (a.0 + 1, a.1)
    } else if a.0 > exit_of(l, a.0, a.1) {
        (a.0 - 1, a.1)
    } else {
        (a.0, a.1 + 1)
    }
}

/// A bound on the number of steps from the cell at `a` to the top right
/// corner: a full row for each row still to climb, and the steps to the way
/// up.
pub open spec fn rank(l: Layout, a: Place) -> int {
    if a.1 == l.height - 1 {
        l.width - 1 - a.0
    } else if a.0 < exit_of(l, a.0, a.1) {
        (l.height - 1 - a.1) * l.width + exit_of(l, a.0, a.1) - a.0
    } else {
        (l.height - 1 - a.1) * l.width + a.0 - exit_of(l, a.0, a.1)
    }
}

/// Two cells that are joined side by side, in a row where no two ways up are
/// joined, have the same way up.
pub proof fn lemma_same_exit(l: Layout, x: int, y: int)
    requires
        has_exit(l, x, y),
        has_exit(l, x + 1, y),
        single_exit(l, y),
        l.at(x, y).right,
    ensures
        exit_of(l, x, y) == exit_of(l, x + 1, y),
        exits_at(l, x, y, exit_of(l, x, y)),
{
    let c = exit_of(l, x, y);
    let d = exit_of(l, x + 1, y);
    assert(exits_at(l, x, y, c));
    assert(exits_at(l, x + 1, y, d));
    assert(exits_at(l, x + 1, y, c)) by {
        if c <= x {
            assert forall|i: int| c <= i < x + 1 implies (#[trigger] l.at(i, y)).right by {
                if i < x {
                    assert(linked(l, y, c, x));
                }
            }
        } else {
            assert forall|i: int| x + 1 <= i < c implies (#[trigger] l.at(i, y)).right by {
                assert(linked(l, y, x, c));
            }
        }
    }
    lemma_exit_unique(l, x + 1, y, c, d);
}

/// Two cells below the top row that are joined side by side: one is the
/// parent of the other, and nearer to the corner.
proof fn lemma_parent_beside(l: Layout, x: int, y: int)
    requires
        y != l.height - 1,
        has_exit(l, x, y),
        has_exit(l, x + 1, y),
        single_exit(l, y),
        l.at(x, y).right,
    ensures
        (parent(l, (x, y)) == (x + 1, y) && rank(l, (x + 1, y)) < rank(l, (x, y))) || (parent(
            l,
            (x + 1, y),
        ) == (x, y) && rank(l, (x, y)) < rank(l, (x + 1, y))),
{
    lemma_same_exit(l, x, y);
}

/// Two cells that are joined one above the other, in a row where no two ways
/// up are joined: the upper one is the parent of the lower one, and nearer to
/// the corner.
proof fn lemma_parent_above(l: Layout, x: int, y: int)
    requires
        0 <= x < l.width,
        0 <= y < l.height - 1,
        single_exit(l, y),
        l.at(x, y).top,
        y + 1 < l.height - 1 ==> has_exit(l, x, y + 1),
    ensures
        parent(l, (x, y)) == (x, y + 1),
        rank(l, (x, y + 1)) < rank(l, (x, y)),
{
    assert(exits_at(l, x, y, x));
    lemma_exit_unique(l, x, y, x, exit_of(l, x, y));
    let climb = l.height - 1 - y;
    assert(climb * l.width == (climb - 1) * l.width + l.width) by (nonlinear_arith);
    if y + 1 < l.height - 1 {
        let d = exit_of(l, x, y + 1);
        assert(exits_at(l, x, y + 1, d));
    }
}

/// A sidewinder layout has no round trip: each passage leads from a cell to
/// the next cell on its way to the corner.
pub proof fn lemma_sidewinder_is_acyclic(l: Layout)
    requires
        is_sidewinder(l),
    ensures
        l.acyclic(),
{
    let steps = |a: Place| rank(l, a);
    let next = |a: Place| parent(l, a);
    assert forall|a: Place, b: Place| #[trigger] l.joined(a, b) implies (next(a) == b && steps(b)
        < steps(a)) || (next(b) == a && steps(a) < steps(b)) by {
        let (lo, hi) = if b.0 == a.0 + 1 || b.1 == a.1 + 1 {
            (a, b)
        } else {
            (b, a)
        };
        if lo.1 < l.height - 1 {
            assert(has_exit(l, lo.0, lo.1));
            assert(single_exit(l, lo.1));
        }
        if hi.1 < l.height - 1 {
            assert(has_exit(l, hi.0, hi.1));
        }
        if hi.1 == lo.1 {
            if lo.1 < l.height - 1 {
                lemma_parent_beside(l, lo.0, lo.1);
            }
        } else {
            lemma_parent_above(l, lo.0, lo.1);
        }
    }
    lemma_ranked_is_acyclic(l, steps, next);
}

/// Whether the run that the cell before column `n` of row `y` belongs to goes
/// on past that cell and has its way up before column `n`.
pub open spec fn run_paid(l: Layout, y: int, n: int) -> bool {
    n > 0 && l.at(n - 1, y).right && exit_of(l, n - 1, y) < n
}

/// In a row where each cell has one way up, the first `n` cells account for
/// `n` passages: each cell for the one to its right, and the last cell of a
/// run for the way up of the run instead. Where the run goes on past the
/// first `n` cells and has its way up among them, that way up is one more.
proof fn lemma_run_passages(l: Layout, y: int, n: int)
    requires
        0 <= n <= l.width,
        forall|x: int| 0 <= x < l.width ==> #[trigger] has_exit(l, x, y),
        single_exit(l, y),
    ensures
        l.row_passages(y, n) == n + (if run_paid(l, y, n) {
            1int
        } else {
            0int
        }),
    decreases n,
{
    if n > 0 {
        let x = n - 1;
        lemma_run_passages(l, y, x);
        assert(has_exit(l, x, y));
        let c = exit_of(l, x, y);
        assert(exits_at(l, x, y, c));
        if l.at(x, y).top {
            assert(exits_at(l, x, y, x));
            lemma_exit_unique(l, x, y, x, c);
        }
        if x > 0 && l.at(x - 1, y).right {
            assert(has_exit(l, x - 1, y));
            lemma_same_exit(l, x - 1, y);
        } else if c < x {
            assert(linked(l, y, c, x));
            assert(l.at(x - 1, y).right);
        }
        if !l.at(x, y).right && c > x {
            assert(linked(l, y, x, c));
            assert(l.at(x, y).right);
        }
    }
}

/// In the top row of a sidewinder layout the first `n` cells account for one
/// passage each, but for the last cell of the row, which accounts for none.
proof fn lemma_corridor_passages(l: Layout, n: int)
    requires
        is_sidewinder(l),
        l.height > 0,
        0 <= n <= l.width,
    ensures
        l.row_passages(l.height - 1, n) == (if n == l.width && n > 0 {
            n - 1
        } else {
            n
        }),
    decreases n,
{
    if n > 0 {
        lemma_corridor_passages(l, n - 1);
        let c = l.at(n - 1, l.height - 1);
        assert(l.contains(n - 1, l.height - 1));
        assert(!c.top);
        assert(c.right <==> n - 1 < l.width - 1);
    }
}

/// The rows below row `y` of a sidewinder layout, `y` not above the top row,
/// account for one passage for each of their cells.
proof fn lemma_lower_rows_passages(l: Layout, y: int)
    requires
        is_sidewinder(l),
        0 <= y <= l.height - 1,
    ensures
        0 <= y * l.width <= l.cells.len(),
        tally(l.cells.take(y * l.width)) == y * l.width,
    decreases y,
{
    if y > 0 {
        lemma_lower_rows_passages(l, y - 1);
        lemma_tally_row(l, y - 1, l.width as int);
        assert forall|x: int| 0 <= x < l.width implies #[trigger] has_exit(l, x, y - 1) by {
            assert(l.contains(x, y - 1));
        }
        assert(single_exit(l, y - 1));
        lemma_run_passages(l, y - 1, l.width as int);
        if l.width > 0 {
            assert(l.contains(l.width - 1, y - 1));
            assert(!l.at(l.width - 1, y - 1).right);
        }
        assert((y - 1) * l.width + l.width == y * l.width) by (nonlinear_arith);
    } else {
        assert(l.cells.take(0) =~= Seq::<Cell>::empty());
    }
}

/// A sidewinder layout with a cell in it has one passage fewer than cells:
/// one for each cell but the top right corner.
pub proof fn lemma_sidewinder_passages(l: Layout)
    requires
        is_sidewinder(l),
        l.width > 0,
        l.height > 0,
    ensures
        l.passages() + 1 == l.width * l.height,
{
    let top = l.height - 1;
    lemma_lower_rows_passages(l, top);
    lemma_tally_row(l, top, l.width as int);
    lemma_corridor_passages(l, l.width as int);
    assert(top * l.width + l.width == l.width * l.height) by (nonlinear_arith)
        requires
            top == l.height - 1,
    ;
    assert(l.cells.take(l.cells.len() as int) =~= l.cells);
}

/// A sidewinder layout is a maze: every cell is connected to the top right
/// corner, there is no round trip, and there is one passage fewer than cells.
pub proof fn lemma_sidewinder_is_maze(l: Layout)
    requires
        is_sidewinder(l),
    ensures
        l.is_maze(),
{
    if l.width > 0 && l.height > 0 {
        let corner = (l.width - 1, l.height - 1);
        assert forall|a: Place| l.contains(a.0, a.1) implies #[trigger] l.connected(a, corner) by {
            lemma_reaches_corner(l, a.0, a.1);
        }
        lemma_connected_through(l, corner);
        lemma_sidewinder_is_acyclic(l);
        lemma_sidewinder_passages(l);
    }
}

} // verus!

use vstd::prelude::*;
use crate::binary_tree::is_binary_tree;
use crate::generator::is_corner;
use crate::layout::lemma_index_cell;
use crate::layout::lemma_index_in_bounds;
use crate::layout::lemma_tally_ones;
use crate::layout::Layout;
use crate::paths::lemma_connected_refl;
use crate::paths::lemma_connected_step;
use crate::paths::lemma_connected_through;
use crate::paths::lemma_connected_trans;
use crate::paths::lemma_ranked_is_acyclic;
use crate::paths::Place;

verus! {

/// In a binary tree layout every cell is connected to the top right corner:
/// walk on through the one opening of each cell, which leads up or right.
pub proof fn lemma_reaches_corner(l: Layout, x: int, y: int)
    requires
        is_binary_tree(l),
        l.contains(x, y),
    ensures
        l.connected((x, y), (l.width - 1, l.height - 1)),
    decreases l.width - x + l.height - y,
{
    let corner = (l.width - 1, l.height - 1);
    if is_corner(l, x, y) {
        lemma_connected_refl(l, (x, y));
    } else {
        let c = l.at(x, y);
        let next = if c.top {
            (x, y + 1)
        } else {
            (x + 1, y)
        };
        assert(l.joined((x, y), next));
        lemma_connected_step(l, (x, y), next);
        lemma_reaches_corner(l, next.0, next.1);
        lemma_connected_trans(l, (x, y), next, corner);
    }
}

/// The cell that the one opening of the cell at `a` leads to: the cell above
/// it or the cell to its right.
pub open spec fn parent(l: Layout, a: Place) -> Place {
    if l.at(a.0, a.1).top {
        (a.0, a.1 + 1)
    } else {
        (a.0 + 1, a.1)
    }
}

/// A binary tree layout has no round trip: each passage leads up or right
/// from a cell that has no other such passage.
pub proof fn lemma_binary_tree_is_acyclic(l: Layout)
    requires
        is_binary_tree(l),
    ensures
        l.acyclic(),
{
    let rank = |a: Place| -(a.0 + a.1);
    let up = |a: Place| parent(l, a);
    assert forall|a: Place, b: Place| #[trigger] l.joined(a, b) implies (up(a) == b && rank(b)
        < rank(a)) || (up(b) == a && rank(a) < rank(b)) by {
        let ca = l.at(a.0, a.1);
        let cb = l.at(b.0, b.1);
        if b.0 == a.0 + 1 && b.1 == a.1 && ca.right {
            assert(!ca.top);
        } else if a.0 == b.0 + 1 && a.1 == b.1 && cb.right {
            assert(!cb.top);
        }
    }
    lemma_ranked_is_acyclic(l, rank, up);
}

/// A binary tree layout with a cell in it has one passage fewer than cells:
/// one for each cell but the top right corner.
pub proof fn lemma_binary_tree_passages(l: Layout)
    requires
        is_binary_tree(l),
        l.width > 0,
        l.height > 0,
    ensures
        l.passages() + 1 == l.width * l.height,
{
    let n = l.cells.len() as int;
    lemma_index_in_bounds(l, l.width - 1, l.height - 1);
    assert(l.index(l.width - 1, l.height - 1) == n - 1) by (nonlinear_arith)
        requires
            l.index(l.width - 1, l.height - 1) == (l.height - 1) * l.width + (l.width - 1),
            n == l.width * l.height,
    ;
    assert(l.cells.last() == l.at(l.width - 1, l.height - 1));
    assert(l.cells.last().weight() == 0);
    let rest = l.cells.drop_last();
    assert forall|i: int| 0 <= i < rest.len() implies (#[trigger] rest[i]).weight() == 1 by {
        let x = i % (l.width as int);
        let y = i / (l.width as int);
        lemma_index_cell(l, i);
        assert(rest[i] == l.at(x, y));
        if is_corner(l, x, y) {
            assert(l.index(x, y) == n - 1);
        }
    }
    lemma_tally_ones(rest);
}

/// A binary tree layout is a maze: every cell is connected to the top right
/// corner, there is no round trip, and there is one passage fewer than cells.
pub proof fn lemma_binary_tree_is_maze(l: Layout)
    requires
        is_binary_tree(l),
    ensures
        l.is_maze(),
{
    if l.width > 0 && l.height > 0 {
        let corner = (l.width - 1, l.height - 1);
        assert forall|a: Place| l.contains(a.0, a.1) implies #[trigger] l.connected(a, corner) by {
            lemma_reaches_corner(l, a.0, a.1);
        }
        lemma_connected_through(l, corner);
        lemma_binary_tree_is_acyclic(l);
        lemma_binary_tree_passages(l);
    }
}

} // verus!

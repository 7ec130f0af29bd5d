use vstd::prelude::*;
use crate::layout::Layout;

verus! {

/// A coordinate: column, then row.
pub type Place = (int, int);

impl Layout {
    /// `a` and `b` are neighbours in the grid with a passage between them:
    /// the wall is open on both sides.
    pub open spec fn joined(self, a: Place, b: Place) -> bool {
        &&& self.contains(a.0, a.1)
        &&& self.contains(b.0, b.1)
        &&& {
            ||| b.0 == a.0 + 1 && b.1 == a.1 && self.at(a.0, a.1).right && self.at(b.0, b.1).left
            ||| a.0 == b.0 + 1 && a.1 == b.1 && self.at(b.0, b.1).right && self.at(a.0, a.1).left
            ||| b.0 == a.0 && b.1 == a.1 + 1 && self.at(a.0, a.1).top && self.at(b.0, b.1).bottom
            ||| a.0 == b.0 && a.1 == b.1 + 1 && self.at(b.0, b.1).top && self.at(a.0, a.1).bottom
        }
    }

    /// `p` is a walk through the grid: it starts on a cell, and each of its
    /// places is joined to the next.
    pub open spec fn is_path(self, p: Seq<Place>) -> bool {
        &&& p.len() > 0
        &&& self.contains(p[0].0, p[0].1)
        &&& forall|i: int| 0 <= i < p.len() - 1 ==> self.joined(#[trigger] p[i], p[i + 1])
    }

    /// There is a walk from `a` to `b`.
    pub open spec fn connected(self, a: Place, b: Place) -> bool {
        exists|p: Seq<Place>| self.is_path(p) && p.first() == a && p.last() == b
    }

    /// Every cell can be reached from every other.
    pub open spec fn fully_connected(self) -> bool {
        forall|a: Place, b: Place|
            self.contains(a.0, a.1) && self.contains(b.0, b.1) ==> #[trigger] self.connected(a, b)
    }

    /// `p` is a round trip: a walk that comes back to where it started after
    /// at least three cells, none of them visited twice.
    pub open spec fn is_cycle(self, p: Seq<Place>) -> bool {
        &&& self.is_path(p)
        &&& p.len() >= 4
        &&& p.first() == p.last()
        &&& forall|i: int, j: int| 0 <= i < j < p.len() - 1 ==> p[i] != p[j]
    }

    /// There is no round trip.
    pub open spec fn acyclic(self) -> bool {
        forall|p: Seq<Place>| !self.is_cycle(p)
    }

    /// The passages form a spanning tree of the cells: every cell can be
    /// reached from every other, there is no round trip, and there is one
    /// passage fewer than there are cells.
    pub open spec fn perfect(self) -> bool {
        &&& self.fully_connected()
        &&& self.acyclic()
        &&& self.passages() + 1 == self.width * self.height
    }

    /// What every generated maze is. The two sides of each wall agree, no
    /// opening points out of the grid, and unless the grid is empty the
    /// passages form a spanning tree.
    pub open spec fn is_maze(self) -> bool {
        &&& self.wf()
        &&& self.mirrored()
        &&& self.enclosed()
        &&& self.width > 0 && self.height > 0 ==> self.perfect()
    }
}

/// In a mirrored and enclosed layout the openings that `passages` counts are
/// the pairs of joined cells, each counted on its left or lower cell: a cell
/// is open to the right exactly when it is joined to the cell on its right,
/// and open upwards exactly when it is joined to the cell above it.
pub proof fn lemma_openings_are_joins(l: Layout, x: int, y: int)
    requires
        l.mirrored(),
        l.enclosed(),
        l.contains(x, y),
    ensures
        l.at(x, y).right <==> l.joined((x, y), (x + 1, y)),
        l.at(x, y).top <==> l.joined((x, y), (x, y + 1)),
{
    if l.at(x, y).right {
        assert(l.at(x + 1, y).left);
    }
    if l.at(x, y).top {
        assert(l.at(x, y + 1).bottom);
    }
}

/// Every cell is connected to itself.
pub proof fn lemma_connected_refl(l: Layout, a: Place)
    requires
        l.contains(a.0, a.1),
    ensures
        l.connected(a, a),
{
    let p = seq![a];
    assert(l.is_path(p) && p.first() == a && p.last() == a);
}

/// Two joined cells are connected.
pub proof fn lemma_connected_step(l: Layout, a: Place, b: Place)
    requires
        l.joined(a, b),
    ensures
        l.connected(a, b),
{
    let p = seq![a, b];
    assert(l.is_path(p) && p.first() == a && p.last() == b);
}

/// A walk read backwards is a walk.
pub proof fn lemma_connected_sym(l: Layout, a: Place, b: Place)
    requires
        l.connected(a, b),
    ensures
        l.connected(b, a),
{
    let p = choose|p: Seq<Place>| l.is_path(p) && p.first() == a && p.last() == b;
    let n = p.len() as int;
    let q = Seq::new(p.len(), |i: int| p[n - 1 - i]);
    assert(l.contains(b.0, b.1)) by {
        if n > 1 {
            assert(l.joined(p[n - 2], p[n - 2 + 1]));
        }
    }
    assert forall|i: int| 0 <= i < q.len() - 1 implies l.joined(#[trigger] q[i], q[i + 1]) by {
        assert(l.joined(p[n - 2 - i], p[n - 2 - i + 1]));
    }
    assert(l.is_path(q) && q.first() == b && q.last() == a);
}

/// Two walks that meet make one walk.
pub proof fn lemma_connected_trans(l: Layout, a: Place, b: Place, c: Place)
    requires
        l.connected(a, b),
        l.connected(b, c),
    ensures
        l.connected(a, c),
{
    let p = choose|p: Seq<Place>| l.is_path(p) && p.first() == a && p.last() == b;
    let q = choose|q: Seq<Place>| l.is_path(q) && q.first() == b && q.last() == c;
    let r = p + q.drop_first();
    assert forall|i: int| 0 <= i < r.len() - 1 implies l.joined(#[trigger] r[i], r[i + 1]) by {
        if i < p.len() - 1 {
            assert(l.joined(p[i], p[i + 1]));
        } else {
            let j = i - (p.len() - 1);
            assert(l.joined(q[j], q[j + 1]));
        }
    }
    assert(l.is_path(r) && r.first() == a && r.last() == c);
}

/// Where every cell is connected to one cell, every cell is connected to
/// every other.
pub proof fn lemma_connected_through(l: Layout, hub: Place)
    requires
        forall|a: Place| l.contains(a.0, a.1) ==> #[trigger] l.connected(a, hub),
    ensures
        l.fully_connected(),
{
    assert forall|a: Place, b: Place|
        l.contains(a.0, a.1) && l.contains(b.0, b.1) implies #[trigger] l.connected(a, b) by {
        assert(l.connected(a, hub));
        assert(l.connected(b, hub));
        lemma_connected_sym(l, b, hub);
        lemma_connected_trans(l, a, hub, b);
    }
}

/// Among the first `n` places of `p` there is one of greatest rank.
pub proof fn lemma_highest(p: Seq<Place>, rank: spec_fn(Place) -> int, n: int) -> (m: int)
    requires
        0 < n <= p.len(),
    ensures
        0 <= m < n,
        forall|i: int| 0 <= i < n ==> rank(#[trigger] p[i]) <= rank(p[m]),
    decreases n,
{
    if n == 1 {
        0
    } else {
        let m = lemma_highest(p, rank, n - 1);
        if rank(p[n - 1]) > rank(p[m]) {
            n - 1
        } else {
            m
        }
    }
}

/// Where each passage leads from a cell to its parent, a cell of lower rank,
/// there is no round trip: the cell of highest rank on it would have two
/// parents.
pub proof fn lemma_ranked_is_acyclic(
    l: Layout,
    rank: spec_fn(Place) -> int,
    parent: spec_fn(Place) -> Place,
)
    requires
        forall|a: Place, b: Place| #[trigger]
            l.joined(a, b) ==> (parent(a) == b && rank(b) < rank(a)) || (parent(b) == a && rank(a)
                < rank(b)),
    ensures
        l.acyclic(),
{
    assert forall|p: Seq<Place>| !l.is_cycle(p) by {
        if l.is_cycle(p) {
            let n = p.len() - 1;
            let m = lemma_highest(p, rank, n);
            let next = p[m + 1];
            let prev_at = if m == 0 {
                n - 1
            } else {
                m - 1
            };
            let next_at = if m == n - 1 {
                0
            } else {
                m + 1
            };
            let prev = p[prev_at];
            assert(p[next_at] == next);
            assert(rank(p[next_at]) <= rank(p[m]));
            assert(rank(p[prev_at]) <= rank(p[m]));
            assert(l.joined(p[m], p[m + 1]));
            assert(l.joined(p[prev_at], p[prev_at + 1]));
            assert(p[prev_at + 1] == p[m]);
            assert(parent(p[m]) == next);
            assert(parent(p[m]) == prev);
            assert(prev_at != next_at);
            assert(p[prev_at] != p[next_at]);
        }
    }
}

} // verus!

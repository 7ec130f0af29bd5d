use vstd::prelude::*;
use crate::cell::Cell;
use crate::decimal::decimal;
use crate::decimal::push_decimal;
use crate::grid::Grid;
use crate::layout::Layout;

verus! {

/// The upper edge of a cell in the diagram, with the corner post to its
/// right: dashes where the wall stands, blanks where the cell is open upwards.
pub open spec fn roof(c: Cell) -> Seq<char> {
    if c.top {
        seq![' ', ' ', ' ', '+']
    } else {
        seq!['-', '-', '-', '+']
    }
}

/// The inside of a cell in the diagram, with the wall to its right: a bar
/// where the wall stands, a blank where the cell is open to the right.
pub open spec fn body(c: Cell) -> Seq<char> {
    if c.right {
        seq![' ', ' ', ' ', ' ']
    } else {
        seq![' ', ' ', ' ', '|']
    }
}

/// `n` closed upper edges side by side.
pub open spec fn floor(n: int) -> Seq<char>
    decreases n,
{
    if n <= 0 {
        Seq::empty()
    } else {
        floor(n - 1) + roof(Cell::walled())
    }
}

/// The lines joined into one text, each ended by a line feed.
pub open spec fn unlines(lines: Seq<Seq<char>>) -> Seq<char>
    decreases lines.len(),
{
    if lines.len() == 0 {
        Seq::empty()
    } else {
        unlines(lines.drop_last()) + lines.last() + seq!['\n']
    }
}

impl Layout {
    /// The upper edges of the first `n` cells of row `y`.
    pub open spec fn roofs(self, y: int, n: int) -> Seq<char>
        decreases n,
    {
        if n <= 0 {
            Seq::empty()
        } else {
            self.roofs(y, n - 1) + roof(self.at(n - 1, y))
        }
    }

    /// The insides of the first `n` cells of row `y`.
    pub open spec fn bodies(self, y: int, n: int) -> Seq<char>
        decreases n,
    {
        if n <= 0 {
            Seq::empty()
        } else {
            self.bodies(y, n - 1) + body(self.at(n - 1, y))
        }
    }

    /// The line of the diagram that shows the upper edges of row `y`.
    pub open spec fn roof_line(self, y: int) -> Seq<char> {
        seq!['+'] + self.roofs(y, self.width as int)
    }

    /// The line of the diagram that shows the insides of row `y`, behind the
    /// left wall of the grid.
    pub open spec fn body_line(self, y: int) -> Seq<char> {
        seq!['|'] + self.bodies(y, self.width as int)
    }

    /// The last line of the diagram: the lower wall of the grid, closed
    /// whatever the cells say.
    pub open spec fn floor_line(self) -> Seq<char> {
        seq!['+'] + floor(self.width as int)
    }

    /// The lines of the diagram. Each row has two, its upper edges and its
    /// insides, the top row coming first, and the lower wall of the grid
    /// comes last. A grid without rows has that last line alone.
    pub open spec fn lines(self) -> Seq<Seq<char>> {
        Seq::new(
            2 * self.height + 1,
            |k: int|
                if k == 2 * self.height {
                    self.floor_line()
                } else if k % 2 == 0 {
                    self.roof_line(self.height - 1 - k / 2)
                } else {
                    self.body_line(self.height - 1 - k / 2)
                },
        )
    }

    /// The diagram as one text.
    pub open spec fn text(self) -> Seq<char> {
        unlines(self.lines())
    }
}

/// Joining one line more appends it and a line feed.
pub proof fn lemma_unlines_take(lines: Seq<Seq<char>>, k: int)
    requires
        0 <= k < lines.len(),
    ensures
        unlines(lines.take(k + 1)) == unlines(lines.take(k)) + lines[k] + seq!['\n'],
{
    assert(lines.take(k + 1).drop_last() =~= lines.take(k));
}

/// The upper edges and the insides of `n` cells take four characters for each
/// cell, and so do `n` closed upper edges.
pub proof fn lemma_segments_len(l: Layout, y: int, n: int)
    requires
        0 <= n,
    ensures
        l.roofs(y, n).len() == 4 * n,
        l.bodies(y, n).len() == 4 * n,
        floor(n).len() == 4 * n,
    decreases n,
{
    if n > 0 {
        lemma_segments_len(l, y, n - 1);
    }
}

/// Lines of `m` characters each, joined, take `m + 1` characters for each
/// line.
pub proof fn lemma_unlines_len(lines: Seq<Seq<char>>, m: int)
    requires
        forall|k: int| 0 <= k < lines.len() ==> (#[trigger] lines[k]).len() == m,
    ensures
        unlines(lines).len() == lines.len() * (m + 1),
    decreases lines.len(),
{
    if lines.len() > 0 {
        let rest = lines.drop_last();
        assert forall|k: int| 0 <= k < rest.len() implies (#[trigger] rest[k]).len() == m by {
            assert(rest[k] == lines[k]);
        }
        lemma_unlines_len(rest, m);
        assert(lines.last() == lines[lines.len() - 1]);
        assert(lines.len() * (m + 1) == rest.len() * (m + 1) + (m + 1)) by (nonlinear_arith)
            requires
                lines.len() == rest.len() + 1,
        ;
    } else {
        assert(lines.len() * (m + 1) == 0) by (nonlinear_arith)
            requires
                lines.len() == 0,
        ;
    }
}

/// The shape of the diagram: two lines for each row and one more, each of
/// four characters for each column and one more, each ended by a line feed.
/// The last line is the closed wall, and the first one shows the upper edges
/// of the top row where there is a row. A grid without rows has the closed
/// wall for its whole diagram.
pub proof fn lemma_text_shape(l: Layout)
    ensures
        l.lines().len() == 2 * l.height + 1,
        forall|k: int|
            0 <= k < l.lines().len() ==> (#[trigger] l.lines()[k]).len() == 4 * l.width + 1,
        l.height > 0 ==> l.lines().first() == l.roof_line(l.height - 1),
        l.lines().last() == l.floor_line(),
        l.text().len() == (2 * l.height + 1) * (4 * l.width + 2),
        l.height == 0 ==> l.text() == l.floor_line() + seq!['\n'],
{
    let lines = l.lines();
    assert forall|k: int| 0 <= k < lines.len() implies (#[trigger] lines[k]).len() == 4 * l.width
        + 1 by {
        lemma_segments_len(l, l.height - 1 - k / 2, l.width as int);
    }
    lemma_unlines_len(lines, 4 * (l.width as int) + 1);
    if l.height == 0 {
        assert(lines.drop_last() =~= Seq::<Seq<char>>::empty());
        assert(unlines(lines.drop_last()) =~= Seq::<char>::empty());
        assert(lines.last() == l.floor_line());
        assert(l.text() =~= l.floor_line() + seq!['\n']);
    }
}

/// A diagram under its heading: the name of the algorithm, the size of the
/// grid as width, `x` and height, the word `Maze:`, and from the next line on
/// the diagram.
pub open spec fn titled(name: Seq<char>, l: Layout) -> Seq<char> {
    name + seq![' '] + decimal(l.width) + seq!['x'] + decimal(l.height) + seq![
        ' ',
        'M',
        'a',
        'z',
        'e',
        ':',
        '\n',
    ] + l.text()
}

/// The diagram of `grid` under its heading.
pub fn titled_text(name: &str, grid: &Grid) -> (text: String)
    ensures
        text@ == titled(name@, grid@),
{
    let mut buf = String::new();
    buf.append(name);
    buf.append(" ");
    push_decimal(&mut buf, grid.width());
    buf.append("x");
    push_decimal(&mut buf, grid.height());
    buf.append(" Maze:\n");
    let diagram = grid.to_text();
    buf.append(diagram.as_str());
    proof {
        reveal_strlit(" ");
        reveal_strlit("x");
        reveal_strlit(" Maze:\n");
        assert(" "@ =~= seq![' ']);
        assert("x"@ =~= seq!['x']);
        assert(" Maze:\n"@ =~= seq![' ', 'M', 'a', 'z', 'e', ':', '\n']);
        assert(buf@ =~= titled(name@, grid@));
    }
    buf
}

impl Grid {
    /// The grid as a diagram: for each row, from the top row down, a line of
    /// upper edges and a line of cells with their right walls, and as the
    /// last line a closed wall. A grid without rows gives that wall alone.
    pub fn to_text(&self) -> (text: String)
        ensures
            text@ == self@.text(),
    {
        let width: usize = self.width();
        let height: usize = self.height();
        let mut buf = String::new();
        proof {
            reveal_strlit("+");
            reveal_strlit("---+");
            reveal_strlit("   +");
            reveal_strlit("   |");
            reveal_strlit("    ");
            reveal_strlit("\n|");
            reveal_strlit("\n");
            assert("+"@ =~= seq!['+']);
            assert("---+"@ =~= seq!['-', '-', '-', '+']);
            assert("   +"@ =~= seq![' ', ' ', ' ', '+']);
            assert("   |"@ =~= seq![' ', ' ', ' ', '|']);
            assert("    "@ =~= seq![' ', ' ', ' ', ' ']);
            assert("\n|"@ =~= seq!['\n', '|']);
            assert("\n"@ =~= seq!['\n']);
            assert(self@.lines().take(0) =~= Seq::<Seq<char>>::empty());
        }
        for y in 0..height
            invariant
                width == self@.width,
                height == self@.height,
                "+"@ == seq!['+'],
                "---+"@ == seq!['-', '-', '-', '+'],
                "   +"@ == seq![' ', ' ', ' ', '+'],
                "   |"@ == seq![' ', ' ', ' ', '|'],
                "    "@ == seq![' ', ' ', ' ', ' '],
                "\n|"@ == seq!['\n', '|'],
                "\n"@ == seq!['\n'],
                buf@ == unlines(self@.lines().take(2 * y)),
        {
            let row: usize = height - 1 - y;
            let ghost above = buf@;
            buf.append("+");
            for x in 0..width
                invariant
                    width == self@.width,
                    height == self@.height,
                    row < height,
                    "---+"@ == seq!['-', '-', '-', '+'],
                    "   +"@ == seq![' ', ' ', ' ', '+'],
                    buf@ == above + seq!['+'] + self@.roofs(row as int, x as int),
            {
                if self.cell(x, row).unwrap().top {
                    buf.append("   +");
                } else {
                    buf.append("---+");
                }
                assert(buf@ =~= above + seq!['+'] + self@.roofs(row as int, x + 1));
            }
            buf.append("\n|");
            let ghost upper = above + self@.roof_line(row as int) + seq!['\n'];
            assert(buf@ =~= upper + seq!['|'] + self@.bodies(row as int, 0));
            for x in 0..width
                invariant
                    width == self@.width,
                    height == self@.height,
                    row < height,
                    "   |"@ == seq![' ', ' ', ' ', '|'],
                    "    "@ == seq![' ', ' ', ' ', ' '],
                    buf@ == upper + seq!['|'] + self@.bodies(row as int, x as int),
            {
                if self.cell(x, row).unwrap().right {
                    buf.append("    ");
                } else {
                    buf.append("   |");
                }
                assert(buf@ =~= upper + seq!['|'] + self@.bodies(row as int, x + 1));
            }
            buf.append("\n");
            let ghost both = upper + self@.body_line(row as int) + seq!['\n'];
            assert(buf@ =~= both);
            proof {
                let lines = self@.lines();
                lemma_unlines_take(lines, 2 * y);
                lemma_unlines_take(lines, 2 * y + 1);
                assert(lines[2 * y] == self@.roof_line(row as int));
                assert(lines[2 * y + 1] == self@.body_line(row as int));
                assert(both == unlines(lines.take(2 * y + 2)));
            }
        }
        let ghost rows = buf@;
        buf.append("+");
        for i in 0..width
            invariant
                "---+"@ == seq!['-', '-', '-', '+'],
                buf@ == rows + seq!['+'] + floor(i as int),
        {
            buf.append("---+");
            assert(buf@ =~= rows + seq!['+'] + floor(i + 1));
        }
        buf.append("\n");
        proof {
            let lines = self@.lines();
            lemma_unlines_take(lines, 2 * height);
            assert(lines.take(2 * height + 1) =~= lines);
            assert(buf@ =~= rows + self@.floor_line() + seq!['\n']);
        }
        buf
    }
}

} // verus!

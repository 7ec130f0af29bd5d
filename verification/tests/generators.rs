use maze::BinaryTree;
use maze::GeneratorAlgorithm;
use maze::Grid;
use maze::SideWinder;

const SIZES: [(usize, usize); 9] =
    [(1, 1), (1, 6), (6, 1), (2, 2), (3, 2), (4, 7), (9, 5), (16, 16), (25, 3)];

fn top(g: &Grid, x: usize, y: usize) -> bool {
    g.cell(x, y).unwrap().top
}

fn right(g: &Grid, x: usize, y: usize) -> bool {
    g.cell(x, y).unwrap().right
}

fn left(g: &Grid, x: usize, y: usize) -> bool {
    g.cell(x, y).unwrap().left
}

fn bottom(g: &Grid, x: usize, y: usize) -> bool {
    g.cell(x, y).unwrap().bottom
}

fn walls_agree(g: &Grid) -> bool {
    let (w, h) = (g.width(), g.height());
    for y in 0..h {
        for x in 0..w {
            if x + 1 < w && right(g, x, y) != left(g, x + 1, y) {
                return false;
            }
            if y + 1 < h && top(g, x, y) != bottom(g, x, y + 1) {
                return false;
            }
        }
    }
    true
}

fn rim_is_closed(g: &Grid) -> bool {
    let (w, h) = (g.width(), g.height());
    for y in 0..h {
        if left(g, 0, y) || right(g, w - 1, y) {
            return false;
        }
    }
    for x in 0..w {
        if bottom(g, x, 0) || top(g, x, h - 1) {
            return false;
        }
    }
    true
}

fn passages(g: &Grid) -> usize {
    let mut n = 0;
    for y in 0..g.height() {
        for x in 0..g.width() {
            if right(g, x, y) {
                n += 1;
            }
            if top(g, x, y) {
                n += 1;
            }
        }
    }
    n
}

fn reachable_from_origin(g: &Grid) -> usize {
    let (w, h) = (g.width(), g.height());
    let mut seen = vec![false; w * h];
    let mut todo = vec![(0usize, 0usize)];
    seen[0] = true;
    let mut count = 0;
    while let Some((x, y)) = todo.pop() {
        count += 1;
        let mut next = Vec::new();
        if right(g, x, y) && left(g, x + 1, y) {
            next.push((x + 1, y));
        }
        if left(g, x, y) && right(g, x - 1, y) {
            next.push((x - 1, y));
        }
        if top(g, x, y) && bottom(g, x, y + 1) {
            next.push((x, y + 1));
        }
        if bottom(g, x, y) && top(g, x, y - 1) {
            next.push((x, y - 1));
        }
        for (nx, ny) in next {
            if !seen[ny * w + nx] {
                seen[ny * w + nx] = true;
                todo.push((nx, ny));
            }
        }
    }
    count
}

fn is_spanning_tree(g: &Grid) -> bool {
    let cells = g.width() * g.height();
    walls_agree(g) && rim_is_closed(g) && passages(g) == cells - 1 && reachable_from_origin(g) == cells
}

#[test]
fn binary_tree_is_a_spanning_tree() {
    for (w, h) in SIZES {
        for _ in 0..20 {
            let maze = BinaryTree::create(w, h);
            assert_eq!(maze.grid.width(), w);
            assert_eq!(maze.grid.height(), h);
            assert!(is_spanning_tree(&maze.grid));
        }
    }
}

#[test]
fn sidewinder_is_a_spanning_tree() {
    for (w, h) in SIZES {
        for _ in 0..20 {
            let maze = SideWinder::create(w, h);
            assert_eq!(maze.grid.width(), w);
            assert_eq!(maze.grid.height(), h);
            assert!(is_spanning_tree(&maze.grid));
        }
    }
}

#[test]
fn binary_tree_walls_agree_on_both_sides() {
    for (w, h) in SIZES {
        assert!(walls_agree(&BinaryTree::create(w, h).grid));
    }
}

#[test]
fn sidewinder_walls_agree_on_both_sides() {
    for (w, h) in SIZES {
        assert!(walls_agree(&SideWinder::create(w, h).grid));
    }
}

#[test]
fn no_generated_opening_points_outside() {
    for (w, h) in SIZES {
        assert!(rim_is_closed(&BinaryTree::create(w, h).grid));
        assert!(rim_is_closed(&SideWinder::create(w, h).grid));
    }
}

#[test]
fn binary_tree_corner_is_closed_up_and_right() {
    for (w, h) in SIZES {
        let maze = BinaryTree::create(w, h);
        assert!(!top(&maze.grid, w - 1, h - 1));
        assert!(!right(&maze.grid, w - 1, h - 1));
    }
}

#[test]
fn binary_tree_cells_open_one_way_each() {
    for (w, h) in SIZES {
        let maze = BinaryTree::create(w, h);
        for y in 0..h {
            for x in 0..w {
                let t = top(&maze.grid, x, y);
                let r = right(&maze.grid, x, y);
                if (x, y) == (w - 1, h - 1) {
                    assert!(!t && !r);
                } else if y == h - 1 {
                    assert!(r && !t);
                } else if x == w - 1 {
                    assert!(t && !r);
                } else {
                    assert!(t != r);
                }
            }
        }
    }
}

#[test]
fn sidewinder_top_row_is_a_corridor() {
    for (w, h) in SIZES {
        let maze = SideWinder::create(w, h);
        for x in 0..w {
            assert_eq!(right(&maze.grid, x, h - 1), x < w - 1);
            assert!(!top(&maze.grid, x, h - 1));
        }
    }
}

#[test]
fn sidewinder_runs_have_one_way_up_each() {
    for (w, h) in SIZES {
        let maze = SideWinder::create(w, h);
        for y in 0..h - 1 {
            let mut ways_up = 0;
            for x in 0..w {
                if top(&maze.grid, x, y) {
                    ways_up += 1;
                }
                if !right(&maze.grid, x, y) {
                    assert_eq!(ways_up, 1);
                    ways_up = 0;
                }
            }
            assert_eq!(ways_up, 0);
        }
    }
}

#[test]
fn empty_mazes_have_no_cell_and_little_to_show() {
    for (w, h) in [(0usize, 0usize), (0, 4), (4, 0)] {
        let b = BinaryTree::create(w, h);
        assert_eq!((b.grid.width(), b.grid.height()), (w, h));
        assert!(b.grid.cell(0, 0).is_none());
        let s = SideWinder::create(w, h);
        assert_eq!((s.grid.width(), s.grid.height()), (w, h));
        assert!(s.grid.cell(0, 0).is_none());
    }
    assert_eq!(BinaryTree::create(0, 0).to_text(), "BinaryTree 0x0 Maze:\n+\n");
    assert_eq!(SideWinder::create(0, 0).to_text(), "SideWinder 0x0 Maze:\n+\n");
    assert_eq!(BinaryTree::create(4, 0).grid.to_text(), "+---+---+---+---+\n");
    assert_eq!(SideWinder::create(2, 0).to_text(), "SideWinder 2x0 Maze:\n+---+---+\n");
    assert_eq!(BinaryTree::create(0, 1).grid.to_text(), "+\n|\n+\n");
    assert_eq!(SideWinder::create(0, 2).grid.to_text(), "+\n|\n+\n|\n+\n");
}

#[test]
fn single_cell_mazes() {
    assert_eq!(BinaryTree::create(1, 1).to_text(), "BinaryTree 1x1 Maze:\n+---+\n|   |\n+---+\n");
    assert_eq!(SideWinder::create(1, 1).to_text(), "SideWinder 1x1 Maze:\n+---+\n|   |\n+---+\n");
}

#[test]
fn single_row_mazes_are_corridors() {
    assert_eq!(
        BinaryTree::create(3, 1).to_text(),
        "BinaryTree 3x1 Maze:\n+---+---+---+\n|           |\n+---+---+---+\n"
    );
    assert_eq!(
        SideWinder::create(3, 1).to_text(),
        "SideWinder 3x1 Maze:\n+---+---+---+\n|           |\n+---+---+---+\n"
    );
}

#[test]
fn single_column_mazes_are_shafts() {
    let shaft = "+---+\n|   |\n+   +\n|   |\n+   +\n|   |\n+---+\n";
    assert_eq!(BinaryTree::create(1, 3).grid.to_text(), shaft);
    assert_eq!(SideWinder::create(1, 3).grid.to_text(), shaft);
}

#[test]
fn maze_text_is_the_heading_and_the_diagram() {
    let b = BinaryTree::create(11, 4);
    assert_eq!(b.to_text(), format!("BinaryTree 11x4 Maze:\n{}", b.grid.to_text()));
    let s = SideWinder::create(5, 120);
    assert_eq!(s.to_text(), format!("SideWinder 5x120 Maze:\n{}", s.grid.to_text()));
}

#[test]
fn binary_tree_carve_follows_the_coin() {
    let mut g = Grid::new(3, 2);
    let coins = [[true, false, false], [true, false, true]];
    for y in 0..2 {
        for x in 0..3 {
            BinaryTree::carve(&mut g, x, y, coins[y][x]);
        }
    }
    assert_eq!(
        g.to_text(),
        "+---+---+---+\n|           |\n+   +---+   +\n|   |       |\n+---+---+---+\n"
    );
    assert!(is_spanning_tree(&g));
}

#[test]
fn binary_tree_text_of_a_known_maze() {
    let mut g = Grid::new(3, 2);
    let coins = [[true, false, false], [true, false, true]];
    for y in 0..2 {
        for x in 0..3 {
            BinaryTree::carve(&mut g, x, y, coins[y][x]);
        }
    }
    let maze = BinaryTree { grid: g };
    assert_eq!(
        maze.to_text(),
        "BinaryTree 3x2 Maze:\n+---+---+---+\n|           |\n+   +---+   +\n|   |       |\n+---+---+---+\n"
    );
}

#[test]
fn sidewinder_text_of_a_known_maze() {
    let mut g = Grid::new(3, 2);
    SideWinder::carve(&mut g, 0, 0, false, None);
    SideWinder::carve(&mut g, 1, 0, true, Some((0, 0)));
    SideWinder::carve(&mut g, 2, 0, false, Some((2, 0)));
    SideWinder::carve(&mut g, 0, 1, true, None);
    SideWinder::carve(&mut g, 1, 1, false, None);
    SideWinder::carve(&mut g, 2, 1, true, None);
    let maze = SideWinder { grid: g };
    assert_eq!(
        maze.to_text(),
        "SideWinder 3x2 Maze:\n+---+---+---+\n|           |\n+   +---+   +\n|       |   |\n+---+---+---+\n"
    );
}

#[test]
fn binary_tree_carve_on_heads_goes_up() {
    let mut g = Grid::new(2, 2);
    BinaryTree::carve(&mut g, 0, 0, true);
    assert!(top(&g, 0, 0) && bottom(&g, 0, 1));
    assert!(!right(&g, 0, 0) && !left(&g, 1, 0));
}

#[test]
fn binary_tree_carve_on_tails_goes_right() {
    let mut g = Grid::new(2, 2);
    BinaryTree::carve(&mut g, 0, 0, false);
    assert!(right(&g, 0, 0) && left(&g, 1, 0));
    assert!(!top(&g, 0, 0) && !bottom(&g, 0, 1));
}

#[test]
fn binary_tree_carve_is_forced_on_the_rim() {
    for head in [true, false] {
        let mut g = Grid::new(2, 2);
        BinaryTree::carve(&mut g, 1, 0, head);
        assert!(top(&g, 1, 0) && bottom(&g, 1, 1) && !right(&g, 1, 0));
        BinaryTree::carve(&mut g, 0, 1, head);
        assert!(right(&g, 0, 1) && left(&g, 1, 1) && !top(&g, 0, 1));
        let before = g.to_text();
        BinaryTree::carve(&mut g, 1, 1, head);
        assert_eq!(g.to_text(), before);
        assert!(!top(&g, 1, 1) && !right(&g, 1, 1));
    }
}

#[test]
fn sidewinder_carve_follows_the_coin_and_the_pick() {
    let mut g = Grid::new(3, 2);
    SideWinder::carve(&mut g, 0, 0, false, None);
    SideWinder::carve(&mut g, 1, 0, true, Some((0, 0)));
    SideWinder::carve(&mut g, 2, 0, false, Some((2, 0)));
    SideWinder::carve(&mut g, 0, 1, true, None);
    SideWinder::carve(&mut g, 1, 1, false, None);
    SideWinder::carve(&mut g, 2, 1, true, None);
    assert_eq!(
        g.to_text(),
        "+---+---+---+\n|           |\n+   +---+   +\n|       |   |\n+---+---+---+\n"
    );
    assert!(is_spanning_tree(&g));
}

#[test]
fn sidewinder_carve_opens_upwards_from_the_pick() {
    let mut g = Grid::new(3, 2);
    SideWinder::carve(&mut g, 0, 0, false, None);
    SideWinder::carve(&mut g, 1, 0, false, None);
    SideWinder::carve(&mut g, 2, 0, false, Some((1, 0)));
    assert!(top(&g, 1, 0) && bottom(&g, 1, 1));
    assert!(!top(&g, 0, 0) && !top(&g, 2, 0));
    assert!(right(&g, 0, 0) && right(&g, 1, 0) && !right(&g, 2, 0));
}

#[test]
fn sidewinder_carve_ignores_the_pick_where_the_run_goes_on() {
    let mut g = Grid::new(3, 2);
    SideWinder::carve(&mut g, 0, 0, false, Some((0, 0)));
    assert!(!top(&g, 0, 0));
    assert!(right(&g, 0, 0) && left(&g, 1, 0));
}

#[test]
fn sidewinder_carve_without_a_pick_opens_nothing_upwards() {
    let mut g = Grid::new(2, 2);
    SideWinder::carve(&mut g, 0, 0, true, None);
    assert_eq!(g.to_text(), Grid::new(2, 2).to_text());
}

#[test]
fn sidewinder_carve_in_the_top_row_goes_right() {
    for head in [true, false] {
        let mut g = Grid::new(2, 2);
        SideWinder::carve(&mut g, 0, 1, head, Some((0, 1)));
        assert!(right(&g, 0, 1) && left(&g, 1, 1) && !top(&g, 0, 1));
        let before = g.to_text();
        SideWinder::carve(&mut g, 1, 1, head, Some((1, 1)));
        assert_eq!(g.to_text(), before);
    }
}

#[test]
fn mazes_of_one_size_differ() {
    let first = BinaryTree::create(12, 12).grid.to_text();
    let mut other = false;
    for _ in 0..20 {
        if BinaryTree::create(12, 12).grid.to_text() != first {
            other = true;
        }
    }
    assert!(other);
    let first = SideWinder::create(12, 12).grid.to_text();
    let mut other = false;
    for _ in 0..20 {
        if SideWinder::create(12, 12).grid.to_text() != first {
            other = true;
        }
    }
    assert!(other);
}

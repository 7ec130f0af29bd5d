use maze::Cell;
use maze::Grid;

fn flags(c: &Cell) -> (bool, bool, bool, bool) {
    (c.left, c.right, c.top, c.bottom)
}

#[test]
fn default_cell_is_walled() {
    let c = Cell::default();
    assert_eq!(flags(&c), (false, false, false, false));
}

#[test]
fn new_grid_has_the_given_size() {
    let g = Grid::new(4, 3);
    assert_eq!(g.width(), 4);
    assert_eq!(g.height(), 3);
}

#[test]
fn new_grid_is_walled_everywhere() {
    let g = Grid::new(4, 3);
    for y in 0..3 {
        for x in 0..4 {
            let c = g.cell(x, y).unwrap();
            assert_eq!(flags(c), (false, false, false, false));
        }
    }
}

#[test]
fn cell_outside_the_grid_is_none() {
    let g = Grid::new(4, 3);
    assert!(g.cell(4, 0).is_none());
    assert!(g.cell(0, 3).is_none());
    assert!(g.cell(4, 3).is_none());
    assert!(g.cell(usize::MAX, 0).is_none());
    assert!(g.cell(0, usize::MAX).is_none());
    assert!(g.cell(usize::MAX, usize::MAX).is_none());
    assert!(g.cell(3, 2).is_some());
}

#[test]
fn column_past_the_end_does_not_wrap_into_the_next_row() {
    let mut g = Grid::new(2, 2);
    g.cell_mut(0, 1).unwrap().top = true;
    assert!(g.cell(2, 0).is_none());
    assert!(g.cell_mut(2, 0).is_none());
}

#[test]
fn cell_mut_outside_the_grid_is_none() {
    let mut g = Grid::new(4, 3);
    assert!(g.cell_mut(4, 0).is_none());
    assert!(g.cell_mut(0, 3).is_none());
    assert!(g.cell_mut(usize::MAX, usize::MAX).is_none());
    assert!(g.cell_mut(0, 0).is_some());
}

#[test]
fn cell_mut_changes_one_cell_only() {
    let mut g = Grid::new(3, 2);
    g.cell_mut(1, 1).unwrap().left = true;
    for y in 0..2 {
        for x in 0..3 {
            let expected = if (x, y) == (1, 1) {
                (true, false, false, false)
            } else {
                (false, false, false, false)
            };
            assert_eq!(flags(g.cell(x, y).unwrap()), expected);
        }
    }
}

#[test]
fn cell_mut_can_replace_the_whole_cell() {
    let mut g = Grid::new(2, 2);
    *g.cell_mut(1, 0).unwrap() = Cell { left: true, right: false, top: true, bottom: false };
    assert_eq!(flags(g.cell(1, 0).unwrap()), (true, false, true, false));
    assert_eq!(flags(g.cell(0, 1).unwrap()), (false, false, false, false));
}

#[test]
fn empty_grids_have_no_cell() {
    for (w, h) in [(0, 0), (0, 3), (3, 0)] {
        let g = Grid::new(w, h);
        assert_eq!(g.width(), w);
        assert_eq!(g.height(), h);
        assert!(g.cell(0, 0).is_none());
    }
}

#[test]
fn carve_up_opens_both_sides() {
    let mut g = Grid::new(3, 3);
    g.carve_up(1, 1);
    assert_eq!(flags(g.cell(1, 1).unwrap()), (false, false, true, false));
    assert_eq!(flags(g.cell(1, 2).unwrap()), (false, false, false, true));
    for y in 0..3 {
        for x in 0..3 {
            if (x, y) != (1, 1) && (x, y) != (1, 2) {
                assert_eq!(flags(g.cell(x, y).unwrap()), (false, false, false, false));
            }
        }
    }
}

#[test]
fn carve_right_opens_both_sides() {
    let mut g = Grid::new(3, 3);
    g.carve_right(1, 1);
    assert_eq!(flags(g.cell(1, 1).unwrap()), (false, true, false, false));
    assert_eq!(flags(g.cell(2, 1).unwrap()), (true, false, false, false));
    for y in 0..3 {
        for x in 0..3 {
            if (x, y) != (1, 1) && (x, y) != (2, 1) {
                assert_eq!(flags(g.cell(x, y).unwrap()), (false, false, false, false));
            }
        }
    }
}

#[test]
fn carving_towards_the_outside_changes_nothing() {
    let mut g = Grid::new(2, 2);
    g.carve_up(0, 1);
    g.carve_up(5, 0);
    g.carve_up(0, usize::MAX);
    g.carve_right(1, 0);
    g.carve_right(0, 7);
    g.carve_right(usize::MAX, 0);
    for y in 0..2 {
        for x in 0..2 {
            assert_eq!(flags(g.cell(x, y).unwrap()), (false, false, false, false));
        }
    }
}

#[test]
fn carving_keeps_earlier_openings() {
    let mut g = Grid::new(2, 2);
    g.carve_up(0, 0);
    g.carve_right(0, 0);
    g.carve_right(0, 1);
    assert_eq!(flags(g.cell(0, 0).unwrap()), (false, true, true, false));
    assert_eq!(flags(g.cell(1, 0).unwrap()), (true, false, false, false));
    assert_eq!(flags(g.cell(0, 1).unwrap()), (false, true, false, true));
    assert_eq!(flags(g.cell(1, 1).unwrap()), (true, false, false, false));
}

#[test]
fn clone_copies_the_cells_and_stands_alone() {
    let mut g = Grid::new(2, 2);
    g.carve_up(1, 0);
    let mut copy = g.clone();
    assert_eq!((copy.width(), copy.height()), (2, 2));
    for y in 0..2 {
        for x in 0..2 {
            assert_eq!(flags(copy.cell(x, y).unwrap()), flags(g.cell(x, y).unwrap()));
        }
    }
    copy.carve_right(0, 0);
    assert!(copy.cell(0, 0).unwrap().right);
    assert!(!g.cell(0, 0).unwrap().right);
}

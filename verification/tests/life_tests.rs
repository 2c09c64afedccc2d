use conway_life::color::Color;
use conway_life::life::Grid;

fn alive_cells(g: &Grid) -> Vec<(u32, u32)> {
    let mut out = Vec::new();
    for y in 0..g.height {
        for x in 0..g.width {
            if g.is_alive(x, y) {
                out.push((x, y));
            }
        }
    }
    out
}

#[test]
fn new_grid_is_all_dead() {
    let g = Grid::new(4, 3);
    assert_eq!(g.width, 4);
    assert_eq!(g.height, 3);
    assert_eq!(g.cells.len(), 12);
    assert!(alive_cells(&g).is_empty());
}

#[test]
fn set_and_read_back_a_cell() {
    let mut g = Grid::new(4, 3);
    g.set_alive(2, 1, true);
    assert!(g.is_alive(2, 1));
    assert_eq!(g.get_color(2, 1), Some(Color::white()));
    assert_eq!(g.cells[1 * 4 + 2], Some(Color::white()));
    assert!(!g.is_alive(1, 2));
    g.set_alive(2, 1, false);
    assert!(!g.is_alive(2, 1));
    assert_eq!(g.get_color(2, 1), None);
}

#[test]
fn set_alive_color_keeps_the_colour() {
    let mut g = Grid::new(3, 3);
    let red = Color::new(200, 10, 20, 255);
    g.set_alive_color(0, 2, Some(red));
    assert_eq!(g.get_color(0, 2), Some(red));
    assert!(g.is_alive(0, 2));
}

#[test]
fn writes_off_the_board_are_ignored() {
    let mut g = Grid::new(3, 3);
    g.set_alive(3, 0, true);
    g.set_alive(0, 3, true);
    g.set_alive(u32::MAX, u32::MAX, true);
    assert!(alive_cells(&g).is_empty());
    assert!(!g.is_alive(3, 0));
    assert_eq!(g.get_color(0, 3), None);
}

#[test]
fn neighbours_wrap_round_the_edges() {
    let mut g = Grid::new(3, 3);
    g.set_alive(0, 0, true);
    assert_eq!(g.count_neighbors(2, 2), 1);
    assert_eq!(g.count_neighbors(1, 1), 1);
    assert_eq!(g.count_neighbors(0, 0), 0);
    // Coordinates off the board are first brought onto it.
    assert_eq!(g.count_neighbors(5, 5), 1);
    assert_eq!(g.count_neighbors(3, 3), 0);
}

#[test]
fn neighbours_on_a_larger_board() {
    let mut g = Grid::new(5, 5);
    g.set_alive(1, 1, true);
    g.set_alive(2, 1, true);
    g.set_alive(3, 3, true);
    assert_eq!(g.count_neighbors(2, 2), 3);
    assert_eq!(g.count_neighbors(1, 1), 1);
    assert_eq!(g.count_neighbors(4, 4), 1);
    assert_eq!(g.count_neighbors(0, 0), 1);
}

#[test]
fn one_cell_board_counts_itself_eight_times() {
    let mut g = Grid::new(1, 1);
    g.set_alive(0, 0, true);
    assert_eq!(g.count_neighbors(0, 0), 8);
}

#[test]
fn empty_board_has_no_neighbours() {
    let g = Grid::new(0, 5);
    assert_eq!(g.count_neighbors(0, 0), 0);
    let g = Grid::new(4, 0);
    assert_eq!(g.count_neighbors(2, 7), 0);
    assert_eq!(g.step().cells.len(), 0);
}

#[test]
fn blinker_oscillates() {
    let mut g = Grid::new(5, 5);
    g.set_alive(1, 2, true);
    g.set_alive(2, 2, true);
    g.set_alive(3, 2, true);
    let next = g.step();
    assert_eq!(alive_cells(&next), vec![(2, 1), (2, 2), (2, 3)]);
    let back = next.step();
    assert_eq!(alive_cells(&back), vec![(1, 2), (2, 2), (3, 2)]);
    // The board it was computed from is unchanged.
    assert_eq!(alive_cells(&g), vec![(1, 2), (2, 2), (3, 2)]);
}

#[test]
fn block_is_still() {
    let mut g = Grid::new(4, 4);
    for (x, y) in [(1, 1), (2, 1), (1, 2), (2, 2)] {
        g.set_alive(x, y, true);
    }
    let next = g.step();
    assert_eq!(alive_cells(&next), alive_cells(&g));
}

#[test]
fn lonely_and_crowded_cells_die() {
    let mut g = Grid::new(5, 5);
    g.set_alive(0, 0, true);
    let next = g.step();
    assert!(alive_cells(&next).is_empty());

    let mut g = Grid::new(5, 5);
    for (x, y) in [(2, 2), (1, 2), (3, 2), (2, 1), (2, 3)] {
        g.set_alive(x, y, true);
    }
    let next = g.step();
    assert!(!next.is_alive(2, 2));
}

#[test]
fn survivors_keep_their_colour() {
    let mut g = Grid::new(5, 5);
    let a = Color::new(1, 2, 3, 4);
    g.set_alive_color(1, 2, Some(a));
    g.set_alive_color(2, 2, Some(Color::new(100, 100, 100, 255)));
    g.set_alive_color(3, 2, Some(a));
    let next = g.step();
    assert_eq!(next.get_color(2, 2), Some(Color::new(100, 100, 100, 255)));
}

#[test]
fn newborn_takes_the_rounded_mean_colour() {
    let mut g = Grid::new(5, 5);
    g.set_alive_color(0, 0, Some(Color::new(10, 0, 7, 255)));
    g.set_alive_color(1, 0, Some(Color::new(20, 1, 7, 255)));
    g.set_alive_color(2, 0, Some(Color::new(31, 1, 8, 255)));
    let next = g.step();
    // Red: (61 + 1) / 3 = 20; green: (2 + 1) / 3 = 1; blue: (22 + 1) / 3 = 7.
    assert_eq!(next.get_color(1, 1), Some(Color::new(20, 1, 7, 255)));
    // The row above wraps round to the bottom row.
    assert_eq!(next.get_color(1, 4), Some(Color::new(20, 1, 7, 255)));
}

#[test]
fn newborn_of_one_colour_takes_that_colour() {
    let mut g = Grid::new(6, 6);
    let c = Color::new(9, 99, 199, 128);
    g.set_alive_color(2, 2, Some(c));
    g.set_alive_color(3, 2, Some(c));
    g.set_alive_color(4, 2, Some(c));
    let next = g.step();
    assert_eq!(next.get_color(3, 1), Some(c));
    assert_eq!(next.get_color(3, 3), Some(c));
}

#[test]
fn glider_moves_across_the_wrapped_board() {
    let mut g = Grid::new(6, 6);
    for (x, y) in [(1, 0), (2, 1), (0, 2), (1, 2), (2, 2)] {
        g.set_alive(x, y, true);
    }
    let mut cur = g;
    for _ in 0..4 {
        cur = cur.step();
    }
    assert_eq!(alive_cells(&cur), vec![(2, 1), (3, 2), (1, 3), (2, 3), (3, 3)]);
}

#[test]
fn empty_board_stays_empty() {
    let g = Grid::new(7, 5);
    let next = g.step();
    assert_eq!(next.width, 7);
    assert_eq!(next.height, 5);
    assert!(next.cells.iter().all(|c| c.is_none()));
}

fn shifted(g: &Grid, a: u32, b: u32) -> Grid {
    let mut out = Grid::new(g.width, g.height);
    for y in 0..g.height {
        for x in 0..g.width {
            out.set_alive_color((x + a) % g.width, (y + b) % g.height, g.get_color(x, y));
        }
    }
    out
}

#[test]
fn moving_the_board_moves_the_counts_and_the_next_generation() {
    let mut g = Grid::new(6, 5);
    g.set_alive_color(0, 0, Some(Color::new(10, 20, 30, 255)));
    g.set_alive_color(1, 0, Some(Color::new(40, 50, 60, 255)));
    g.set_alive_color(5, 4, Some(Color::new(70, 80, 90, 255)));
    g.set_alive(2, 2, true);
    let g2 = shifted(&g, 3, 2);
    for y in 0..5u32 {
        for x in 0..6u32 {
            assert_eq!(g2.count_neighbors((x + 3) % 6, (y + 2) % 5), g.count_neighbors(x, y));
            assert_eq!(g.count_neighbors(x + 6, y + 10), g.count_neighbors(x, y));
        }
    }
    let a = shifted(&g.step(), 3, 2);
    let b = g2.step();
    assert_eq!(a.cells, b.cells);
}

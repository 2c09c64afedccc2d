use conway_life::cells::{CellColors, CellSet};
use conway_life::color::Color;
use conway_life::framebuffer::Framebuffer;
use conway_life::scene::{color_for_cell, distinct_logo_colors, place_logo, place_pattern, render, sort_palette};

fn abc() -> (Color, Color, Color) {
    (Color::new(1, 0, 0, 255), Color::new(0, 2, 0, 255), Color::new(0, 0, 3, 255))
}

#[test]
fn logo_colour_wins() {
    let (a, b, c) = abc();
    let mut logo = CellColors::new();
    logo.insert(1, 2, c);
    assert_eq!(color_for_cell(1, 2, &logo, &vec![a, b]), c);
}

#[test]
fn empty_palette_gives_white() {
    let logo = CellColors::new();
    assert_eq!(color_for_cell(4, 4, &logo, &vec![]), Color::white());
}

#[test]
fn palette_entry_is_picked_by_hash() {
    let (a, b, c) = abc();
    let logo = CellColors::new();
    let palette = vec![a, b, c];
    // 31 ^ 34 = 61, 61 % 3 = 1.
    assert_eq!(color_for_cell(1, 2, &logo, &palette), b);
    // -31 ^ 0 = -31, |-31| % 3 = 1.
    assert_eq!(color_for_cell(-1, 0, &logo, &palette), b);
    // 217 ^ -51 = -236, |-236| % 3 = 2.
    assert_eq!(color_for_cell(7, -3, &logo, &palette), c);
    // 3100 ^ 1700 = 2744, 2744 % 3 = 2.
    assert_eq!(color_for_cell(100, 100, &logo, &palette), c);
    // The multiplications wrap round.
    let big = color_for_cell(i32::MAX, i32::MIN, &logo, &palette);
    assert!(big == a || big == b || big == c);
}

#[test]
fn distinct_colours_in_first_seen_order() {
    let (a, b, _) = abc();
    let mut logo = CellColors::new();
    logo.insert(0, 0, a);
    logo.insert(1, 0, b);
    logo.insert(2, 0, a);
    logo.insert(3, 0, b);
    assert_eq!(distinct_logo_colors(&logo), vec![a, b]);
}

#[test]
fn palette_sort_is_stable() {
    let (a, b, c) = abc();
    let sorted = sort_palette(&vec![a, b, c], &vec![5, 1, 5]);
    assert_eq!(sorted, vec![b, a, c]);
    let sorted = sort_palette(&vec![a, b, c], &vec![9, 9, 0]);
    assert_eq!(sorted, vec![c, a, b]);
    assert_eq!(sort_palette(&vec![], &vec![]), vec![]);
}

#[test]
fn render_draws_live_cells_only() {
    let black = Color::new(0, 0, 0, 255);
    let red = Color::new(255, 0, 0, 255);
    let green = Color::new(0, 255, 0, 255);
    let mut fb = Framebuffer::new(3, 3, black);
    fb.set_pixel(1, 1, Color::white());
    let mut live = CellSet::new();
    live.insert(0, 0);
    live.insert(2, 1);
    live.insert(5, 5);
    live.insert(-1, 0);
    let mut logo = CellColors::new();
    logo.insert(0, 0, red);
    logo.insert(1, 1, red);
    render(&mut fb, &live, &logo, &vec![green]);
    let mut expected = vec![black; 9];
    expected[0] = red;
    expected[5] = green;
    assert_eq!(fb.color_buffer(), &expected);
}

#[test]
fn patterns_and_logo_are_placed_by_offset() {
    let (a, b, _) = abc();
    let mut live = CellSet::new();
    let mut logo = CellColors::new();
    place_logo(&mut live, &mut logo, &vec![(0, 0, a), (1, 0, b), (0, 0, b)], 10, 20);
    place_pattern(&mut live, &vec![(0, 0), (0, 1)], 10, 20);
    assert_eq!(live.cells_in_order(), &vec![(10, 20), (11, 20), (10, 21)]);
    assert_eq!(logo.get(10, 20), Some(b));
    assert_eq!(logo.get(11, 20), Some(b));
    assert_eq!(logo.get(10, 21), None);
}

use conway_life::cells::{CellColors, CellSet};
use conway_life::color::Color;

#[test]
fn cell_set_inserts_each_cell_once() {
    let mut s = CellSet::new();
    assert!(s.insert(1, 2));
    assert!(s.insert(-5, i32::MIN));
    assert!(!s.insert(1, 2));
    assert!(s.insert(2, 1));
    assert_eq!(s.len(), 3);
    assert!(s.contains(1, 2));
    assert!(s.contains(-5, i32::MIN));
    assert!(!s.contains(i32::MIN, -5));
    assert_eq!(s.cells_in_order(), &vec![(1, 2), (-5, i32::MIN), (2, 1)]);
}

#[test]
fn cell_colors_keep_the_last_colour() {
    let mut m = CellColors::new();
    let a = Color::new(1, 1, 1, 1);
    let b = Color::new(2, 2, 2, 2);
    m.insert(0, 0, a);
    m.insert(i32::MAX, -1, b);
    m.insert(0, 0, b);
    assert_eq!(m.get(0, 0), Some(b));
    assert_eq!(m.get(i32::MAX, -1), Some(b));
    assert_eq!(m.get(-1, i32::MAX), None);
    assert_eq!(m.cells_in_order(), &vec![(0, 0), (i32::MAX, -1)]);
}

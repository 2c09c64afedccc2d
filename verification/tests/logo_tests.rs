use conway_life::color::Color;
use conway_life::logo::{image_has_transparency, load_logo_pattern, load_logo_pattern_colored, LogoImage};

fn opaque(width: u32, height: u32) -> LogoImage {
    let mut pixels = Vec::new();
    for i in 0..(width * height) {
        pixels.push(Color::new(i as u8, 10, 20, 255));
    }
    LogoImage { width, height, pixels }
}

fn dark_flags() -> Vec<bool> {
    vec![
        true, true, false, false, //
        false, false, false, false, //
        false, false, false, true,
    ]
}

#[test]
fn opaque_image_uses_darkness() {
    let img = opaque(4, 3);
    assert!(!image_has_transparency(&img));
    let cells = load_logo_pattern(&img, 40, true, &dark_flags());
    // (3, 2) is dark too but has no neighbour, so it is dropped.
    assert_eq!(cells, vec![(0, 0), (1, 0)]);
}

#[test]
fn without_invert_the_light_pixels_count() {
    let img = opaque(4, 3);
    let cells = load_logo_pattern(&img, 40, false, &dark_flags());
    assert_eq!(
        cells,
        vec![(2, 0), (3, 0), (0, 1), (1, 1), (2, 1), (3, 1), (0, 2), (1, 2), (2, 2)]
    );
}

#[test]
fn transparent_image_uses_alpha() {
    let mut img = opaque(3, 2);
    img.pixels[0].a = 0;
    img.pixels[1].a = 41;
    img.pixels[2].a = 40;
    img.pixels[5].a = 0;
    assert!(image_has_transparency(&img));
    // The darkness flags are not consulted when the image has transparency.
    let dark = vec![false; 6];
    let cells = load_logo_pattern(&img, 40, true, &dark);
    assert_eq!(cells, vec![(1, 0), (0, 1), (1, 1)]);
    let inverted = load_logo_pattern(&img, 40, false, &dark);
    // (0, 0) has no neighbour among (2, 0) and (2, 1).
    assert_eq!(inverted, vec![(2, 0), (2, 1)]);
}

#[test]
fn colored_cells_keep_the_pixel_colour_and_the_draws() {
    let img = opaque(4, 3);
    let keep = vec![
        true, true, true, true, //
        true, false, true, true, //
        true, true, true, true,
    ];
    let cells = load_logo_pattern_colored(&img, 40, false, &dark_flags(), &keep);
    let coords: Vec<(i32, i32)> = cells.iter().map(|c| (c.0, c.1)).collect();
    assert_eq!(coords, vec![(2, 0), (3, 0), (0, 1), (2, 1), (3, 1), (0, 2), (1, 2), (2, 2)]);
    assert_eq!(cells[0].2, Color::new(2, 10, 20, 255));
    assert_eq!(cells[7].2, Color::new(10, 10, 20, 255));
}

#[test]
fn isolated_pixels_are_removed() {
    let img = opaque(5, 1);
    let dark = vec![true, false, true, true, false];
    let cells = load_logo_pattern(&img, 40, true, &dark);
    assert_eq!(cells, vec![(2, 0), (3, 0)]);
}

#[test]
fn resizing_a_uniform_image_keeps_its_colour() {
    let c = Color::new(10, 20, 30, 255);
    let img = LogoImage { width: 2, height: 2, pixels: vec![c; 4] };
    let small = img.resize(1, 1);
    assert_eq!(small.width, 1);
    assert_eq!(small.height, 1);
    assert_eq!(small.pixels, vec![c]);
    let big = img.resize(3, 1);
    assert_eq!(big.pixels, vec![c; 3]);
}

#[test]
fn resizing_to_the_same_size_copies() {
    let img = opaque(3, 2);
    let same = img.resize(3, 2);
    assert_eq!(same.pixels, img.pixels);
}

#[test]
fn resizing_averages_neighbouring_pixels() {
    let img = LogoImage {
        width: 2,
        height: 1,
        pixels: vec![Color::new(0, 0, 0, 255), Color::new(200, 100, 50, 255)],
    };
    let one = img.resize(1, 1);
    assert_eq!(one.pixels.len(), 1);
    assert_eq!(one.pixels[0], Color::new(100, 50, 25, 255));
}

#[test]
fn resizing_an_empty_image_gives_transparent_black() {
    let img = LogoImage { width: 0, height: 3, pixels: vec![] };
    let out = img.resize(2, 2);
    assert_eq!(out.pixels, vec![Color::new(0, 0, 0, 0); 4]);
}

#[test]
fn thinning_only_removes_cells() {
    let img = opaque(4, 3);
    let all = load_logo_pattern_colored(&img, 40, false, &dark_flags(), &vec![true; 12]);
    let keep = vec![
        false, true, true, false, //
        true, false, false, true, //
        true, true, false, true,
    ];
    let thinned = load_logo_pattern_colored(&img, 40, false, &dark_flags(), &keep);
    assert!(thinned.len() < all.len());
    assert!(thinned.iter().all(|c| all.contains(c)));
    let coords: Vec<(i32, i32)> = thinned.iter().map(|c| (c.0, c.1)).collect();
    assert_eq!(coords, vec![(2, 0), (0, 1), (3, 1), (0, 2), (1, 2)]);
}

#[test]
fn inverted_logo_shares_no_cell() {
    let img = opaque(4, 3);
    let a = load_logo_pattern(&img, 40, true, &dark_flags());
    let b = load_logo_pattern(&img, 40, false, &dark_flags());
    assert!(a.iter().all(|p| !b.contains(p)));
}

#[test]
fn cleaning_a_clean_logo_changes_nothing() {
    let img = opaque(5, 1);
    let dark = vec![true, false, true, true, false];
    let first = load_logo_pattern(&img, 40, true, &dark);
    // An image whose candidates are exactly the cells that stayed.
    let mut again = vec![false; 5];
    for (x, _) in &first {
        again[*x as usize] = true;
    }
    let second = load_logo_pattern(&img, 40, true, &again);
    assert_eq!(second, first);
}

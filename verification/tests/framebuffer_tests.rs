use conway_life::color::Color;
use conway_life::framebuffer::{overlay_layout, Framebuffer};

#[test]
fn new_buffer_is_background() {
    let black = Color::new(0, 0, 0, 255);
    let fb = Framebuffer::new(3, 2, black);
    assert_eq!(fb.width(), 3);
    assert_eq!(fb.height(), 2);
    assert_eq!(fb.color_buffer().len(), 6);
    assert!(fb.color_buffer().iter().all(|c| *c == black));
    assert_eq!(fb.current_color, Color::white());
}

#[test]
fn set_pixel_paints_one_pixel() {
    let black = Color::new(0, 0, 0, 255);
    let red = Color::new(255, 0, 0, 255);
    let mut fb = Framebuffer::new(3, 2, black);
    fb.set_pixel(1, 1, red);
    for (i, c) in fb.color_buffer().iter().enumerate() {
        if i == 4 {
            assert_eq!(*c, red);
        } else {
            assert_eq!(*c, black);
        }
    }
}

#[test]
fn set_pixel_outside_does_nothing() {
    let black = Color::new(0, 0, 0, 255);
    let red = Color::new(255, 0, 0, 255);
    let mut fb = Framebuffer::new(3, 2, black);
    fb.set_pixel(-1, 0, red);
    fb.set_pixel(0, -1, red);
    fb.set_pixel(3, 0, red);
    fb.set_pixel(0, 2, red);
    fb.set_pixel(i32::MIN, i32::MAX, red);
    assert!(fb.color_buffer().iter().all(|c| *c == black));
}

#[test]
fn clear_restores_background() {
    let bg = Color::new(5, 6, 7, 8);
    let mut fb = Framebuffer::new(2, 2, bg);
    fb.set_pixel(0, 0, Color::white());
    fb.set_pixel(1, 1, Color::white());
    fb.clear();
    assert_eq!(fb.color_buffer(), &vec![bg; 4]);
}

#[test]
fn current_colour_can_be_changed() {
    let mut fb = Framebuffer::new(1, 1, Color::new(0, 0, 0, 255));
    let green = Color::new(0, 255, 0, 255);
    fb.set_current_color(green);
    assert_eq!(fb.current_color, green);
    assert_eq!(fb.color_buffer(), &vec![Color::new(0, 0, 0, 255)]);
}

#[test]
fn overlay_is_centred_near_the_bottom() {
    let l = overlay_layout(100, 800, 800);
    assert_eq!(l.font_size, 20);
    assert_eq!(l.box_width, 124);
    assert_eq!(l.box_height, 36);
    assert_eq!(l.box_x, 338);
    assert_eq!(l.box_y, 754);
    assert_eq!(l.text_x, 350);
    assert_eq!(l.text_y, 762);
}

#[test]
fn overlay_wider_than_the_window_rounds_toward_zero() {
    let l = overlay_layout(101, 50, 40);
    assert_eq!(l.box_width, 125);
    assert_eq!(l.box_x, -37);
    assert_eq!(l.box_y, -6);
    assert_eq!(l.text_x, -25);
    assert_eq!(l.text_y, 2);
}

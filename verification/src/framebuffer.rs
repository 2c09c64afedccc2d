use vstd::prelude::*;

use crate::color::{spec_white, Color};

verus! {

/// A pixel buffer of `width * height` colours in row order (the pixel
/// `(x, y)` at `y * width + x`), with the colour it is cleared to and a
/// current drawing colour.
pub struct Framebuffer {
    width: u32,
    height: u32,
    color_buffer: Vec<Color>,
    background_color: Color,
    pub current_color: Color,
}

impl Framebuffer {
    /// The width in pixels.
    pub closed spec fn w(&self) -> int {
        self.width as int
    }

    /// The height in pixels.
    pub closed spec fn h(&self) -> int {
        self.height as int
    }

    /// The pixels in row order.
    pub closed spec fn pixels(&self) -> Seq<Color> {
        self.color_buffer@
    }

    /// The current drawing colour.
    pub closed spec fn current(&self) -> Color {
        self.current_color
    }

    /// The colour that `clear` paints.
    pub closed spec fn background(&self) -> Color {
        self.background_color
    }

    /// The buffer holds `width * height` pixels, and the sizes fit the
    /// `i32` coordinates that drawing takes.
    pub open spec fn wf(&self) -> bool {
        &&& self.pixels().len() == self.w() * self.h()
        &&& self.w() * self.h() <= i32::MAX
        &&& 0 <= self.w() <= i32::MAX
        &&& 0 <= self.h() <= i32::MAX
    }

    /// `(x, y)` is a pixel of this buffer.
    pub open spec fn in_bounds(&self, x: int, y: int) -> bool {
        0 <= x < self.w() && 0 <= y < self.h()
    }

    /// The pixels after `(x, y)` is painted `color`; unchanged when `(x, y)`
    /// lies outside.
    pub open spec fn painted(&self, x: int, y: int, color: Color) -> Seq<Color> {
        if self.in_bounds(x, y) {
            self.pixels().update(y * self.w() + x, color)
        } else {
            self.pixels()
        }
    }

    /// Creates a buffer of `width * height` pixels, all in the background
    /// colour, drawing in white.
    pub fn new(width: u32, height: u32, background_color: Color) -> (fb: Framebuffer)
        requires
            width * height <= i32::MAX,
            width <= i32::MAX,
            height <= i32::MAX,
        ensures
            fb.wf(),
            fb.w() == width,
            fb.h() == height,
            fb.background() == background_color,
            fb.current() == spec_white(),
            forall|i: int| 0 <= i < fb.pixels().len() ==> fb.pixels()[i] == background_color,
    {
        let size: u32 = width * height;
        let mut color_buffer: Vec<Color> = Vec::new();
        let mut i: u32 = 0;
        while i < size
            invariant
                i <= size,
                color_buffer@.len() == i,
                forall|j: int| 0 <= j < color_buffer@.len() ==> color_buffer@[j] == background_color,
            decreases size - i,
        {
            color_buffer.push(background_color);
            i = i + 1;
        }
        Framebuffer {
            width,
            height,
            color_buffer,
            background_color,
            current_color: Color::white(),
        }
    }

    /// Paints every pixel in the background colour.
    pub fn clear(&mut self)
        requires
            old(self).wf(),
        ensures
            final(self).wf(),
            final(self).w() == old(self).w(),
            final(self).h() == old(self).h(),
            final(self).background() == old(self).background(),
            final(self).current() == old(self).current(),
            forall|i: int|
                0 <= i < final(self).pixels().len() ==> final(self).pixels()[i] == old(
                    self,
                ).background(),
    {
        let n = self.color_buffer.len();
        let mut i: usize = 0;
        while i < n
            invariant
                i <= n,
                n == self.color_buffer@.len(),
                self.width == old(self).width,
                self.height == old(self).height,
                self.background_color == old(self).background_color,
                self.current_color == old(self).current_color,
                forall|j: int| 0 <= j < i ==> self.color_buffer@[j] == self.background_color,
            decreases n - i,
        {
            let bg = self.background_color;
            self.color_buffer.set(i, bg);
            i = i + 1;
        }
    }

    /// Paints the pixel `(x, y)` in `color`; nothing happens outside the
    /// buffer.
    pub fn set_pixel(&mut self, x: i32, y: i32, color: Color)
        requires
            old(self).wf(),
        ensures
            final(self).wf(),
            final(self).w() == old(self).w(),
            final(self).h() == old(self).h(),
            final(self).background() == old(self).background(),
            final(self).current() == old(self).current(),
            final(self).pixels() == old(self).painted(x as int, y as int, color),
    {
        if x >= 0 && y >= 0 && x < self.width as i32 && y < self.height as i32 {
            let xu = x as usize;
            let yu = y as usize;
            proof {
                crate::life::lemma_cell_index_in_range(x as int, y as int, self.width as int, self.height as int);
            }
            let index = yu * (self.width as usize) + xu;
            self.color_buffer.set(index, color);
        }
    }

    /// Makes `color` the current drawing colour.
    pub fn set_current_color(&mut self, color: Color)
        ensures
            final(self).current() == color,
            final(self).w() == old(self).w(),
            final(self).h() == old(self).h(),
            final(self).pixels() == old(self).pixels(),
            final(self).background() == old(self).background(),
    {
        self.current_color = color;
    }

    /// The width in pixels.
    pub fn width(&self) -> (r: u32)
        ensures
            r == self.w(),
    {
        self.width
    }

    /// The height in pixels.
    pub fn height(&self) -> (r: u32)
        ensures
            r == self.h(),
    {
        self.height
    }

    /// The pixels in row order.
    pub fn color_buffer(&self) -> (r: &Vec<Color>)
        ensures
            r@ == self.pixels(),
    {
        &self.color_buffer
    }
}

/// Where the text box of the status line goes on the window.
#[derive(Clone, Copy, PartialEq, Eq, Debug, Structural)]
pub struct OverlayLayout {
    pub text_x: i32,
    pub text_y: i32,
    pub box_x: i32,
    pub box_y: i32,
    pub box_width: i32,
    pub box_height: i32,
    pub font_size: i32,
}

/// `v / 2` rounded toward zero, as integer division does.
pub open spec fn half_toward_zero(v: int) -> int {
    if v >= 0 {
        v / 2
    } else {
        -((-v) / 2)
    }
}

/// Lays out the status line: a box padded by 12 pixels left and right and 8
/// above and below a text of height 20, centred across the window and 10
/// pixels above its bottom edge.
pub fn overlay_layout(text_width: i32, window_width: i32, window_height: i32) -> (l: OverlayLayout)
    requires
        text_width + 24 <= i32::MAX,
        i32::MIN <= window_width - (text_width + 24) <= i32::MAX,
        window_height - 46 >= i32::MIN,
    ensures
        l.font_size == 20,
        l.box_width == text_width + 24,
        l.box_height == 36,
        l.box_x == half_toward_zero(window_width - (text_width + 24)),
        l.box_y == window_height - 46,
        l.text_x == l.box_x + 12,
        l.text_y == l.box_y + 8,
{
    let font_size: i32 = 20;
    let padding_x: i32 = 12;
    let padding_y: i32 = 8;
    let box_width = text_width + padding_x * 2;
    let box_height = font_size + padding_y * 2;
    let free = window_width - box_width;
    let box_x = if free >= 0 {
        free / 2
    } else {
        -((-(free as i64)) / 2) as i32
    };
    let box_y = window_height - box_height - 10;
    let text_x = box_x + padding_x;
    let text_y = box_y + padding_y;
    OverlayLayout { text_x, text_y, box_x, box_y, box_width, box_height, font_size }
}

/// Painting a pixel leaves every other pixel of the buffer as it was, and
/// the painted pixel holds the new colour.
pub proof fn lemma_paint_touches_one_pixel(fb: Framebuffer, x: int, y: int, color: Color)
    requires
        fb.wf(),
    ensures
        fb.painted(x, y, color).len() == fb.pixels().len(),
        fb.in_bounds(x, y) ==> fb.painted(x, y, color)[y * fb.w() + x] == color,
        forall|x2: int, y2: int|
            #![trigger fb.painted(x, y, color)[y2 * fb.w() + x2]]
            fb.in_bounds(x2, y2) && (x2 != x || y2 != y) ==> fb.painted(x, y, color)[y2 * fb.w() + x2]
                == fb.pixels()[y2 * fb.w() + x2],
{
    let w = fb.w();
    let h = fb.h();
    if fb.in_bounds(x, y) {
        crate::life::lemma_cell_index_in_range(x, y, w, h);
    }
    assert forall|x2: int, y2: int|
        #![trigger fb.painted(x, y, color)[y2 * fb.w() + x2]]
        fb.in_bounds(x2, y2) && (x2 != x || y2 != y) implies fb.painted(x, y, color)[y2 * fb.w() + x2]
            == fb.pixels()[y2 * fb.w() + x2] by {
        crate::life::lemma_cell_index_in_range(x2, y2, w, h);
        if fb.in_bounds(x, y) {
            vstd::arithmetic::div_mod::lemma_fundamental_div_mod_converse(y * w + x, w, y, x);
            vstd::arithmetic::div_mod::lemma_fundamental_div_mod_converse(y2 * w + x2, w, y2, x2);
        }
    }
}

} // verus!

use vstd::prelude::*;

use crate::cells::CellSet;
use crate::color::Color;
use crate::life::{lemma_offset_is_neighbor, neighbor_delta, neighbor_offset};

verus! {

/// An RGBA image: `width * height` pixels in row order, the pixel `(x, y)`
/// at `y * width + x`.
pub struct LogoImage {
    pub width: u32,
    pub height: u32,
    pub pixels: Vec<Color>,
}

impl LogoImage {
    /// The image holds exactly `width * height` pixels.
    pub open spec fn wf(&self) -> bool {
        self.pixels@.len() == self.width * self.height
    }

    /// The image resized to `width` by `height` with the triangle (bilinear)
    /// filter of the `image` crate.
    pub fn resize(&self, width: u32, height: u32) -> (out: LogoImage)
        requires
            self.wf(),
            4 * self.width * self.height <= isize::MAX,
            4 * width * height <= isize::MAX,
            16 * self.width * height <= isize::MAX,
        ensures
            out.wf(),
            out.width == width,
            out.height == height,
            out.pixels@ == resized_triangle(self.width, self.height, self.pixels@, width, height),
            width == self.width && height == self.height ==> out.pixels@ == self.pixels@,
            self.width == 0 || self.height == 0 ==> forall|i: int|
                0 <= i < out.pixels@.len() ==> out.pixels@[i] == (Color { r: 0, g: 0, b: 0, a: 0 }),
    {
        let pixels = resize_triangle(self, width, height);
        LogoImage { width, height, pixels }
    }
}

/// The pixels, in row order, of the image of `src_width` by `src_height`
/// pixels `src` resized to `width` by `height` with the triangle filter of
/// `image::imageops::resize`.
pub uninterp spec fn resized_triangle(
    src_width: u32,
    src_height: u32,
    src: Seq<Color>,
    width: u32,
    height: u32,
) -> Seq<Color>;

/// Calls `image::imageops::resize` with `FilterType::Triangle` on the RGBA
/// image `src`. Trusted: the result is the named `resized_triangle` of the
/// arguments; it has `width * height` pixels (the crate builds it with
/// `ImageBuffer::new(width, height)` on every path); an empty source gives
/// all-zero pixels and equal sizes give a copy (the crate's two early
/// returns). The crate panics when a buffer it allocates would exceed
/// `isize::MAX` bytes (4 per pixel, 16 per pixel for its `f32` pass of
/// `src_width * height` pixels), which `requires` leaves out.
#[verifier::external_body]
fn resize_triangle(src: &LogoImage, width: u32, height: u32) -> (out: Vec<Color>)
    requires
        src.wf(),
        4 * src.width * src.height <= isize::MAX,
        4 * width * height <= isize::MAX,
        16 * src.width * height <= isize::MAX,
    ensures
        out@ == resized_triangle(src.width, src.height, src.pixels@, width, height),
        out@.len() == width * height,
        width == src.width && height == src.height ==> out@ == src.pixels@,
        src.width == 0 || src.height == 0 ==> forall|i: int|
            0 <= i < out@.len() ==> out@[i] == (Color { r: 0, g: 0, b: 0, a: 0 }),
{
    let raw: Vec<u8> = src.pixels.iter().flat_map(|c| [c.r, c.g, c.b, c.a]).collect();
    let buffer = image::RgbaImage::from_raw(src.width, src.height, raw).expect("buffer fits");
    let resized = image::imageops::resize(&buffer, width, height, image::imageops::FilterType::Triangle);
    resized.pixels().map(|p| Color { r: p.0[0], g: p.0[1], b: p.0[2], a: p.0[3] }).collect()
}

/// Some pixel is not fully opaque.
pub open spec fn has_transparency(pixels: Seq<Color>) -> bool {
    exists|i: int| 0 <= i < pixels.len() && #[trigger] pixels[i].a < 255
}

/// Whether a pixel becomes a live cell. In an image with transparency a
/// pixel counts when its alpha is above `threshold`; otherwise when the
/// caller found it darker than `threshold` (`dark`). `invert == false`
/// takes the complement.
pub open spec fn pixel_alive(p: Color, transparent: bool, threshold: u8, invert: bool, dark: bool) -> bool {
    let hit = if transparent {
        p.a > threshold
    } else {
        dark
    };
    if invert {
        hit
    } else {
        !hit
    }
}

/// The live cells that the first `n` pixels give, in row order: the pixel
/// `i` of a row `width` wide gives the cell `(i % width, i / width)` with its
/// colour when it is alive and kept (`keep[i]`).
pub open spec fn selected_cells(
    pixels: Seq<Color>,
    width: int,
    threshold: u8,
    invert: bool,
    dark: Seq<bool>,
    keep: Seq<bool>,
    n: int,
) -> Seq<(i32, i32, Color)>
    decreases n,
{
    if n <= 0 {
        Seq::empty()
    } else {
        let prev = selected_cells(pixels, width, threshold, invert, dark, keep, n - 1);
        let i = n - 1;
        if selected_at(pixels, width, threshold, invert, dark, keep, i) {
            prev.push(entry_at(pixels, width, i))
        } else {
            prev
        }
    }
}

/// `c` lies on one of the eight cells around `(x, y)`.
pub open spec fn is_adjacent(c: (i32, i32, Color), x: int, y: int) -> bool {
    &&& (c.0 != x || c.1 != y)
    &&& x - 1 <= c.0 <= x + 1
    &&& y - 1 <= c.1 <= y + 1
}

/// Some entry of `cells` lies next to `(x, y)`.
pub open spec fn has_neighbor(cells: Seq<(i32, i32, Color)>, x: int, y: int) -> bool {
    exists|j: int| 0 <= j < cells.len() && #[trigger] is_adjacent(cells[j], x, y)
}

/// The first `n` entries of `cells` without those that have no other entry
/// next to them, in their order.
pub open spec fn drop_isolated(cells: Seq<(i32, i32, Color)>, n: int) -> Seq<(i32, i32, Color)>
    decreases n,
{
    if n <= 0 {
        Seq::empty()
    } else {
        let prev = drop_isolated(cells, n - 1);
        let c = cells[n - 1];
        if has_neighbor(cells, c.0 as int, c.1 as int) {
            prev.push(c)
        } else {
            prev
        }
    }
}

/// The cells of a logo, with colours: the selection of `selected_cells`
/// over the whole image, without its isolated cells.
pub open spec fn logo_cells(img: LogoImage, threshold: u8, invert: bool, dark: Seq<bool>, keep: Seq<bool>) -> Seq<(i32, i32, Color)> {
    let sel = selected_cells(img.pixels@, img.width as int, threshold, invert, dark, keep, img.pixels@.len() as int);
    drop_isolated(sel, sel.len() as int)
}

/// Every pixel kept.
pub open spec fn keep_all(n: int) -> Seq<bool> {
    Seq::new(n as nat, |i: int| true)
}

/// Whether some pixel of `img` is not fully opaque.
pub fn image_has_transparency(img: &LogoImage) -> (r: bool)
    ensures
        r == has_transparency(img.pixels@),
{
    let n = img.pixels.len();
    let mut i: usize = 0;
    while i < n
        invariant
            n == img.pixels@.len(),
            i <= n,
            forall|j: int| 0 <= j < i ==> !(#[trigger] img.pixels@[j].a < 255),
        decreases n - i,
    {
        if img.pixels[i].a < 255 {
            return true;
        }
        i = i + 1;
    }
    false
}

/// The cells of a logo with their colours, from an image already resized
/// to the size of the logo on the board.
///
/// A pixel is a candidate when `pixel_alive` says so: in an image with
/// transparency by its alpha against `threshold`, otherwise by `dark[i]`,
/// whether its luminance is below `threshold`; `invert` chooses between the
/// set and its complement. A candidate is kept when `keep[i]` holds (the
/// caller's draw against the density). Kept cells without a neighbour are
/// then dropped, which removes the loose pixels that resizing leaves.
pub fn load_logo_pattern_colored(
    img: &LogoImage,
    threshold: u8,
    invert: bool,
    dark: &Vec<bool>,
    keep: &Vec<bool>,
) -> (cells: Vec<(i32, i32, Color)>)
    requires
        img.wf(),
        img.width <= i32::MAX,
        img.height <= i32::MAX,
        dark@.len() == img.pixels@.len(),
        keep@.len() == img.pixels@.len(),
    ensures
        cells@ == logo_cells(*img, threshold, invert, dark@, keep@),
{
    let transparent = image_has_transparency(img);
    let npx = img.pixels.len();
    let ghost px = img.pixels@;
    let ghost w = img.width as int;
    let mut selected: Vec<(i32, i32, Color)> = Vec::new();
    let mut y: u32 = 0;
    while y < img.height
        invariant
            img.wf(),
            px == img.pixels@,
            w == img.width,
            img.width <= i32::MAX,
            img.height <= i32::MAX,
            dark@.len() == px.len(),
            keep@.len() == px.len(),
            transparent == has_transparency(px),
            npx == px.len(),
            y <= img.height,
            selected@ == selected_cells(px, w, threshold, invert, dark@, keep@, y * w),
            forall|j: int|
                0 <= j < selected@.len() ==> 0 <= (#[trigger] selected@[j]).0 < i32::MAX && 0
                    <= selected@[j].1 < i32::MAX,
        decreases img.height - y,
    {
        let mut x: u32 = 0;
        while x < img.width
            invariant
                img.wf(),
                px == img.pixels@,
                w == img.width,
                img.width <= i32::MAX,
                img.height <= i32::MAX,
                dark@.len() == px.len(),
                keep@.len() == px.len(),
                transparent == has_transparency(px),
                npx == px.len(),
                y < img.height,
                x <= img.width,
                selected@ == selected_cells(px, w, threshold, invert, dark@, keep@, y * w + x),
                forall|j: int|
                    0 <= j < selected@.len() ==> 0 <= (#[trigger] selected@[j]).0 < i32::MAX && 0
                        <= selected@[j].1 < i32::MAX,
            decreases img.width - x,
        {
            proof {
                crate::life::lemma_cell_index_in_range(x as int, y as int, w, img.height as int);
                vstd::arithmetic::div_mod::lemma_fundamental_div_mod_converse(
                    y * w + x,
                    w,
                    y as int,
                    x as int,
                );
            }
            let i = (y as usize) * (img.width as usize) + (x as usize);
            let pixel = img.pixels[i];
            let hit = if transparent {
                pixel.a > threshold
            } else {
                dark[i]
            };
            let is_alive = if invert {
                hit
            } else {
                !hit
            };
            if is_alive && keep[i] {
                selected.push((x as i32, y as i32, pixel));
            }
            x = x + 1;
        }
        proof {
            assert((y + 1) * w == y * w + w) by (nonlinear_arith);
        }
        y = y + 1;
    }
    proof {
        assert(img.height * w == px.len()) by (nonlinear_arith)
            requires
                px.len() == img.width * img.height,
                w == img.width,
        ;
    }
    limpiar_celdas_aisladas(selected)
}

/// The cells of a logo, from an image already resized to the size of the
/// logo on the board: `load_logo_pattern_colored` with every candidate kept
/// (density 1), colours left out.
pub fn load_logo_pattern(img: &LogoImage, threshold: u8, invert: bool, dark: &Vec<bool>) -> (cells: Vec<(i32, i32)>)
    requires
        img.wf(),
        img.width <= i32::MAX,
        img.height <= i32::MAX,
        dark@.len() == img.pixels@.len(),
    ensures
        cells@ == logo_positions(*img, threshold, invert, dark@, keep_all(img.pixels@.len() as int)),
{
    let n = img.pixels.len();
    let mut keep: Vec<bool> = Vec::new();
    let mut i: usize = 0;
    while i < n
        invariant
            i <= n,
            keep@.len() == i,
            forall|j: int| 0 <= j < i ==> keep@[j],
        decreases n - i,
    {
        keep.push(true);
        i = i + 1;
    }
    proof {
        assert(keep@ =~= keep_all(n as int));
    }
    let colored = load_logo_pattern_colored(img, threshold, invert, dark, &keep);
    let mut cells: Vec<(i32, i32)> = Vec::new();
    let mut k: usize = 0;
    while k < colored.len()
        invariant
            k <= colored@.len(),
            cells@ == colored@.take(k as int).map_values(|c: (i32, i32, Color)| (c.0, c.1)),
        decreases colored@.len() - k,
    {
        let (x, y, _) = colored[k];
        cells.push((x, y));
        proof {
            assert(colored@.take(k + 1).map_values(|c: (i32, i32, Color)| (c.0, c.1)) =~= colored@.take(
                k as int,
            ).map_values(|c: (i32, i32, Color)| (c.0, c.1)).push((x, y)));
        }
        k = k + 1;
    }
    proof {
        assert(colored@.take(colored@.len() as int) =~= colored@);
    }
    cells
}

/// Drops the cells that have no other cell next to them, keeping the order
/// of the others.
fn limpiar_celdas_aisladas(cells: Vec<(i32, i32, Color)>) -> (r: Vec<(i32, i32, Color)>)
    requires
        forall|j: int|
            0 <= j < cells@.len() ==> i32::MIN < (#[trigger] cells@[j]).0 < i32::MAX && i32::MIN
                < cells@[j].1 < i32::MAX,
    ensures
        r@ == drop_isolated(cells@, cells@.len() as int),
{
    let n = cells.len();
    let mut occupied = CellSet::new();
    let mut i: usize = 0;
    while i < n
        invariant
            n == cells@.len(),
            i <= n,
            occupied.wf(),
            forall|p: (i32, i32)|
                #[trigger] occupied.cells().contains(p) <==> exists|j: int|
                    0 <= j < i && (#[trigger] cells@[j]).0 == p.0 && cells@[j].1 == p.1,
        decreases n - i,
    {
        let (x, y, _) = cells[i];
        let ghost before = occupied.cells();
        occupied.insert(x, y);
        proof {
            assert forall|p: (i32, i32)|
                #[trigger] occupied.cells().contains(p) <==> exists|j: int|
                    0 <= j < i + 1 && (#[trigger] cells@[j]).0 == p.0 && cells@[j].1 == p.1 by {
                if p == (x, y) {
                    assert(cells@[i as int].0 == p.0 && cells@[i as int].1 == p.1);
                    assert(occupied.cells().contains(p)) by {
                        if !before.contains(p) {
                            assert(occupied.cells()[before.len() as int] == p);
                        }
                    }
                } else {
                    if occupied.cells().contains(p) {
                        let m = choose|m: int| 0 <= m < occupied.cells().len() && occupied.cells()[m] == p;
                        if m < before.len() {
                            assert(before[m] == p);
                            assert(before.contains(p));
                        }
                    }
                    if before.contains(p) {
                        let m = choose|m: int| 0 <= m < before.len() && before[m] == p;
                        assert(occupied.cells()[m] == p);
                    }
                }
            }
        }
        i = i + 1;
    }
    let mut kept: Vec<(i32, i32, Color)> = Vec::new();
    let mut k: usize = 0;
    while k < n
        invariant
            n == cells@.len(),
            k <= n,
            occupied.wf(),
            forall|j: int|
                0 <= j < cells@.len() ==> i32::MIN < (#[trigger] cells@[j]).0 < i32::MAX && i32::MIN
                    < cells@[j].1 < i32::MAX,
            forall|p: (i32, i32)|
                #[trigger] occupied.cells().contains(p) <==> exists|j: int|
                    0 <= j < n && (#[trigger] cells@[j]).0 == p.0 && cells@[j].1 == p.1,
            kept@ == drop_isolated(cells@, k as int),
        decreases n - k,
    {
        let (x, y, c) = cells[k];
        let found = has_occupied_neighbor(&occupied, x, y);
        proof {
            if found {
                let p = choose|p: (i32, i32)|
                    occupied.cells().contains(p) && #[trigger] cell_adjacent(p, x as int, y as int);
                assert(occupied.cells().contains(p));
                let j = choose|j: int| 0 <= j < n && (#[trigger] cells@[j]).0 == p.0 && cells@[j].1 == p.1;
                assert(is_adjacent(cells@[j], x as int, y as int));
            } else {
                assert forall|j: int| 0 <= j < cells@.len() implies !(#[trigger] is_adjacent(cells@[j], x as int, y as int)) by {
                    let p = (cells@[j].0, cells@[j].1);
                    assert(occupied.cells().contains(p));
                    if is_adjacent(cells@[j], x as int, y as int) {
                        assert(cell_adjacent(p, x as int, y as int));
                    }
                }
            }
        }
        if found {
            kept.push((x, y, c));
        }
        k = k + 1;
    }
    kept
}

/// `p` is one of the eight cells around `(x, y)`.
pub open spec fn cell_adjacent(p: (i32, i32), x: int, y: int) -> bool {
    &&& (p.0 != x || p.1 != y)
    &&& x - 1 <= p.0 <= x + 1
    &&& y - 1 <= p.1 <= y + 1
}

/// Whether one of the eight cells around `(x, y)` is in `occupied`.
fn has_occupied_neighbor(occupied: &CellSet, x: i32, y: i32) -> (r: bool)
    requires
        occupied.wf(),
        i32::MIN < x < i32::MAX,
        i32::MIN < y < i32::MAX,
    ensures
        r == exists|p: (i32, i32)|
            occupied.cells().contains(p) && #[trigger] cell_adjacent(p, x as int, y as int),
{
    let mut k: usize = 0;
    while k < 8
        invariant
            occupied.wf(),
            i32::MIN < x < i32::MAX,
            i32::MIN < y < i32::MAX,
            k <= 8,
            forall|m: int|
                0 <= m < k ==> !occupied.cells().contains(
                    (
                        (x + (#[trigger] neighbor_offset(m)).0) as i32,
                        (y + neighbor_offset(m).1) as i32,
                    ),
                ),
        decreases 8 - k,
    {
        let (dx, dy) = neighbor_delta(k);
        let nx = x + dx;
        let ny = y + dy;
        if occupied.contains(nx, ny) {
            proof {
                assert(cell_adjacent((nx, ny), x as int, y as int));
            }
            return true;
        }
        k = k + 1;
    }
    proof {
        assert forall|p: (i32, i32)|
            occupied.cells().contains(p) implies !#[trigger] cell_adjacent(p, x as int, y as int) by {
            if cell_adjacent(p, x as int, y as int) {
                let m = lemma_offset_is_neighbor(p.0 - x, p.1 - y);
                assert(neighbor_offset(m) == (p.0 - x, p.1 - y));
                assert(((x + neighbor_offset(m).0) as i32, (y + neighbor_offset(m).1) as i32) == p);
            }
        }
    }
    false
}

/// Cleaning leaves no isolated cell: each cell that stays has another cell
/// that stays next to it.
pub proof fn lemma_no_isolated_cell_left(cells: Seq<(i32, i32, Color)>)
    ensures
        ({
            let r = drop_isolated(cells, cells.len() as int);
            forall|m: int|
                0 <= m < r.len() ==> has_neighbor(r, (#[trigger] r[m]).0 as int, r[m].1 as int)
        }),
{
    let n = cells.len() as int;
    let r = drop_isolated(cells, n);
    lemma_drop_isolated_members(cells, n);
    assert forall|m: int| 0 <= m < r.len() implies has_neighbor(r, (#[trigger] r[m]).0 as int, r[m].1 as int) by {
        let c = r[m];
        assert(kept_entry(cells, n, c));
        let j = choose|j: int| 0 <= j < n && cells[j] == c && has_neighbor(cells, cells[j].0 as int, cells[j].1 as int);
        let j2 = choose|j2: int| 0 <= j2 < cells.len() && #[trigger] is_adjacent(cells[j2], c.0 as int, c.1 as int);
        let d = cells[j2];
        assert(is_adjacent(cells[j], d.0 as int, d.1 as int));
        assert(has_neighbor(cells, d.0 as int, d.1 as int));
        assert(r.contains(d));
        let m2 = choose|m2: int| 0 <= m2 < r.len() && r[m2] == d;
        assert(is_adjacent(r[m2], c.0 as int, c.1 as int));
    }
}

/// `c` is one of the first `n` entries of `cells` and has a neighbour.
pub open spec fn kept_entry(cells: Seq<(i32, i32, Color)>, n: int, c: (i32, i32, Color)) -> bool {
    exists|j: int|
        0 <= j < n && cells[j] == c && has_neighbor(cells, cells[j].0 as int, cells[j].1 as int)
}

/// The entries that cleaning keeps are exactly the entries of the first `n`
/// that have a neighbour.
proof fn lemma_drop_isolated_members(cells: Seq<(i32, i32, Color)>, n: int)
    requires
        0 <= n <= cells.len(),
    ensures
        forall|m: int|
            0 <= m < drop_isolated(cells, n).len() ==> kept_entry(
                cells,
                n,
                #[trigger] drop_isolated(cells, n)[m],
            ),
        forall|j: int|
            0 <= j < n && has_neighbor(cells, (#[trigger] cells[j]).0 as int, cells[j].1 as int)
                ==> drop_isolated(cells, n).contains(cells[j]),
    decreases n,
{
    if n > 0 {
        lemma_drop_isolated_members(cells, n - 1);
        let prev = drop_isolated(cells, n - 1);
        let cur = drop_isolated(cells, n);
        let c = cells[n - 1];
        assert forall|m: int| 0 <= m < cur.len() implies kept_entry(cells, n, #[trigger] cur[m]) by {
            if m < prev.len() {
                assert(cur[m] == prev[m]);
                assert(kept_entry(cells, n - 1, prev[m]));
                let j = choose|j: int|
                    0 <= j < n - 1 && cells[j] == prev[m] && has_neighbor(
                        cells,
                        cells[j].0 as int,
                        cells[j].1 as int,
                    );
                assert(cells[j] == cur[m]);
            } else {
                assert(cur[m] == c);
                assert(cells[n - 1] == cur[m]);
            }
        }
        assert forall|j: int|
            0 <= j < n && has_neighbor(cells, (#[trigger] cells[j]).0 as int, cells[j].1 as int)
                implies cur.contains(cells[j]) by {
            if j < n - 1 {
                assert(prev.contains(cells[j]));
                let m = choose|m: int| 0 <= m < prev.len() && prev[m] == cells[j];
                assert(cur[m] == cells[j]);
            } else {
                assert(cur[prev.len() as int] == cells[j]);
            }
        }
    }
}

/// Thinning never adds cells: whatever the draws against the density, every
/// cell that a logo keeps is a cell that it keeps when every candidate is
/// drawn (density 1).
pub proof fn lemma_thinning_only_removes(
    img: LogoImage,
    threshold: u8,
    invert: bool,
    dark: Seq<bool>,
    keep: Seq<bool>,
)
    requires
        img.wf(),
        dark.len() == img.pixels@.len(),
        keep.len() == img.pixels@.len(),
    ensures
        forall|c: (i32, i32, Color)|
            #[trigger] logo_cells(img, threshold, invert, dark, keep).contains(c) ==> logo_cells(
                img,
                threshold,
                invert,
                dark,
                keep_all(img.pixels@.len() as int),
            ).contains(c),
{
    let px = img.pixels@;
    let n = px.len() as int;
    let w = img.width as int;
    let all = keep_all(n);
    let sel_k = selected_cells(px, w, threshold, invert, dark, keep, n);
    let sel_a = selected_cells(px, w, threshold, invert, dark, all, n);
    lemma_selected_members(px, w, threshold, invert, dark, keep, n);
    lemma_selected_members(px, w, threshold, invert, dark, all, n);
    lemma_drop_isolated_members(sel_k, sel_k.len() as int);
    lemma_drop_isolated_members(sel_a, sel_a.len() as int);
    assert forall|c: (i32, i32, Color)|
        #[trigger] logo_cells(img, threshold, invert, dark, keep).contains(c) implies logo_cells(
            img,
            threshold,
            invert,
            dark,
            all,
        ).contains(c) by {
        let r = logo_cells(img, threshold, invert, dark, keep);
        let m = choose|m: int| 0 <= m < r.len() && r[m] == c;
        assert(kept_entry(sel_k, sel_k.len() as int, r[m]));
        let j = choose|j: int|
            0 <= j < sel_k.len() && sel_k[j] == c && has_neighbor(sel_k, sel_k[j].0 as int, sel_k[j].1 as int);
        assert(sel_k.contains(c));
        let i = choose|i: int| 0 <= i < n && selected_at(px, w, threshold, invert, dark, keep, i) && #[trigger] entry_at(px, w, i) == c;
        assert(selected_at(px, w, threshold, invert, dark, all, i));
        assert(sel_a.contains(c));
        let j2 = choose|j2: int| 0 <= j2 < sel_k.len() && #[trigger] is_adjacent(sel_k[j2], c.0 as int, c.1 as int);
        let d = sel_k[j2];
        assert(sel_k.contains(d));
        let i2 = choose|i2: int| 0 <= i2 < n && selected_at(px, w, threshold, invert, dark, keep, i2) && #[trigger] entry_at(px, w, i2) == d;
        assert(selected_at(px, w, threshold, invert, dark, all, i2));
        assert(sel_a.contains(d));
        let m2 = choose|m2: int| 0 <= m2 < sel_a.len() && sel_a[m2] == d;
        assert(is_adjacent(sel_a[m2], c.0 as int, c.1 as int));
        let j3 = choose|j3: int| 0 <= j3 < sel_a.len() && sel_a[j3] == c;
        assert(has_neighbor(sel_a, sel_a[j3].0 as int, sel_a[j3].1 as int));
    }
}

/// The pixel `i` is a candidate and is kept.
pub open spec fn selected_at(
    pixels: Seq<Color>,
    width: int,
    threshold: u8,
    invert: bool,
    dark: Seq<bool>,
    keep: Seq<bool>,
    i: int,
) -> bool {
    pixel_alive(pixels[i], has_transparency(pixels), threshold, invert, dark[i]) && keep[i]
}

/// The cell that the pixel `i` gives.
pub open spec fn entry_at(pixels: Seq<Color>, width: int, i: int) -> (i32, i32, Color) {
    ((i % width) as i32, (i / width) as i32, pixels[i])
}

/// The selection of the first `n` pixels holds exactly the cells of the
/// selected pixels among them.
proof fn lemma_selected_members(
    pixels: Seq<Color>,
    width: int,
    threshold: u8,
    invert: bool,
    dark: Seq<bool>,
    keep: Seq<bool>,
    n: int,
)
    requires
        0 <= n <= pixels.len(),
    ensures
        forall|c: (i32, i32, Color)|
            #[trigger] selected_cells(pixels, width, threshold, invert, dark, keep, n).contains(c)
                <==> exists|i: int|
                0 <= i < n && selected_at(pixels, width, threshold, invert, dark, keep, i)
                    && #[trigger] entry_at(pixels, width, i) == c,
    decreases n,
{
    if n > 0 {
        lemma_selected_members(pixels, width, threshold, invert, dark, keep, n - 1);
        let prev = selected_cells(pixels, width, threshold, invert, dark, keep, n - 1);
        let cur = selected_cells(pixels, width, threshold, invert, dark, keep, n);
        assert forall|c: (i32, i32, Color)|
            #[trigger] cur.contains(c) <==> exists|i: int|
                0 <= i < n && selected_at(pixels, width, threshold, invert, dark, keep, i)
                    && #[trigger] entry_at(pixels, width, i) == c by {
            if selected_at(pixels, width, threshold, invert, dark, keep, n - 1) {
                if cur.contains(c) {
                    let m = choose|m: int| 0 <= m < cur.len() && cur[m] == c;
                    if m < prev.len() {
                        assert(prev[m] == c);
                        assert(prev.contains(c));
                    } else {
                        assert(entry_at(pixels, width, n - 1) == c);
                    }
                }
                if exists|i: int|
                    0 <= i < n && selected_at(pixels, width, threshold, invert, dark, keep, i)
                        && #[trigger] entry_at(pixels, width, i) == c {
                    let i = choose|i: int|
                        0 <= i < n && selected_at(pixels, width, threshold, invert, dark, keep, i)
                            && #[trigger] entry_at(pixels, width, i) == c;
                    if i < n - 1 {
                        assert(prev.contains(c));
                        let m = choose|m: int| 0 <= m < prev.len() && prev[m] == c;
                        assert(cur[m] == c);
                    } else {
                        assert(cur[prev.len() as int] == c);
                    }
                }
            } else {
                if exists|i: int|
                    0 <= i < n && selected_at(pixels, width, threshold, invert, dark, keep, i)
                        && #[trigger] entry_at(pixels, width, i) == c {
                    let i = choose|i: int|
                        0 <= i < n && selected_at(pixels, width, threshold, invert, dark, keep, i)
                            && #[trigger] entry_at(pixels, width, i) == c;
                    assert(i < n - 1);
                }
            }
        }
    }
}

/// Cleaning twice is cleaning once: a cell that stays has a neighbour that
/// stays, so a second cleaning drops nothing.
pub proof fn lemma_cleanup_idempotent(cells: Seq<(i32, i32, Color)>)
    ensures
        ({
            let r = drop_isolated(cells, cells.len() as int);
            drop_isolated(r, r.len() as int) == r
        }),
{
    let r = drop_isolated(cells, cells.len() as int);
    lemma_no_isolated_cell_left(cells);
    lemma_drop_isolated_keeps_all(r, r.len() as int);
    assert(r.take(r.len() as int) =~= r);
}

/// When every entry has a neighbour, cleaning the first `n` entries keeps
/// them all.
proof fn lemma_drop_isolated_keeps_all(s: Seq<(i32, i32, Color)>, n: int)
    requires
        0 <= n <= s.len(),
        forall|m: int| 0 <= m < s.len() ==> has_neighbor(s, (#[trigger] s[m]).0 as int, s[m].1 as int),
    ensures
        drop_isolated(s, n) == s.take(n),
    decreases n,
{
    if n > 0 {
        lemma_drop_isolated_keeps_all(s, n - 1);
        assert(has_neighbor(s, s[n - 1].0 as int, s[n - 1].1 as int));
        assert(s.take(n) =~= s.take(n - 1).push(s[n - 1]));
    } else {
        assert(s.take(0) =~= Seq::<(i32, i32, Color)>::empty());
    }
}

/// The cell positions of a logo.
pub open spec fn logo_positions(img: LogoImage, threshold: u8, invert: bool, dark: Seq<bool>, keep: Seq<bool>) -> Seq<(i32, i32)> {
    logo_cells(img, threshold, invert, dark, keep).map_values(|c: (i32, i32, Color)| (c.0, c.1))
}

/// `invert` splits the pixels in two: no position is a cell both of the
/// logo and of its inverted logo, whatever is kept of either.
pub proof fn lemma_invert_gives_disjoint_cells(
    img: LogoImage,
    threshold: u8,
    dark: Seq<bool>,
    keep1: Seq<bool>,
    keep2: Seq<bool>,
)
    requires
        img.wf(),
        img.width <= i32::MAX,
        img.height <= i32::MAX,
        dark.len() == img.pixels@.len(),
        keep1.len() == img.pixels@.len(),
        keep2.len() == img.pixels@.len(),
    ensures
        forall|p: (i32, i32)|
            !(#[trigger] logo_positions(img, threshold, true, dark, keep1).contains(p) && logo_positions(
                img,
                threshold,
                false,
                dark,
                keep2,
            ).contains(p)),
{
    assert forall|p: (i32, i32)|
        !(#[trigger] logo_positions(img, threshold, true, dark, keep1).contains(p) && logo_positions(
            img,
            threshold,
            false,
            dark,
            keep2,
        ).contains(p)) by {
        if logo_positions(img, threshold, true, dark, keep1).contains(p) && logo_positions(
            img,
            threshold,
            false,
            dark,
            keep2,
        ).contains(p) {
            let i1 = lemma_position_source(img, threshold, true, dark, keep1, p);
            let i2 = lemma_position_source(img, threshold, false, dark, keep2, p);
            let w = img.width as int;
            let h = img.height as int;
            let n = img.pixels@.len() as int;
            assert(w > 0) by {
                if w == 0 {
                    assert(n == 0);
                }
            }
            assert(0 <= i1 / w < h && 0 <= i2 / w < h) by {
                assert(0 <= i1 / w < h) by (nonlinear_arith)
                    requires
                        0 <= i1 < n,
                        n == w * h,
                        w > 0,
                ;
                assert(0 <= i2 / w < h) by (nonlinear_arith)
                    requires
                        0 <= i2 < n,
                        n == w * h,
                        w > 0,
                ;
            }
            assert(i1 % w == i2 % w);
            assert(i1 / w == i2 / w);
            vstd::arithmetic::div_mod::lemma_fundamental_div_mod(i1, w);
            vstd::arithmetic::div_mod::lemma_fundamental_div_mod(i2, w);
            assert(i1 == i2);
        }
    }
}

/// A position of a logo comes from a pixel that is selected there.
proof fn lemma_position_source(
    img: LogoImage,
    threshold: u8,
    invert: bool,
    dark: Seq<bool>,
    keep: Seq<bool>,
    p: (i32, i32),
) -> (i: int)
    requires
        img.wf(),
        dark.len() == img.pixels@.len(),
        keep.len() == img.pixels@.len(),
        logo_positions(img, threshold, invert, dark, keep).contains(p),
    ensures
        0 <= i < img.pixels@.len(),
        selected_at(img.pixels@, img.width as int, threshold, invert, dark, keep, i),
        entry_at(img.pixels@, img.width as int, i).0 == p.0,
        entry_at(img.pixels@, img.width as int, i).1 == p.1,
{
    let px = img.pixels@;
    let w = img.width as int;
    let n = px.len() as int;
    let sel = selected_cells(px, w, threshold, invert, dark, keep, n);
    let r = drop_isolated(sel, sel.len() as int);
    lemma_selected_members(px, w, threshold, invert, dark, keep, n);
    lemma_drop_isolated_members(sel, sel.len() as int);
    let pos = logo_positions(img, threshold, invert, dark, keep);
    let m = choose|m: int| 0 <= m < pos.len() && pos[m] == p;
    assert(kept_entry(sel, sel.len() as int, r[m]));
    let j = choose|j: int|
        0 <= j < sel.len() && sel[j] == r[m] && has_neighbor(sel, sel[j].0 as int, sel[j].1 as int);
    assert(sel.contains(r[m]));
    choose|i: int| 0 <= i < n && selected_at(px, w, threshold, invert, dark, keep, i) && #[trigger] entry_at(px, w, i) == r[m]
}

/// In an image with transparency the darkness flags play no part: any two
/// sets of flags give the same cells.
pub proof fn lemma_transparent_ignores_darkness(
    img: LogoImage,
    threshold: u8,
    invert: bool,
    dark1: Seq<bool>,
    dark2: Seq<bool>,
    keep: Seq<bool>,
)
    requires
        has_transparency(img.pixels@),
        dark1.len() == img.pixels@.len(),
        dark2.len() == img.pixels@.len(),
    ensures
        logo_cells(img, threshold, invert, dark1, keep) == logo_cells(img, threshold, invert, dark2, keep),
{
    let px = img.pixels@;
    let w = img.width as int;
    lemma_selected_same_darkness(px, w, threshold, invert, dark1, dark2, keep, px.len() as int);
}

proof fn lemma_selected_same_darkness(
    px: Seq<Color>,
    w: int,
    threshold: u8,
    invert: bool,
    dark1: Seq<bool>,
    dark2: Seq<bool>,
    keep: Seq<bool>,
    n: int,
)
    requires
        has_transparency(px),
    ensures
        selected_cells(px, w, threshold, invert, dark1, keep, n) == selected_cells(
            px,
            w,
            threshold,
            invert,
            dark2,
            keep,
            n,
        ),
    decreases n,
{
    if n > 0 {
        lemma_selected_same_darkness(px, w, threshold, invert, dark1, dark2, keep, n - 1);
    }
}

/// Every cell of a logo is the pixel at its position, with that pixel's
/// colour; in an image with transparency an inverted logo's cells are
/// exactly pixels whose alpha is above the threshold, and otherwise pixels
/// whose alpha is at most the threshold.
pub proof fn lemma_logo_cell_pixels(
    img: LogoImage,
    threshold: u8,
    invert: bool,
    dark: Seq<bool>,
    keep: Seq<bool>,
)
    requires
        img.wf(),
        img.width <= i32::MAX,
        img.height <= i32::MAX,
        dark.len() == img.pixels@.len(),
        keep.len() == img.pixels@.len(),
    ensures
        forall|m: int|
            0 <= m < logo_cells(img, threshold, invert, dark, keep).len() ==> {
                let c = #[trigger] logo_cells(img, threshold, invert, dark, keep)[m];
                &&& 0 <= c.0 < img.width
                &&& 0 <= c.1 < img.height
                &&& c.2 == img.pixels@[c.1 * img.width + c.0]
                &&& has_transparency(img.pixels@) ==> (c.2.a > threshold <==> invert)
                &&& !has_transparency(img.pixels@) ==> (dark[c.1 * img.width + c.0] <==> invert)
                &&& keep[c.1 * img.width + c.0]
            },
{
    let px = img.pixels@;
    let w = img.width as int;
    let h = img.height as int;
    let n = px.len() as int;
    let sel = selected_cells(px, w, threshold, invert, dark, keep, n);
    let r = logo_cells(img, threshold, invert, dark, keep);
    lemma_selected_members(px, w, threshold, invert, dark, keep, n);
    lemma_drop_isolated_members(sel, sel.len() as int);
    assert forall|m: int| 0 <= m < r.len() implies {
        let c = #[trigger] r[m];
        &&& 0 <= c.0 < img.width
        &&& 0 <= c.1 < img.height
        &&& c.2 == px[c.1 * img.width + c.0]
        &&& has_transparency(px) ==> (c.2.a > threshold <==> invert)
        &&& !has_transparency(px) ==> (dark[c.1 * img.width + c.0] <==> invert)
        &&& keep[c.1 * img.width + c.0]
    } by {
        let c = r[m];
        assert(kept_entry(sel, sel.len() as int, c));
        let j = choose|j: int|
            0 <= j < sel.len() && sel[j] == c && has_neighbor(sel, sel[j].0 as int, sel[j].1 as int);
        assert(sel.contains(c));
        let i = choose|i: int| 0 <= i < n && selected_at(px, w, threshold, invert, dark, keep, i) && #[trigger] entry_at(px, w, i) == c;
        assert(w > 0) by {
            if w == 0 {
                assert(n == 0);
            }
        }
        assert(0 <= i / w < h) by (nonlinear_arith)
            requires
                0 <= i < n,
                n == w * h,
                w > 0,
        ;
        vstd::arithmetic::div_mod::lemma_fundamental_div_mod(i, w);
        assert(c.0 == i % w && c.1 == i / w);
        assert(c.1 * w == w * (i / w)) by (nonlinear_arith)
            requires
                c.1 == i / w,
        ;
        assert(i == c.1 * w + c.0);
    }
}

/// Every wanted pixel with a wanted pixel next to it becomes a cell, at its
/// own position and with its own colour. A pixel is wanted when it is kept
/// and, in an image with transparency, its alpha is above the threshold
/// (below or at it when `invert` is off); in an opaque image, when its
/// darkness flag equals `invert`.
pub proof fn lemma_logo_keeps_connected_pixels(
    img: LogoImage,
    threshold: u8,
    invert: bool,
    dark: Seq<bool>,
    keep: Seq<bool>,
    x: int,
    y: int,
    x2: int,
    y2: int,
)
    requires
        img.wf(),
        img.width <= i32::MAX,
        img.height <= i32::MAX,
        dark.len() == img.pixels@.len(),
        keep.len() == img.pixels@.len(),
        0 <= x < img.width,
        0 <= y < img.height,
        0 <= x2 < img.width,
        0 <= y2 < img.height,
        x != x2 || y != y2,
        x - 1 <= x2 <= x + 1,
        y - 1 <= y2 <= y + 1,
        ({
            let i = y * img.width + x;
            &&& keep[i]
            &&& if has_transparency(img.pixels@) {
                (img.pixels@[i].a > threshold) == invert
            } else {
                dark[i] == invert
            }
        }),
        ({
            let i = y2 * img.width + x2;
            &&& keep[i]
            &&& if has_transparency(img.pixels@) {
                (img.pixels@[i].a > threshold) == invert
            } else {
                dark[i] == invert
            }
        }),
    ensures
        logo_cells(img, threshold, invert, dark, keep).contains(
            (x as i32, y as i32, img.pixels@[y * img.width + x]),
        ),
{
    let px = img.pixels@;
    let w = img.width as int;
    let h = img.height as int;
    let n = px.len() as int;
    let i1 = y * w + x;
    let i2 = y2 * w + x2;
    crate::life::lemma_cell_index_in_range(x, y, w, h);
    crate::life::lemma_cell_index_in_range(x2, y2, w, h);
    vstd::arithmetic::div_mod::lemma_fundamental_div_mod_converse(i1, w, y, x);
    vstd::arithmetic::div_mod::lemma_fundamental_div_mod_converse(i2, w, y2, x2);
    let sel = selected_cells(px, w, threshold, invert, dark, keep, n);
    lemma_selected_members(px, w, threshold, invert, dark, keep, n);
    lemma_drop_isolated_members(sel, sel.len() as int);
    assert(selected_at(px, w, threshold, invert, dark, keep, i1));
    assert(selected_at(px, w, threshold, invert, dark, keep, i2));
    let e1 = entry_at(px, w, i1);
    let e2 = entry_at(px, w, i2);
    assert(sel.contains(e1));
    assert(sel.contains(e2));
    let j1 = choose|j: int| 0 <= j < sel.len() && sel[j] == e1;
    let j2 = choose|j: int| 0 <= j < sel.len() && sel[j] == e2;
    assert(is_adjacent(sel[j2], e1.0 as int, e1.1 as int));
    assert(has_neighbor(sel, sel[j1].0 as int, sel[j1].1 as int));
}

} // verus!

use vstd::prelude::*;
use vstd::wrapping::i32_specs::wrapping_mul;

use crate::cells::{CellColors, CellSet};
use crate::color::{spec_white, Color};
use crate::framebuffer::Framebuffer;

verus! {

/// The magnitude of `v` as an unsigned number.
pub open spec fn magnitude(v: i32) -> int {
    if v < 0 {
        -v
    } else {
        v as int
    }
}

/// The palette entry that a cell `(x, y)` without a logo colour takes from a
/// palette of `len` colours: a hash of its coordinates modulo `len`.
pub open spec fn palette_index(x: i32, y: i32, len: int) -> int {
    magnitude(wrapping_mul(x, 31) ^ wrapping_mul(y, 17)) % len
}

/// The colour the cell `(x, y)` is drawn in: its logo colour when it has
/// one, otherwise white with an empty palette, otherwise the palette entry
/// picked by `palette_index`.
pub open spec fn cell_color(logo: Option<Color>, x: i32, y: i32, palette: Seq<Color>) -> Color {
    match logo {
        Some(c) => c,
        None => if palette.len() == 0 {
            spec_white()
        } else {
            palette[palette_index(x, y, palette.len() as int)]
        },
    }
}

/// The colour the cell `(x, y)` is drawn in (see `cell_color`).
pub fn color_for_cell(x: i32, y: i32, logo_colors: &CellColors, logo_palette: &Vec<Color>) -> (c: Color)
    requires
        logo_colors.wf(),
    ensures
        c == cell_color(logo_colors.lookup(x, y), x, y, logo_palette@),
{
    if let Some(color) = logo_colors.get(x, y) {
        return color;
    }
    if logo_palette.len() == 0 {
        return Color::white();
    }
    let hash: i32 = x.wrapping_mul(31) ^ y.wrapping_mul(17);
    let magnitude: u32 = if hash < 0 {
        (-(hash as i64)) as u32
    } else {
        hash as u32
    };
    let index = (magnitude as usize) % logo_palette.len();
    logo_palette[index]
}

/// `s` without repeats, each colour where it first occurs.
pub open spec fn distinct(s: Seq<Color>) -> Seq<Color>
    decreases s.len(),
{
    if s.len() == 0 {
        Seq::empty()
    } else {
        let d = distinct(s.drop_last());
        if d.contains(s.last()) {
            d
        } else {
            d.push(s.last())
        }
    }
}

/// The logo colours of the listed cells, in the order of the list.
pub open spec fn listed_colors(colors: CellColors) -> Seq<Color> {
    colors.cells().map_values(|p: (i32, i32)| colors.lookup(p.0, p.1).unwrap())
}

/// Whether `c` is in `palette`.
fn palette_contains(palette: &Vec<Color>, c: Color) -> (r: bool)
    ensures
        r == palette@.contains(c),
{
    let mut i: usize = 0;
    while i < palette.len()
        invariant
            i <= palette@.len(),
            forall|j: int| 0 <= j < i ==> palette@[j] != c,
        decreases palette@.len() - i,
    {
        if palette[i] == c {
            return true;
        }
        i = i + 1;
    }
    false
}

/// The distinct logo colours, in the order in which their cells were
/// first inserted.
pub fn distinct_logo_colors(logo_colors: &CellColors) -> (palette: Vec<Color>)
    requires
        logo_colors.wf(),
    ensures
        palette@ == distinct(listed_colors(*logo_colors)),
{
    let cells = logo_colors.cells_in_order();
    let ghost all = listed_colors(*logo_colors);
    let mut palette: Vec<Color> = Vec::new();
    let mut i: usize = 0;
    while i < cells.len()
        invariant
            logo_colors.wf(),
            cells@ == logo_colors.cells(),
            all == listed_colors(*logo_colors),
            i <= cells@.len(),
            palette@ == distinct(all.take(i as int)),
        decreases cells@.len() - i,
    {
        let (x, y) = cells[i];
        proof {
            logo_colors.lemma_lookup_listed(x, y);
            assert(cells@[i as int] == (x, y));
            assert(cells@.contains((x, y)));
            assert(all.take(i + 1).drop_last() =~= all.take(i as int));
        }
        match logo_colors.get(x, y) {
            Some(color) => {
                if !palette_contains(&palette, color) {
                    palette.push(color);
                }
            },
            None => {},
        }
        i = i + 1;
    }
    proof {
        assert(all.take(cells@.len() as int) =~= all);
    }
    palette
}

/// Entry `a` comes before entry `b` when sorting by `keys`, ties broken by
/// position.
pub open spec fn key_before(keys: Seq<u32>, a: int, b: int) -> bool {
    keys[a] < keys[b] || (keys[a] == keys[b] && a < b)
}

/// `order` lists each position `0..keys.len()` once, sorted by key, equal
/// keys in the order they had (a stable sort).
pub open spec fn stable_key_order(order: Seq<int>, keys: Seq<u32>) -> bool {
    &&& order.len() == keys.len()
    &&& forall|p: int| 0 <= p < order.len() ==> 0 <= #[trigger] order[p] < keys.len()
    &&& forall|j: int| 0 <= j < keys.len() ==> #[trigger] order.contains(j)
    &&& forall|p: int, q: int|
        0 <= p < q < order.len() ==> key_before(keys, #[trigger] order[p], #[trigger] order[q])
}

/// Sorts the palette by `keys` (the key of `palette[i]` is `keys[i]`),
/// keeping colours with equal keys in their order.
pub fn sort_palette(palette: &Vec<Color>, keys: &Vec<u32>) -> (sorted: Vec<Color>)
    requires
        keys@.len() == palette@.len(),
    ensures
        exists|order: Seq<int>|
            stable_key_order(order, keys@) && sorted@ == order.map_values(|j: int| palette@[j]),
{
    let n = palette.len();
    let mut order: Vec<usize> = Vec::new();
    let mut i: usize = 0;
    while i < n
        invariant
            n == palette@.len(),
            n == keys@.len(),
            i <= n,
            order@.len() == i,
            forall|p: int| 0 <= p < order@.len() ==> #[trigger] order@[p] < i,
            forall|j: int| 0 <= j < i ==> #[trigger] order@.contains(j as usize),
            forall|p: int, q: int|
                0 <= p < q < order@.len() ==> key_before(
                    keys@,
                    #[trigger] order@[p] as int,
                    #[trigger] order@[q] as int,
                ),
        decreases n - i,
    {
        let mut pos: usize = 0;
        while pos < order.len() && keys[order[pos]] <= keys[i]
            invariant
                n == keys@.len(),
                i < n,
                pos <= order@.len(),
                forall|p: int| 0 <= p < order@.len() ==> #[trigger] order@[p] < i,
                forall|p: int| 0 <= p < pos ==> keys@[#[trigger] order@[p] as int] <= keys@[i as int],
            decreases order@.len() - pos,
        {
            pos = pos + 1;
        }
        let ghost before = order@;
        proof {
            assert forall|q: int| pos <= q < before.len() implies keys@[i as int] < keys@[#[trigger] before[q] as int] by {
                if q > pos {
                    assert(key_before(keys@, before[pos as int] as int, before[q] as int));
                }
            }
        }
        order.insert(pos, i);
        proof {
            let o = order@;
            assert forall|p: int| 0 <= p < o.len() implies #[trigger] o[p] < i + 1 by {
                if p < pos {
                    assert(o[p] == before[p]);
                } else if p > pos {
                    assert(o[p] == before[p - 1]);
                }
            }
            assert forall|j: int| 0 <= j < i + 1 implies #[trigger] o.contains(j as usize) by {
                if j == i {
                    assert(o[pos as int] == i);
                } else {
                    assert(before.contains(j as usize));
                    let p = choose|p: int| 0 <= p < before.len() && before[p] == j as usize;
                    if p < pos {
                        assert(o[p] == before[p]);
                    } else {
                        assert(o[p + 1] == before[p]);
                    }
                }
            }
            assert forall|p: int, q: int| 0 <= p < q < o.len() implies key_before(
                keys@,
                #[trigger] o[p] as int,
                #[trigger] o[q] as int,
            ) by {
                if q < pos {
                    assert(o[p] == before[p] && o[q] == before[q]);
                } else if q == pos {
                    assert(o[p] == before[p]);
                } else if p < pos {
                    assert(o[p] == before[p] && o[q] == before[q - 1]);
                } else if p == pos {
                    assert(o[q] == before[q - 1]);
                } else {
                    assert(o[p] == before[p - 1] && o[q] == before[q - 1]);
                }
            }
        }
        i = i + 1;
    }
    let mut sorted: Vec<Color> = Vec::new();
    let mut k: usize = 0;
    while k < n
        invariant
            n == palette@.len(),
            n == order@.len(),
            forall|p: int| 0 <= p < order@.len() ==> #[trigger] order@[p] < n,
            k <= n,
            sorted@.len() == k,
            forall|p: int| 0 <= p < k ==> #[trigger] sorted@[p] == palette@[order@[p] as int],
        decreases n - k,
    {
        sorted.push(palette[order[k]]);
        k = k + 1;
    }
    proof {
        let ord = order@.map_values(|j: usize| j as int);
        assert forall|j: int| 0 <= j < n implies #[trigger] ord.contains(j) by {
            assert(order@.contains(j as usize));
            let p = choose|p: int| 0 <= p < order@.len() && order@[p] == j as usize;
            assert(ord[p] == j);
        }
        assert(stable_key_order(ord, keys@));
        assert(sorted@ =~= ord.map_values(|j: int| palette@[j]));
    }
    sorted
}

/// The cell that the pixel `i` of a buffer `w` wide shows.
pub open spec fn pixel_cell(i: int, w: int) -> (i32, i32) {
    ((i % w) as i32, (i / w) as i32)
}

/// Draws the board: the buffer is cleared, then each live cell that lies on
/// it is painted in its colour (`cell_color`).
pub fn render(
    framebuffer: &mut Framebuffer,
    live_cells: &CellSet,
    logo_colors: &CellColors,
    logo_palette: &Vec<Color>,
)
    requires
        old(framebuffer).wf(),
        live_cells.wf(),
        logo_colors.wf(),
    ensures
        final(framebuffer).wf(),
        final(framebuffer).w() == old(framebuffer).w(),
        final(framebuffer).h() == old(framebuffer).h(),
        final(framebuffer).background() == old(framebuffer).background(),
        final(framebuffer).current() == old(framebuffer).current(),
        forall|i: int|
            0 <= i < final(framebuffer).pixels().len() ==> #[trigger] final(framebuffer).pixels()[i]
                == ({
                let p = pixel_cell(i, old(framebuffer).w());
                if live_cells.cells().contains(p) {
                    cell_color(logo_colors.lookup(p.0, p.1), p.0, p.1, logo_palette@)
                } else {
                    old(framebuffer).background()
                }
            }),
{
    framebuffer.clear();
    let cells = live_cells.cells_in_order();
    let ghost w = framebuffer.w();
    let ghost h = framebuffer.h();
    let ghost bg = framebuffer.background();
    let mut k: usize = 0;
    while k < cells.len()
        invariant
            framebuffer.wf(),
            framebuffer.w() == w,
            framebuffer.h() == h,
            w == old(framebuffer).w(),
            h == old(framebuffer).h(),
            framebuffer.background() == bg,
            bg == old(framebuffer).background(),
            framebuffer.current() == old(framebuffer).current(),
            logo_colors.wf(),
            cells@ == live_cells.cells(),
            k <= cells@.len(),
            forall|i: int|
                0 <= i < framebuffer.pixels().len() ==> #[trigger] framebuffer.pixels()[i] == ({
                    let p = pixel_cell(i, w);
                    if cells@.take(k as int).contains(p) {
                        cell_color(logo_colors.lookup(p.0, p.1), p.0, p.1, logo_palette@)
                    } else {
                        bg
                    }
                }),
        decreases cells@.len() - k,
    {
        let (x, y) = cells[k];
        let color = color_for_cell(x, y, logo_colors, logo_palette);
        let ghost before = framebuffer.pixels();
        framebuffer.set_pixel(x, y, color);
        proof {
            let t = cells@.take(k as int);
            let t1 = cells@.take(k + 1);
            assert(t1 =~= t.push((x, y)));
            assert forall|i: int| 0 <= i < framebuffer.pixels().len() implies #[trigger] framebuffer.pixels()[i] == ({
                let p = pixel_cell(i, w);
                if t1.contains(p) {
                    cell_color(logo_colors.lookup(p.0, p.1), p.0, p.1, logo_palette@)
                } else {
                    bg
                }
            }) by {
                let p = pixel_cell(i, w);
                let qx = i % w;
                let qy = i / w;
                vstd::arithmetic::div_mod::lemma_fundamental_div_mod(i, w);
                assert(0 <= qx < w);
                assert(0 <= qy < h) by {
                    if qy >= h {
                        assert(qy * w >= h * w) by (nonlinear_arith)
                            requires
                                qy >= h,
                                w > 0,
                        ;
                    }
                    if qy < 0 {
                        assert(qy * w < 0) by (nonlinear_arith)
                            requires
                                qy < 0,
                                w > 0,
                        ;
                    }
                }
                assert(p.0 == qx && p.1 == qy);
                assert(t1.contains(p) <==> (t.contains(p) || p == (x, y))) by {
                    if t1.contains(p) && p != (x, y) {
                        let m = choose|m: int| 0 <= m < t1.len() && t1[m] == p;
                        assert(t[m] == p);
                    }
                    if t.contains(p) {
                        let m = choose|m: int| 0 <= m < t.len() && t[m] == p;
                        assert(t1[m] == p);
                    }
                    if p == (x, y) {
                        assert(t1[k as int] == p);
                    }
                }
                if framebuffer.in_bounds(x as int, y as int) {
                    crate::life::lemma_cell_index_in_range(x as int, y as int, w, h);
                    vstd::arithmetic::div_mod::lemma_fundamental_div_mod_converse(
                        y * w + x,
                        w,
                        y as int,
                        x as int,
                    );
                    if i != y * w + x {
                        assert(p != (x, y));
                    }
                }
            }
        }
        k = k + 1;
    }
    proof {
        assert(cells@.take(cells@.len() as int) =~= cells@);
    }
}

/// The cell `(x, y)` moved by `(dx, dy)` is on the `i32` plane.
pub open spec fn shift_fits(x: int, y: int, dx: int, dy: int) -> bool {
    &&& i32::MIN <= x + dx <= i32::MAX
    &&& i32::MIN <= y + dy <= i32::MAX
}

/// The list of cells `s` after inserting `p`: `p` is appended unless it is
/// already listed.
pub open spec fn with_inserted(s: Seq<(i32, i32)>, p: (i32, i32)) -> Seq<(i32, i32)> {
    if s.contains(p) {
        s
    } else {
        s.push(p)
    }
}

/// The list of cells `s` after inserting the cells of `pts` one by one.
pub open spec fn with_all_inserted(s: Seq<(i32, i32)>, pts: Seq<(i32, i32)>) -> Seq<(i32, i32)>
    decreases pts.len(),
{
    if pts.len() == 0 {
        s
    } else {
        with_inserted(with_all_inserted(s, pts.drop_last()), pts.last())
    }
}

/// The cells of `pattern` moved by `(dx, dy)`.
pub open spec fn shifted(pattern: Seq<(i32, i32)>, dx: int, dy: int) -> Seq<(i32, i32)> {
    pattern.map_values(|q: (i32, i32)| ((q.0 + dx) as i32, (q.1 + dy) as i32))
}

/// The positions of the logo cells `cells` moved by `(ox, oy)`.
pub open spec fn placed(cells: Seq<(i32, i32, Color)>, ox: int, oy: int) -> Seq<(i32, i32)> {
    cells.map_values(|c: (i32, i32, Color)| ((ox + c.0) as i32, (oy + c.1) as i32))
}

/// Adds the cells of `pattern`, moved by `(dx, dy)`, to the live cells.
pub fn place_pattern(live: &mut CellSet, pattern: &Vec<(i32, i32)>, dx: i32, dy: i32)
    requires
        old(live).wf(),
        forall|j: int|
            0 <= j < pattern@.len() ==> shift_fits(
                (#[trigger] pattern@[j]).0 as int,
                pattern@[j].1 as int,
                dx as int,
                dy as int,
            ),
    ensures
        final(live).wf(),
        final(live).cells() == with_all_inserted(old(live).cells(), shifted(pattern@, dx as int, dy as int)),
{
    let ghost pts = shifted(pattern@, dx as int, dy as int);
    let mut k: usize = 0;
    while k < pattern.len()
        invariant
            live.wf(),
            k <= pattern@.len(),
            pts == shifted(pattern@, dx as int, dy as int),
            forall|j: int|
                0 <= j < pattern@.len() ==> shift_fits(
                    (#[trigger] pattern@[j]).0 as int,
                    pattern@[j].1 as int,
                    dx as int,
                    dy as int,
                ),
            live.cells() == with_all_inserted(old(live).cells(), pts.take(k as int)),
        decreases pattern@.len() - k,
    {
        let (px, py) = pattern[k];
        live.insert(px + dx, py + dy);
        proof {
            assert(pts.take(k + 1).drop_last() =~= pts.take(k as int));
        }
        k = k + 1;
    }
    proof {
        assert(pts.take(pattern@.len() as int) =~= pts);
    }
}

/// The colour of the last of the first `n` logo cells that lands on
/// `(x, y)` once moved by `(ox, oy)`.
pub open spec fn last_placed_color(
    cells: Seq<(i32, i32, Color)>,
    ox: int,
    oy: int,
    n: int,
    x: int,
    y: int,
) -> Option<Color>
    decreases n,
{
    if n <= 0 {
        None
    } else if ox + cells[n - 1].0 == x && oy + cells[n - 1].1 == y {
        Some(cells[n - 1].2)
    } else {
        last_placed_color(cells, ox, oy, n - 1, x, y)
    }
}

/// Places the logo cells, moved by `(origin_x, origin_y)`: each becomes a
/// live cell and records its colour (a later cell on the same spot wins).
pub fn place_logo(
    live: &mut CellSet,
    logo_colors: &mut CellColors,
    cells: &Vec<(i32, i32, Color)>,
    origin_x: i32,
    origin_y: i32,
)
    requires
        old(live).wf(),
        old(logo_colors).wf(),
        forall|j: int|
            0 <= j < cells@.len() ==> shift_fits(
                origin_x as int,
                origin_y as int,
                (#[trigger] cells@[j]).0 as int,
                cells@[j].1 as int,
            ),
    ensures
        final(live).wf(),
        final(logo_colors).wf(),
        final(live).cells() == with_all_inserted(
            old(live).cells(),
            placed(cells@, origin_x as int, origin_y as int),
        ),
        final(logo_colors).cells() == with_all_inserted(
            old(logo_colors).cells(),
            placed(cells@, origin_x as int, origin_y as int),
        ),
        forall|x: i32, y: i32|
            #[trigger] final(logo_colors).lookup(x, y) == match last_placed_color(
                cells@,
                origin_x as int,
                origin_y as int,
                cells@.len() as int,
                x as int,
                y as int,
            ) {
                Some(c) => Some(c),
                None => old(logo_colors).lookup(x, y),
            },
{
    let ghost pts = placed(cells@, origin_x as int, origin_y as int);
    let mut k: usize = 0;
    while k < cells.len()
        invariant
            live.wf(),
            logo_colors.wf(),
            k <= cells@.len(),
            pts == placed(cells@, origin_x as int, origin_y as int),
            forall|j: int|
                0 <= j < cells@.len() ==> shift_fits(
                    origin_x as int,
                    origin_y as int,
                    (#[trigger] cells@[j]).0 as int,
                    cells@[j].1 as int,
                ),
            live.cells() == with_all_inserted(old(live).cells(), pts.take(k as int)),
            logo_colors.cells() == with_all_inserted(old(logo_colors).cells(), pts.take(k as int)),
            forall|x: i32, y: i32|
                #[trigger] logo_colors.lookup(x, y) == match last_placed_color(
                    cells@,
                    origin_x as int,
                    origin_y as int,
                    k as int,
                    x as int,
                    y as int,
                ) {
                    Some(c) => Some(c),
                    None => old(logo_colors).lookup(x, y),
                },
        decreases cells@.len() - k,
    {
        let (dx, dy, color) = cells[k];
        let x = origin_x + dx;
        let y = origin_y + dy;
        live.insert(x, y);
        logo_colors.insert(x, y, color);
        proof {
            assert(pts.take(k + 1).drop_last() =~= pts.take(k as int));
        }
        k = k + 1;
    }
    proof {
        assert(pts.take(cells@.len() as int) =~= pts);
    }
}

/// Inserting cells one by one lists exactly the cells listed before and the
/// inserted ones.
pub proof fn lemma_with_all_inserted_contains(s: Seq<(i32, i32)>, pts: Seq<(i32, i32)>)
    ensures
        forall|p: (i32, i32)|
            #[trigger] with_all_inserted(s, pts).contains(p) <==> (s.contains(p) || pts.contains(p)),
    decreases pts.len(),
{
    if pts.len() > 0 {
        let t = pts.drop_last();
        lemma_with_all_inserted_contains(s, t);
        let before = with_all_inserted(s, t);
        lemma_insert_contains(before, with_all_inserted(s, pts), pts.last().0, pts.last().1);
        assert forall|p: (i32, i32)|
            #[trigger] with_all_inserted(s, pts).contains(p) <==> (s.contains(p) || pts.contains(p)) by {
            if t.contains(p) {
                let m = choose|m: int| 0 <= m < t.len() && t[m] == p;
                assert(pts[m] == p);
            }
            if pts.contains(p) && p != pts.last() {
                let m = choose|m: int| 0 <= m < pts.len() && pts[m] == p;
                assert(t[m] == p);
            }
            assert(pts[pts.len() - 1] == pts.last());
        }
    }
}

/// After an insertion into a cell set, a cell is listed exactly when it was
/// listed before or is the inserted one.
proof fn lemma_insert_contains(before: Seq<(i32, i32)>, after: Seq<(i32, i32)>, x: i32, y: i32)
    requires
        (before.contains((x, y)) && after == before) || (!before.contains((x, y)) && after
            == before.push((x, y))),
    ensures
        forall|p: (i32, i32)| #[trigger] after.contains(p) <==> (before.contains(p) || p == (x, y)),
{
    assert forall|p: (i32, i32)| #[trigger] after.contains(p) <==> (before.contains(p) || p == (x, y)) by {
        if !before.contains((x, y)) {
            if after.contains(p) && p != (x, y) {
                let m = choose|m: int| 0 <= m < after.len() && after[m] == p;
                assert(before[m] == p);
            }
            if before.contains(p) {
                let m = choose|m: int| 0 <= m < before.len() && before[m] == p;
                assert(after[m] == p);
            }
            if p == (x, y) {
                assert(after[before.len() as int] == p);
            }
        }
    }
}

/// The palette entry a cell takes always exists: the hash lands inside a
/// non-empty palette.
pub proof fn lemma_palette_index_in_range(x: i32, y: i32, len: int)
    requires
        len > 0,
    ensures
        0 <= palette_index(x, y, len) < len,
{
}

/// The distinct colours hold no colour twice and hold every colour of the
/// list, and nothing else.
pub proof fn lemma_distinct_colors(s: Seq<Color>)
    ensures
        distinct(s).no_duplicates(),
        forall|c: Color| #[trigger] distinct(s).contains(c) <==> s.contains(c),
    decreases s.len(),
{
    if s.len() > 0 {
        let t = s.drop_last();
        lemma_distinct_colors(t);
        let d = distinct(t);
        assert forall|c: Color| #[trigger] distinct(s).contains(c) <==> s.contains(c) by {
            if t.contains(c) {
                let m = choose|m: int| 0 <= m < t.len() && t[m] == c;
                assert(s[m] == c);
            }
            if s.contains(c) && c != s.last() {
                let m = choose|m: int| 0 <= m < s.len() && s[m] == c;
                assert(t[m] == c);
            }
            if s.contains(c) && c == s.last() {
                assert(s.last() == c);
            }
            if distinct(s).contains(c) && !d.contains(c) {
                let m = choose|m: int| 0 <= m < distinct(s).len() && distinct(s)[m] == c;
                if m < d.len() {
                    assert(d[m] == c);
                }
            }
            if d.contains(c) && !d.contains(s.last()) {
                let m = choose|m: int| 0 <= m < d.len() && d[m] == c;
                assert(distinct(s)[m] == c);
            }
            if c == s.last() && !d.contains(s.last()) {
                assert(distinct(s)[d.len() as int] == c);
            }
            assert(s.last() == s[s.len() - 1]);
        }
    }
}

/// The palette that `distinct_logo_colors` builds holds the colour of every
/// logo cell, holds only colours of logo cells, and holds no colour twice.
pub proof fn lemma_palette_holds_every_logo_color(colors: CellColors, palette: Seq<Color>)
    requires
        colors.wf(),
        palette == distinct(listed_colors(colors)),
    ensures
        forall|p: (i32, i32)|
            #[trigger] colors.cells().contains(p) ==> palette.contains(colors.lookup(p.0, p.1).unwrap()),
        forall|c: Color|
            #[trigger] palette.contains(c) ==> exists|p: (i32, i32)|
                #[trigger] colors.cells().contains(p) && colors.lookup(p.0, p.1) == Some(c),
        palette.no_duplicates(),
{
    let all = listed_colors(colors);
    lemma_distinct_colors(all);
    assert forall|p: (i32, i32)|
        #[trigger] colors.cells().contains(p) implies palette.contains(colors.lookup(p.0, p.1).unwrap()) by {
        let m = choose|m: int| 0 <= m < colors.cells().len() && colors.cells()[m] == p;
        assert(all[m] == colors.lookup(p.0, p.1).unwrap());
        assert(all.contains(colors.lookup(p.0, p.1).unwrap()));
    }
    assert forall|c: Color| #[trigger] palette.contains(c) implies exists|p: (i32, i32)|
        #[trigger] colors.cells().contains(p) && colors.lookup(p.0, p.1) == Some(c) by {
        assert(all.contains(c));
        let m = choose|m: int| 0 <= m < all.len() && all[m] == c;
        let p = colors.cells()[m];
        assert(colors.cells().contains(p));
        colors.lemma_lookup_listed(p.0, p.1);
    }
}

/// Placing a pattern moves each of its cells by the offset: afterwards the
/// live cells are those there before and the cells `(x + dx, y + dy)` of
/// the pattern, and nothing else.
pub proof fn lemma_place_pattern_moves_by_offset(
    before: Seq<(i32, i32)>,
    after: Seq<(i32, i32)>,
    pattern: Seq<(i32, i32)>,
    dx: i32,
    dy: i32,
)
    requires
        forall|j: int|
            0 <= j < pattern.len() ==> shift_fits(
                (#[trigger] pattern[j]).0 as int,
                pattern[j].1 as int,
                dx as int,
                dy as int,
            ),
        after == with_all_inserted(before, shifted(pattern, dx as int, dy as int)),
    ensures
        forall|j: int|
            0 <= j < pattern.len() ==> after.contains(
                (((#[trigger] pattern[j]).0 + dx) as i32, (pattern[j].1 + dy) as i32),
            ),
        forall|p: (i32, i32)|
            #[trigger] after.contains(p) ==> before.contains(p) || exists|j: int|
                0 <= j < pattern.len() && (#[trigger] pattern[j]).0 + dx == p.0 && pattern[j].1 + dy
                    == p.1,
{
    let pts = shifted(pattern, dx as int, dy as int);
    lemma_with_all_inserted_contains(before, pts);
    assert forall|j: int| 0 <= j < pattern.len() implies after.contains(
        (((#[trigger] pattern[j]).0 + dx) as i32, (pattern[j].1 + dy) as i32),
    ) by {
        assert(pts[j] == (((pattern[j]).0 + dx) as i32, (pattern[j].1 + dy) as i32));
        assert(pts.contains(pts[j]));
    }
    assert forall|p: (i32, i32)| #[trigger] after.contains(p) implies before.contains(p) || exists|j: int|
        0 <= j < pattern.len() && (#[trigger] pattern[j]).0 + dx == p.0 && pattern[j].1 + dy == p.1 by {
        if !before.contains(p) {
            let m = choose|m: int| 0 <= m < pts.len() && pts[m] == p;
            assert(shift_fits(pattern[m].0 as int, pattern[m].1 as int, dx as int, dy as int));
            assert(pattern[m].0 + dx == p.0 && pattern[m].1 + dy == p.1);
        }
    }
}

/// Placing the logo puts each entry `(dx, dy, c)` at `(origin_x + dx,
/// origin_y + dy)`: afterwards the live cells are those there before and
/// these, and nothing else; a cell where an entry lands gets the colour of
/// the last entry landing there, and every other cell keeps its colour.
pub proof fn lemma_place_logo_lands_at_origin(
    live_before: Seq<(i32, i32)>,
    live_after: Seq<(i32, i32)>,
    colors_before: CellColors,
    colors_after: CellColors,
    cells: Seq<(i32, i32, Color)>,
    origin_x: i32,
    origin_y: i32,
)
    requires
        forall|j: int|
            0 <= j < cells.len() ==> shift_fits(
                origin_x as int,
                origin_y as int,
                (#[trigger] cells[j]).0 as int,
                cells[j].1 as int,
            ),
        live_after == with_all_inserted(live_before, placed(cells, origin_x as int, origin_y as int)),
        forall|x: i32, y: i32|
            #[trigger] colors_after.lookup(x, y) == match last_placed_color(
                cells,
                origin_x as int,
                origin_y as int,
                cells.len() as int,
                x as int,
                y as int,
            ) {
                Some(c) => Some(c),
                None => colors_before.lookup(x, y),
            },
    ensures
        forall|j: int|
            0 <= j < cells.len() ==> live_after.contains(
                ((origin_x + (#[trigger] cells[j]).0) as i32, (origin_y + cells[j].1) as i32),
            ),
        forall|p: (i32, i32)|
            #[trigger] live_after.contains(p) ==> live_before.contains(p) || exists|j: int|
                0 <= j < cells.len() && origin_x + (#[trigger] cells[j]).0 == p.0 && origin_y
                    + cells[j].1 == p.1,
        forall|j: int|
            0 <= j < cells.len() && (forall|j2: int|
                j < j2 < cells.len() ==> !(origin_x + (#[trigger] cells[j2]).0 == origin_x + cells[j].0
                    && origin_y + cells[j2].1 == origin_y + cells[j].1)) ==> colors_after.lookup(
                (origin_x + (#[trigger] cells[j]).0) as i32,
                (origin_y + cells[j].1) as i32,
            ) == Some(cells[j].2),
        forall|x: i32, y: i32|
            (forall|j: int|
                0 <= j < cells.len() ==> !(origin_x + (#[trigger] cells[j]).0 == x && origin_y
                    + cells[j].1 == y)) ==> #[trigger] colors_after.lookup(x, y) == colors_before.lookup(x, y),
{
    let ox = origin_x as int;
    let oy = origin_y as int;
    let n = cells.len() as int;
    let pts = placed(cells, ox, oy);
    lemma_with_all_inserted_contains(live_before, pts);
    assert forall|j: int| 0 <= j < cells.len() implies live_after.contains(
        ((origin_x + (#[trigger] cells[j]).0) as i32, (origin_y + cells[j].1) as i32),
    ) by {
        assert(pts[j] == ((origin_x + cells[j].0) as i32, (origin_y + cells[j].1) as i32));
        assert(pts.contains(pts[j]));
    }
    assert forall|p: (i32, i32)| #[trigger] live_after.contains(p) implies live_before.contains(p) || exists|j: int|
        0 <= j < cells.len() && origin_x + (#[trigger] cells[j]).0 == p.0 && origin_y + cells[j].1 == p.1 by {
        if !live_before.contains(p) {
            let m = choose|m: int| 0 <= m < pts.len() && pts[m] == p;
            assert(shift_fits(ox, oy, cells[m].0 as int, cells[m].1 as int));
            assert(origin_x + cells[m].0 == p.0 && origin_y + cells[m].1 == p.1);
        }
    }
    assert forall|j: int|
        0 <= j < cells.len() && (forall|j2: int|
            j < j2 < cells.len() ==> !(origin_x + (#[trigger] cells[j2]).0 == origin_x + cells[j].0
                && origin_y + cells[j2].1 == origin_y + cells[j].1)) implies colors_after.lookup(
        (origin_x + (#[trigger] cells[j]).0) as i32,
        (origin_y + cells[j].1) as i32,
    ) == Some(cells[j].2) by {
        assert(shift_fits(ox, oy, cells[j].0 as int, cells[j].1 as int));
        let x = (origin_x + cells[j].0) as i32;
        let y = (origin_y + cells[j].1) as i32;
        lemma_last_placed_is_last(cells, ox, oy, n, j, x as int, y as int);
    }
    assert forall|x: i32, y: i32|
        (forall|j: int|
            0 <= j < cells.len() ==> !(origin_x + (#[trigger] cells[j]).0 == x && origin_y + cells[j].1
                == y)) implies #[trigger] colors_after.lookup(x, y) == colors_before.lookup(x, y) by {
        lemma_last_placed_none(cells, ox, oy, n, x as int, y as int);
    }
}

/// The last of the first `n` entries landing on `(x, y)` gives its colour.
proof fn lemma_last_placed_is_last(
    cells: Seq<(i32, i32, Color)>,
    ox: int,
    oy: int,
    n: int,
    j: int,
    x: int,
    y: int,
)
    requires
        0 <= j < n <= cells.len(),
        ox + cells[j].0 == x && oy + cells[j].1 == y,
        forall|j2: int| j < j2 < cells.len() ==> !(ox + (#[trigger] cells[j2]).0 == ox + cells[j].0 && oy
            + cells[j2].1 == oy + cells[j].1),
    ensures
        last_placed_color(cells, ox, oy, n, x, y) == Some(cells[j].2),
    decreases n,
{
    if n - 1 > j {
        assert(!(ox + cells[n - 1].0 == ox + cells[j].0 && oy + cells[n - 1].1 == oy + cells[j].1));
        lemma_last_placed_is_last(cells, ox, oy, n - 1, j, x, y);
    }
}

/// No colour is placed where no entry lands.
proof fn lemma_last_placed_none(cells: Seq<(i32, i32, Color)>, ox: int, oy: int, n: int, x: int, y: int)
    requires
        0 <= n <= cells.len(),
        forall|j: int| 0 <= j < cells.len() ==> !(ox + (#[trigger] cells[j]).0 == x && oy + cells[j].1 == y),
    ensures
        last_placed_color(cells, ox, oy, n, x, y) is None,
    decreases n,
{
    if n > 0 {
        assert(!(ox + cells[n - 1].0 == x && oy + cells[n - 1].1 == y));
        lemma_last_placed_none(cells, ox, oy, n - 1, x, y);
    }
}

} // verus!

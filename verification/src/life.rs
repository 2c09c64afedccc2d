use vstd::prelude::*;
use vstd::arithmetic::div_mod::{lemma_fundamental_div_mod_converse, lemma_small_mod};

use crate::color::{channel, spec_white, Color};

verus! {

/// The offset of the `k`-th neighbour (0 <= k < 8) as `(dx, dy)`, walking
/// the 3x3 block row by row from the top left and leaving out its centre.
pub open spec fn neighbor_offset(k: int) -> (int, int) {
    if k < 3 {
        (k - 1, -1)
    } else if k == 3 {
        (-1, 0)
    } else if k == 4 {
        (1, 0)
    } else {
        (k - 6, 1)
    }
}

/// `c` brought into `0..size` on a ring of `size` positions.
pub open spec fn wrap(c: int, size: int) -> int {
    c % size
}

/// How many entries of `s` hold a live cell.
pub open spec fn count_alive(s: Seq<Option<Color>>) -> nat
    decreases s.len(),
{
    if s.len() == 0 {
        0
    } else {
        count_alive(s.drop_last()) + if s.last() is Some {
            1nat
        } else {
            0nat
        }
    }
}

/// The sum of channel `ch` over the live cells of `s`.
pub open spec fn channel_sum(s: Seq<Option<Color>>, ch: int) -> nat
    decreases s.len(),
{
    if s.len() == 0 {
        0
    } else {
        channel_sum(s.drop_last(), ch) + match s.last() {
            Some(c) => channel(c, ch) as nat,
            None => 0nat,
        }
    }
}

/// The mean of `sum` over `n` items, rounded half up.
pub open spec fn rounded_mean(sum: int, n: int) -> int {
    (sum + n / 2) / n
}

/// The channel-wise rounded mean of the colours of the live cells of `s`,
/// or `None` when none is alive.
pub open spec fn mean_color(s: Seq<Option<Color>>) -> Option<Color> {
    let n = count_alive(s) as int;
    if n == 0 {
        None
    } else {
        Some(
            Color {
                r: rounded_mean(channel_sum(s, 0) as int, n) as u8,
                g: rounded_mean(channel_sum(s, 1) as int, n) as u8,
                b: rounded_mean(channel_sum(s, 2) as int, n) as u8,
                a: rounded_mean(channel_sum(s, 3) as int, n) as u8,
            },
        )
    }
}

/// The board of Conway's Game of Life.
///
/// The cells are kept in one buffer in row order: the cell `(x, y)` is at
/// index `y * width + x`. `None` is a dead cell; `Some(color)` a live cell
/// with the colour that it keeps or hands on.
pub struct Grid {
    pub cells: Vec<Option<Color>>,
    pub width: u32,
    pub height: u32,
}

impl Grid {
    /// The buffer holds exactly `width * height` cells, a count that fits
    /// in a `u32`.
    pub open spec fn wf(&self) -> bool {
        &&& self.cells@.len() == self.width * self.height
        &&& self.width * self.height <= u32::MAX
    }

    /// `(x, y)` lies on the board.
    pub open spec fn in_bounds(&self, x: int, y: int) -> bool {
        0 <= x < self.width && 0 <= y < self.height
    }

    /// Where the cell `(x, y)` sits in the buffer.
    pub open spec fn cell_index(&self, x: int, y: int) -> int {
        y * self.width + x
    }

    /// The cell at `(x, y)`; off the board every cell is dead.
    pub open spec fn cell(&self, x: int, y: int) -> Option<Color> {
        if self.in_bounds(x, y) {
            self.cells@[self.cell_index(x, y)]
        } else {
            None
        }
    }

    /// The cell at `(x, y)` is alive.
    pub open spec fn alive(&self, x: int, y: int) -> bool {
        self.cell(x, y) is Some
    }

    /// The buffer after the cell `(x, y)` is given `color`; unchanged when
    /// `(x, y)` is off the board.
    pub open spec fn with_cell(&self, x: int, y: int, color: Option<Color>) -> Seq<Option<Color>> {
        if self.in_bounds(x, y) {
            self.cells@.update(self.cell_index(x, y), color)
        } else {
            self.cells@
        }
    }

    /// The `k`-th neighbour of `(x, y)`, the board wrapping round at its
    /// edges.
    pub open spec fn neighbor(&self, x: int, y: int, k: int) -> Option<Color> {
        let (dx, dy) = neighbor_offset(k);
        self.cell(wrap(x + dx, self.width as int), wrap(y + dy, self.height as int))
    }

    /// The eight neighbours of `(x, y)` in the order of `neighbor_offset`.
    pub open spec fn neighbors(&self, x: int, y: int) -> Seq<Option<Color>> {
        Seq::new(8, |k: int| self.neighbor(x, y, k))
    }

    /// How many of the eight neighbours of `(x, y)` are alive, the
    /// coordinates first brought onto the board; 0 on an empty board.
    pub open spec fn live_neighbor_count(&self, x: int, y: int) -> nat {
        if self.width == 0 || self.height == 0 {
            0
        } else {
            count_alive(self.neighbors(x % self.width as int, y % self.height as int))
        }
    }

    /// The colour a cell born at `(x, y)` takes: the rounded mean of its
    /// live neighbours' colours, white when none has one.
    pub open spec fn birth_color(&self, x: int, y: int) -> Color {
        match mean_color(self.neighbors(x, y)) {
            Some(c) => c,
            None => spec_white(),
        }
    }

    /// The cell `(x, y)` one generation later: a live cell with two or three
    /// live neighbours survives with its colour, a dead cell with exactly
    /// three is born, every other cell is dead.
    pub open spec fn next_cell(&self, x: int, y: int) -> Option<Color> {
        let n = self.live_neighbor_count(x, y);
        match self.cell(x, y) {
            Some(c) => if n == 2 || n == 3 {
                Some(c)
            } else {
                None
            },
            None => if n == 3 {
                Some(self.birth_color(x, y))
            } else {
                None
            },
        }
    }

    /// Creates a board of `width * height` cells, all dead.
    pub fn new(width: u32, height: u32) -> (g: Grid)
        requires
            width * height <= u32::MAX,
        ensures
            g.wf(),
            g.width == width,
            g.height == height,
            forall|i: int| 0 <= i < g.cells@.len() ==> g.cells@[i] is None,
    {
        let size: u32 = width * height;
        let mut cells: Vec<Option<Color>> = Vec::new();
        let mut i: u32 = 0;
        while i < size
            invariant
                i <= size,
                cells@.len() == i,
                forall|j: int| 0 <= j < cells@.len() ==> cells@[j] is None,
            decreases size - i,
        {
            cells.push(None);
            i = i + 1;
        }
        Grid { cells, width, height }
    }

    /// Marks the cell `(x, y)` alive (white) or dead; nothing happens off
    /// the board.
    pub fn set_alive(&mut self, x: u32, y: u32, alive: bool)
        requires
            old(self).wf(),
        ensures
            final(self).wf(),
            final(self).width == old(self).width,
            final(self).height == old(self).height,
            final(self).cells@ == old(self).with_cell(
                x as int,
                y as int,
                if alive {
                    Some(spec_white())
                } else {
                    None
                },
            ),
    {
        let color = if alive {
            Some(Color::white())
        } else {
            None
        };
        self.set_alive_color(x, y, color);
    }

    /// Gives the cell `(x, y)` a colour (alive) or `None` (dead); nothing
    /// happens off the board.
    pub fn set_alive_color(&mut self, x: u32, y: u32, color: Option<Color>)
        requires
            old(self).wf(),
        ensures
            final(self).wf(),
            final(self).width == old(self).width,
            final(self).height == old(self).height,
            final(self).cells@ == old(self).with_cell(x as int, y as int, color),
    {
        if let Some(index) = self.index(x, y) {
            self.cells.set(index, color);
        }
    }

    /// Whether the cell `(x, y)` is alive; false off the board.
    pub fn is_alive(&self, x: u32, y: u32) -> (r: bool)
        requires
            self.wf(),
        ensures
            r == self.alive(x as int, y as int),
    {
        match self.index(x, y) {
            Some(index) => self.cells[index].is_some(),
            None => false,
        }
    }

    /// The colour of the cell `(x, y)` when it is alive; `None` when it is
    /// dead or off the board.
    pub fn get_color(&self, x: u32, y: u32) -> (r: Option<Color>)
        requires
            self.wf(),
        ensures
            r == self.cell(x as int, y as int),
    {
        match self.index(x, y) {
            Some(index) => self.cells[index],
            None => None,
        }
    }

    /// Counts the live neighbours of `(x, y)`, the board wrapping round at
    /// its edges (toroidal board).
    pub fn count_neighbors(&self, x: u32, y: u32) -> (n: u8)
        requires
            self.wf(),
        ensures
            n == self.live_neighbor_count(x as int, y as int),
            n <= 8,
    {
        if self.width == 0 || self.height == 0 {
            return 0;
        }
        let x = x % self.width;
        let y = y % self.height;
        let ghost nbrs = self.neighbors(x as int, y as int);
        let mut count: u8 = 0;
        let mut k: usize = 0;
        while k < 8
            invariant
                self.wf(),
                self.width > 0,
                self.height > 0,
                x < self.width,
                y < self.height,
                nbrs == self.neighbors(x as int, y as int),
                k <= 8,
                count == count_alive(nbrs.take(k as int)),
                count <= k,
            decreases 8 - k,
        {
            let (dx, dy) = neighbor_delta(k);
            let nx = wrap_coord(x, dx, self.width);
            let ny = wrap_coord(y, dy, self.height);
            proof {
                lemma_take_step(nbrs, k as int);
            }
            if self.is_alive(nx, ny) {
                count = count + 1;
            }
            k = k + 1;
        }
        proof {
            assert(nbrs.take(8) =~= nbrs);
            lemma_small_mod(x as nat, self.width as nat);
            lemma_small_mod(y as nat, self.height as nat);
        }
        count
    }

    /// Computes the next generation of the board without changing this one.
    pub fn step(&self) -> (next: Grid)
        requires
            self.wf(),
        ensures
            next.wf(),
            next.width == self.width,
            next.height == self.height,
            forall|x: int, y: int|
                #![trigger next.cell(x, y)]
                self.in_bounds(x, y) ==> next.cell(x, y) == self.next_cell(x, y),
    {
        let mut next = Grid::new(self.width, self.height);
        let ghost w = self.width as int;
        let ghost h = self.height as int;
        let mut y: u32 = 0;
        while y < self.height
            invariant
                self.wf(),
                next.wf(),
                next.width == self.width,
                next.height == self.height,
                w == self.width,
                h == self.height,
                y <= self.height,
                forall|i: int|
                    0 <= i < y * w ==> #[trigger] next.cells@[i] == self.next_cell(i % w, i / w),
                forall|i: int| y * w <= i < w * h ==> #[trigger] next.cells@[i] is None,
            decreases self.height - y,
        {
            let mut x: u32 = 0;
            while x < self.width
                invariant
                    self.wf(),
                    next.wf(),
                    next.width == self.width,
                    next.height == self.height,
                    w == self.width,
                    h == self.height,
                    y < self.height,
                    x <= self.width,
                    forall|i: int|
                        0 <= i < y * w + x ==> #[trigger] next.cells@[i] == self.next_cell(
                            i % w,
                            i / w,
                        ),
                    forall|i: int| y * w + x <= i < w * h ==> #[trigger] next.cells@[i] is None,
                decreases self.width - x,
            {
                let alive = self.is_alive(x, y);
                let neighbors = self.count_neighbors(x, y);
                let next_alive = if alive {
                    neighbors == 2 || neighbors == 3
                } else {
                    neighbors == 3
                };
                proof {
                    lemma_cell_index_in_range(x as int, y as int, w, h);
                    lemma_fundamental_div_mod_converse(y * w + x, w, y as int, x as int);
                }
                if next_alive {
                    let next_color = if alive {
                        match self.get_color(x, y) {
                            Some(c) => c,
                            None => Color::white(),
                        }
                    } else {
                        match self.average_birth_color(x, y) {
                            Some(c) => c,
                            None => Color::white(),
                        }
                    };
                    next.set_alive_color(x, y, Some(next_color));
                }
                proof {
                    lemma_small_mod(x as nat, w as nat);
                    lemma_small_mod(y as nat, h as nat);
                }
                x = x + 1;
            }
            proof {
                assert((y + 1) * w == y * w + w) by (nonlinear_arith);
            }
            y = y + 1;
        }
        proof {
            assert forall|x: int, y: int|
                #![trigger next.cell(x, y)]
                self.in_bounds(x, y) implies next.cell(x, y) == self.next_cell(x, y) by {
                lemma_cell_index_in_range(x, y, w, h);
                lemma_fundamental_div_mod_converse(y * w + x, w, y, x);
                assert(next.cells@[y * w + x] == self.next_cell((y * w + x) % w, (y * w + x) / w));
            }
        }
        next
    }

    /// The rounded mean colour of the live neighbours of `(x, y)`, `None`
    /// when none is alive.
    fn average_birth_color(&self, x: u32, y: u32) -> (r: Option<Color>)
        requires
            self.wf(),
            x < self.width,
            y < self.height,
        ensures
            r == mean_color(self.neighbors(x as int, y as int)),
    {
        let ghost nbrs = self.neighbors(x as int, y as int);
        let mut sum_r: u32 = 0;
        let mut sum_g: u32 = 0;
        let mut sum_b: u32 = 0;
        let mut sum_a: u32 = 0;
        let mut count: u32 = 0;
        let mut k: usize = 0;
        while k < 8
            invariant
                self.wf(),
                x < self.width,
                y < self.height,
                nbrs == self.neighbors(x as int, y as int),
                k <= 8,
                count == count_alive(nbrs.take(k as int)),
                sum_r == channel_sum(nbrs.take(k as int), 0),
                sum_g == channel_sum(nbrs.take(k as int), 1),
                sum_b == channel_sum(nbrs.take(k as int), 2),
                sum_a == channel_sum(nbrs.take(k as int), 3),
                count <= k,
                sum_r <= 255 * count,
                sum_g <= 255 * count,
                sum_b <= 255 * count,
                sum_a <= 255 * count,
            decreases 8 - k,
        {
            let (dx, dy) = neighbor_delta(k);
            let nx = wrap_coord(x, dx, self.width);
            let ny = wrap_coord(y, dy, self.height);
            proof {
                lemma_take_step(nbrs, k as int);
            }
            if let Some(color) = self.get_color(nx, ny) {
                sum_r = sum_r + color.r as u32;
                sum_g = sum_g + color.g as u32;
                sum_b = sum_b + color.b as u32;
                sum_a = sum_a + color.a as u32;
                count = count + 1;
            }
            k = k + 1;
        }
        proof {
            assert(nbrs.take(8) =~= nbrs);
        }
        if count == 0 {
            return None;
        }
        proof {
            lemma_rounded_mean_fits(sum_r as int, count as int);
            lemma_rounded_mean_fits(sum_g as int, count as int);
            lemma_rounded_mean_fits(sum_b as int, count as int);
            lemma_rounded_mean_fits(sum_a as int, count as int);
        }
        Some(
            Color::new(
                ((sum_r + count / 2) / count) as u8,
                ((sum_g + count / 2) / count) as u8,
                ((sum_b + count / 2) / count) as u8,
                ((sum_a + count / 2) / count) as u8,
            ),
        )
    }

    /// Where `(x, y)` sits in the buffer, `None` off the board.
    fn index(&self, x: u32, y: u32) -> (r: Option<usize>)
        requires
            self.wf(),
        ensures
            match r {
                Some(i) => self.in_bounds(x as int, y as int) && i == self.cell_index(
                    x as int,
                    y as int,
                ) && i < self.cells@.len(),
                None => !self.in_bounds(x as int, y as int),
            },
    {
        if x >= self.width || y >= self.height {
            return None;
        }
        proof {
            lemma_cell_index_in_range(x as int, y as int, self.width as int, self.height as int);
        }
        match y.checked_mul(self.width) {
            Some(row) => match row.checked_add(x) {
                Some(index) => Some(index as usize),
                None => None,
            },
            None => None,
        }
    }
}

/// The neighbour offset numbered `k`, as `neighbor_offset` gives it.
pub(crate) fn neighbor_delta(k: usize) -> (d: (i32, i32))
    requires
        k < 8,
    ensures
        d.0 == neighbor_offset(k as int).0,
        d.1 == neighbor_offset(k as int).1,
{
    if k < 3 {
        (k as i32 - 1, -1)
    } else if k == 3 {
        (-1, 0)
    } else if k == 4 {
        (1, 0)
    } else {
        (k as i32 - 6, 1)
    }
}

/// Every offset of the 3x3 block around a cell but its centre is one of
/// the eight neighbour offsets.
pub proof fn lemma_offset_is_neighbor(dx: int, dy: int) -> (k: int)
    requires
        -1 <= dx <= 1,
        -1 <= dy <= 1,
        dx != 0 || dy != 0,
    ensures
        0 <= k < 8,
        neighbor_offset(k) == (dx, dy),
{
    if dy == -1 {
        dx + 1
    } else if dy == 0 {
        if dx == -1 {
            3
        } else {
            4
        }
    } else {
        dx + 6
    }
}

/// `coord + delta` brought into `0..size` on a ring of `size` positions.
fn wrap_coord(coord: u32, delta: i32, size: u32) -> (r: u32)
    requires
        size > 0,
    ensures
        r as int == wrap(coord + delta, size as int),
{
    let sum: i64 = coord as i64 + delta as i64;
    match sum.checked_rem_euclid(size as i64) {
        Some(wrapped) => wrapped as u32,
        None => {
            proof {
                assert(false);
            }
            0
        },
    }
}

/// The cell `(x, y)` of a `w` by `h` board lies inside the buffer.
pub proof fn lemma_cell_index_in_range(x: int, y: int, w: int, h: int)
    requires
        0 <= x < w,
        0 <= y < h,
    ensures
        0 <= y * w + x < w * h,
{
    assert(0 <= y * w) by (nonlinear_arith)
        requires
            0 <= y,
            0 <= w,
    ;
    assert(y * w + x < w * h) by (nonlinear_arith)
        requires
            0 <= x < w,
            0 <= y < h,
    ;
}

/// Extending a prefix of `s` by one entry adds that entry to the counts
/// and sums.
proof fn lemma_take_step(s: Seq<Option<Color>>, k: int)
    requires
        0 <= k < s.len(),
    ensures
        count_alive(s.take(k + 1)) == count_alive(s.take(k)) + if s[k] is Some {
            1nat
        } else {
            0nat
        },
        forall|ch: int|
            #![trigger channel_sum(s.take(k + 1), ch)]
            channel_sum(s.take(k + 1), ch) == channel_sum(s.take(k), ch) + match s[k] {
                Some(c) => channel(c, ch) as nat,
                None => 0nat,
            },
{
    assert(s.take(k + 1).drop_last() =~= s.take(k));
}

/// The rounded mean of at most 255 per item fits in a byte.
proof fn lemma_rounded_mean_fits(sum: int, n: int)
    requires
        0 <= sum <= 255 * n,
        n > 0,
    ensures
        0 <= rounded_mean(sum, n) <= 255,
{
    assert(0 <= (sum + n / 2) / n <= 255) by (nonlinear_arith)
        requires
            0 <= sum <= 255 * n,
            n > 0,
    ;
}

/// Reading back a write: after a cell is given `color`, that cell holds
/// `color` (or stays dead when it is off the board) and every other cell
/// holds what it held before.
pub proof fn lemma_read_after_write(g: Grid, after: Grid, x: int, y: int, color: Option<Color>)
    requires
        g.wf(),
        after.width == g.width,
        after.height == g.height,
        after.cells@ == g.with_cell(x, y, color),
    ensures
        after.wf(),
        after.cell(x, y) == if g.in_bounds(x, y) {
            color
        } else {
            None
        },
        forall|x2: int, y2: int|
            #![trigger after.cell(x2, y2)]
            (x2 != x || y2 != y) ==> after.cell(x2, y2) == g.cell(x2, y2),
{
    let w = g.width as int;
    let h = g.height as int;
    if g.in_bounds(x, y) {
        lemma_cell_index_in_range(x, y, w, h);
    }
    assert forall|x2: int, y2: int|
        #![trigger after.cell(x2, y2)]
        (x2 != x || y2 != y) implies after.cell(x2, y2) == g.cell(x2, y2) by {
        if g.in_bounds(x2, y2) {
            lemma_cell_index_in_range(x2, y2, w, h);
            if g.in_bounds(x, y) {
                lemma_fundamental_div_mod_converse(y * w + x, w, y, x);
                lemma_fundamental_div_mod_converse(y2 * w + x2, w, y2, x2);
            }
        }
    }
}

/// A board with no live cell has no live cell in the next generation.
pub proof fn lemma_empty_board_stays_empty(g: Grid)
    requires
        g.wf(),
        forall|i: int| 0 <= i < g.cells@.len() ==> g.cells@[i] is None,
    ensures
        forall|x: int, y: int| #![trigger g.next_cell(x, y)] g.next_cell(x, y) is None,
{
    assert forall|x: int, y: int| #![trigger g.next_cell(x, y)] g.next_cell(x, y) is None by {
        if g.in_bounds(x, y) {
            lemma_cell_index_in_range(x, y, g.width as int, g.height as int);
        }
        if g.width > 0 && g.height > 0 {
            let s = g.neighbors(x % g.width as int, y % g.height as int);
            assert forall|k: int| 0 <= k < s.len() implies !(#[trigger] s[k] is Some) by {
                let (dx, dy) = neighbor_offset(k);
                let nx = wrap(x % g.width as int + dx, g.width as int);
                let ny = wrap(y % g.height as int + dy, g.height as int);
                if g.in_bounds(nx, ny) {
                    lemma_cell_index_in_range(nx, ny, g.width as int, g.height as int);
                }
            }
            lemma_count_alive_none(s);
        }
    }
}

/// No cell has more than eight live neighbours.
pub proof fn lemma_live_neighbor_count_at_most_eight(g: Grid, x: int, y: int)
    ensures
        g.live_neighbor_count(x, y) <= 8,
{
    if g.width > 0 && g.height > 0 {
        lemma_count_alive_le_len(g.neighbors(x % g.width as int, y % g.height as int));
    }
}

/// The board wraps round: moving a whole width or height away counts the
/// same live neighbours.
pub proof fn lemma_live_neighbor_count_periodic(g: Grid, x: int, y: int)
    ensures
        g.live_neighbor_count(x + g.width, y) == g.live_neighbor_count(x, y),
        g.live_neighbor_count(x, y + g.height) == g.live_neighbor_count(x, y),
{
    if g.width > 0 && g.height > 0 {
        vstd::arithmetic::div_mod::lemma_mod_add_multiples_vanish(x, g.width as int);
        vstd::arithmetic::div_mod::lemma_mod_add_multiples_vanish(y, g.height as int);
    }
}

/// Survivors keep their colour: a live cell that is still alive one
/// generation later has the same colour.
pub proof fn lemma_survivor_keeps_color(g: Grid, x: int, y: int)
    ensures
        g.alive(x, y) && g.next_cell(x, y) is Some ==> g.next_cell(x, y) == g.cell(x, y),
{
}

/// A newborn cell whose live neighbours all share one colour takes that
/// colour.
pub proof fn lemma_birth_from_one_color(g: Grid, x: int, y: int, c: Color)
    requires
        count_alive(g.neighbors(x, y)) > 0,
        forall|k: int|
            0 <= k < 8 && (#[trigger] g.neighbor(x, y, k)) is Some ==> g.neighbor(x, y, k)
                == Some(c),
    ensures
        g.birth_color(x, y) == c,
{
    let s = g.neighbors(x, y);
    assert forall|k: int| 0 <= k < s.len() && (#[trigger] s[k]) is Some implies s[k] == Some(c) by {
        assert(s[k] == g.neighbor(x, y, k));
    }
    let n = count_alive(s) as int;
    assert forall|ch: int| #![trigger channel_sum(s, ch)]
        channel_sum(s, ch) == n * channel(c, ch) by {
        lemma_channel_sum_one_color(s, c, ch);
    }
    assert forall|ch: int| #![trigger channel(c, ch)]
        rounded_mean(n * channel(c, ch), n) == channel(c, ch) by {
        lemma_rounded_mean_of_equal(channel(c, ch) as int, n);
    }
    assert(rounded_mean(channel_sum(s, 0) as int, n) == channel(c, 0));
    assert(rounded_mean(channel_sum(s, 1) as int, n) == channel(c, 1));
    assert(rounded_mean(channel_sum(s, 2) as int, n) == channel(c, 2));
    assert(rounded_mean(channel_sum(s, 3) as int, n) == channel(c, 3));
}

proof fn lemma_count_alive_none(s: Seq<Option<Color>>)
    requires
        forall|k: int| 0 <= k < s.len() ==> !(#[trigger] s[k] is Some),
    ensures
        count_alive(s) == 0,
    decreases s.len(),
{
    if s.len() > 0 {
        lemma_count_alive_none(s.drop_last());
    }
}

proof fn lemma_count_alive_le_len(s: Seq<Option<Color>>)
    ensures
        count_alive(s) <= s.len(),
    decreases s.len(),
{
    if s.len() > 0 {
        lemma_count_alive_le_len(s.drop_last());
    }
}

proof fn lemma_channel_sum_one_color(s: Seq<Option<Color>>, c: Color, ch: int)
    requires
        forall|k: int| 0 <= k < s.len() && (#[trigger] s[k]) is Some ==> s[k] == Some(c),
    ensures
        channel_sum(s, ch) == count_alive(s) * channel(c, ch),
    decreases s.len(),
{
    if s.len() > 0 {
        let t = s.drop_last();
        assert forall|k: int| 0 <= k < t.len() && (#[trigger] t[k]) is Some implies t[k] == Some(c) by {
            assert(t[k] == s[k]);
        }
        lemma_channel_sum_one_color(t, c, ch);
        let v = channel(c, ch) as int;
        let m = count_alive(t) as int;
        assert((m + 1) * v == m * v + v) by (nonlinear_arith);
        if s.last() is Some {
            assert(s[s.len() - 1] == Some(c));
            assert(channel_sum(s, ch) == count_alive(s) * channel(c, ch));
        }
    } else {
        assert(count_alive(s) * channel(c, ch) == 0) by (nonlinear_arith)
            requires count_alive(s) == 0;
    }
}

proof fn lemma_rounded_mean_of_equal(v: int, n: int)
    requires
        n > 0,
        0 <= v,
    ensures
        rounded_mean(n * v, n) == v,
{
    assert((n * v + n / 2) / n == v) by (nonlinear_arith)
        requires
            n > 0,
            0 <= v,
    ;
}

/// Adding to a residue is adding to the number, modulo `m`.
proof fn lemma_mod_shift(p: int, q: int, m: int)
    requires
        m > 0,
    ensures
        ((p % m) + q) % m == (p + q) % m,
{
    vstd::arithmetic::div_mod::lemma_add_mod_noop_right(q, p, m);
}

impl Grid {
    /// `self` is `other` moved round the torus by `(a, b)`: the same size,
    /// and the cell `(x, y)` of `other` sits at `((x + a) % width,
    /// (y + b) % height)` of `self`.
    pub open spec fn is_shift_of(&self, other: Grid, a: int, b: int) -> bool {
        &&& self.width == other.width
        &&& self.height == other.height
        &&& forall|x: int, y: int|
            #![trigger other.cell(x, y)]
            other.in_bounds(x, y) ==> self.cell(
                (x + a) % self.width as int,
                (y + b) % self.height as int,
            ) == other.cell(x, y)
    }
}

/// The neighbours of a cell of a shifted board are the neighbours of the
/// cell it came from.
proof fn lemma_shifted_neighbors(g: Grid, g2: Grid, a: int, b: int, x: int, y: int)
    requires
        g2.is_shift_of(g, a, b),
        g.in_bounds(x, y),
    ensures
        g2.neighbors((x + a) % g.width as int, (y + b) % g.height as int) == g.neighbors(x, y),
{
    let w = g.width as int;
    let h = g.height as int;
    let xs = (x + a) % w;
    let ys = (y + b) % h;
    assert forall|k: int| 0 <= k < 8 implies #[trigger] g2.neighbor(xs, ys, k) == g.neighbor(x, y, k) by {
        let (dx, dy) = neighbor_offset(k);
        let u = wrap(x + dx, w);
        let v = wrap(y + dy, h);
        lemma_mod_shift(x + a, dx, w);
        lemma_mod_shift(x + dx, a, w);
        lemma_mod_shift(y + b, dy, h);
        lemma_mod_shift(y + dy, b, h);
        assert(wrap(xs + dx, w) == (u + a) % w);
        assert(wrap(ys + dy, h) == (v + b) % h);
        assert(g.in_bounds(u, v));
        assert(g2.cell((u + a) % w, (v + b) % h) == g.cell(u, v));
    }
    assert(g2.neighbors(xs, ys) =~= g.neighbors(x, y));
}

/// Neighbour counts follow the board round the torus: the count at `(x, y)`
/// is the count at `(x % width, y % height)`, and on the board moved by
/// `(a, b)` the cell it moved to has the same count.
pub proof fn lemma_shift_keeps_neighbor_counts(g: Grid, g2: Grid, a: int, b: int, x: int, y: int)
    requires
        g2.is_shift_of(g, a, b),
        g.width > 0,
        g.height > 0,
    ensures
        g.live_neighbor_count(x, y) == g.live_neighbor_count(x % g.width as int, y % g.height as int),
        g2.live_neighbor_count(
            (x % g.width as int + a) % g.width as int,
            (y % g.height as int + b) % g.height as int,
        ) == g.live_neighbor_count(x, y),
{
    let w = g.width as int;
    let h = g.height as int;
    let x0 = x % w;
    let y0 = y % h;
    lemma_mod_shift(x, 0, w);
    lemma_mod_shift(y, 0, h);
    assert(x0 % w == x0);
    assert(y0 % h == y0);
    lemma_mod_shift(x0 + a, 0, w);
    lemma_mod_shift(y0 + b, 0, h);
    lemma_shifted_neighbors(g, g2, a, b, x0, y0);
}

/// The rule commutes with moving the board round the torus: one generation
/// of a moved board is the moved generation of the board, colours included.
pub proof fn lemma_step_commutes_with_shift(g: Grid, g2: Grid, next: Grid, next2: Grid, a: int, b: int)
    requires
        g.wf(),
        g2.wf(),
        g2.is_shift_of(g, a, b),
        next.width == g.width,
        next.height == g.height,
        next2.width == g2.width,
        next2.height == g2.height,
        forall|x: int, y: int| #![trigger next.cell(x, y)] g.in_bounds(x, y) ==> next.cell(x, y) == g.next_cell(x, y),
        forall|x: int, y: int| #![trigger next2.cell(x, y)] g2.in_bounds(x, y) ==> next2.cell(x, y) == g2.next_cell(x, y),
    ensures
        next2.is_shift_of(next, a, b),
{
    let w = g.width as int;
    let h = g.height as int;
    assert forall|x: int, y: int|
        #![trigger next.cell(x, y)]
        next.in_bounds(x, y) implies next2.cell((x + a) % w, (y + b) % h) == next.cell(x, y) by {
        let xs = (x + a) % w;
        let ys = (y + b) % h;
        lemma_shifted_neighbors(g, g2, a, b, x, y);
        assert(g.in_bounds(x, y));
        assert(g2.in_bounds(xs, ys));
        assert(g2.cell(xs, ys) == g.cell(x, y));
        lemma_small_mod(x as nat, w as nat);
        lemma_small_mod(y as nat, h as nat);
        lemma_small_mod(xs as nat, w as nat);
        lemma_small_mod(ys as nat, h as nat);
        assert(g2.neighbors(xs % w, ys % h) == g.neighbors(x % w, y % h));
        assert(g2.live_neighbor_count(xs, ys) == g.live_neighbor_count(x, y));
        assert(next2.cell(xs, ys) == g2.next_cell(xs, ys));
    }
}

/// Conway's rule B3/S23, for a board `next` that `step` computed from `g`:
/// a dead cell comes alive exactly when it has three live neighbours; a
/// live cell stays alive exactly when it has two or three, and keeps its
/// colour; a newborn's colour is, channel by channel, the mean of its live
/// neighbours' colours rounded to the nearest integer (halves up).
pub proof fn lemma_next_generation_rule(g: Grid, next: Grid, x: int, y: int)
    requires
        g.wf(),
        g.in_bounds(x, y),
        forall|x2: int, y2: int|
            #![trigger next.cell(x2, y2)]
            g.in_bounds(x2, y2) ==> next.cell(x2, y2) == g.next_cell(x2, y2),
    ensures
        g.cell(x, y) is None ==> (next.cell(x, y) is Some <==> g.live_neighbor_count(x, y) == 3),
        g.cell(x, y) is Some ==> (next.cell(x, y) is Some <==> (g.live_neighbor_count(x, y) == 2
            || g.live_neighbor_count(x, y) == 3)),
        g.cell(x, y) is Some && next.cell(x, y) is Some ==> next.cell(x, y) == g.cell(x, y),
        g.cell(x, y) is None && next.cell(x, y) is Some ==> g.live_neighbor_count(x, y) == count_alive(
            g.neighbors(x, y),
        ) && forall|ch: int|
            0 <= ch < 4 ==> {
                let n = g.live_neighbor_count(x, y) as int;
                let v = channel(next.cell(x, y).unwrap(), ch) as int;
                &&& n * v <= #[trigger] channel_sum(g.neighbors(x, y), ch) + n / 2
                &&& channel_sum(g.neighbors(x, y), ch) + n / 2 < n * (v + 1)
            },
{
    let w = g.width as int;
    let h = g.height as int;
    lemma_small_mod(x as nat, w as nat);
    lemma_small_mod(y as nat, h as nat);
    assert(next.cell(x, y) == g.next_cell(x, y));
    if g.cell(x, y) is None && next.cell(x, y) is Some {
        let s = g.neighbors(x, y);
        let n = count_alive(s) as int;
        assert(n == 3);
        assert forall|ch: int| 0 <= ch < 4 implies {
            let v = channel(next.cell(x, y).unwrap(), ch) as int;
            &&& n * v <= #[trigger] channel_sum(s, ch) + n / 2
            &&& channel_sum(s, ch) + n / 2 < n * (v + 1)
        } by {
            let sum = channel_sum(s, ch) as int;
            lemma_channel_sum_bound(s, ch);
            lemma_rounded_mean_fits(sum, n);
            let q = rounded_mean(sum, n);
            assert(channel(next.cell(x, y).unwrap(), ch) as int == q);
            vstd::arithmetic::div_mod::lemma_fundamental_div_mod(sum + n / 2, n);
            assert(0 <= (sum + n / 2) % n < n);
            assert(n * q <= sum + n / 2 < n * (q + 1)) by (nonlinear_arith)
                requires
                    sum + n / 2 == n * q + (sum + n / 2) % n,
                    0 <= (sum + n / 2) % n < n,
            ;
        }
    }
}

/// Each channel of the live cells of `s` sums to at most 255 per live cell.
proof fn lemma_channel_sum_bound(s: Seq<Option<Color>>, ch: int)
    ensures
        channel_sum(s, ch) <= 255 * count_alive(s),
    decreases s.len(),
{
    if s.len() > 0 {
        lemma_channel_sum_bound(s.drop_last(), ch);
    }
}

} // verus!

//! The Mars Base One world: a grid of solid and open tiles, carved out of
//! solid rock by blasts, lines and random digging.
use vstd::arithmetic::div_mod::lemma_fundamental_div_mod_converse;
use crate::random::{range_usize_draw, RandomNumberGenerator};
use rand::rngs::StdRng;
use vstd::prelude::*;

verus! {

/// Marker for a ground tile of the world.
pub struct Ground;

/// Whether a blast centred on `(cx, cy)` opens the tile `(tx, ty)` of a
/// `w` by `h` grid: the tile is one of the nine around the centre, and it is
/// neither in the first or last column nor in the first row.
pub open spec fn in_blast(w: int, h: int, cx: int, cy: int, tx: int, ty: int) -> bool {
    &&& cx - 1 <= tx <= cx + 1
    &&& cy - 1 <= ty <= cy + 1
    &&& 0 < tx < w - 1
    &&& 0 < ty < h
}

/// The cells of a `w`-wide grid (row by row) after a blast at `(cx, cy)`.
pub open spec fn cleared_at(cells: Seq<bool>, w: int, h: int, cx: int, cy: int) -> Seq<bool> {
    Seq::new(cells.len(), |i: int| cells[i] && !in_blast(w, h, cx, cy, i % w, i / w))
}

/// The part of a blast that the loops of `clear_tiles` have done: the columns
/// before `cx - 1 + nx`, and the first `ny` rows of column `cx - 1 + nx`.
spec fn blast_done(w: int, h: int, cx: int, cy: int, tx: int, ty: int, nx: int, ny: int) -> bool {
    &&& in_blast(w, h, cx, cy, tx, ty)
    &&& (tx < cx - 1 + nx || (tx == cx - 1 + nx && ty < cy - 1 + ny))
}

/// A world of `width` by `height` tiles, row by row: `true` is solid rock.
pub struct MarsWorld {
    solid: Vec<bool>,
    width: usize,
    height: usize,
}

impl MarsWorld {
    /// The tiles, row by row: `true` is solid.
    pub closed spec fn cells(&self) -> Seq<bool> {
        self.solid@
    }

    /// The number of columns.
    pub closed spec fn spec_width(&self) -> int {
        self.width as int
    }

    /// The number of rows.
    pub closed spec fn spec_height(&self) -> int {
        self.height as int
    }

    /// One cell per tile, and at least one row and one column.
    pub open spec fn wf(&self) -> bool {
        &&& self.cells().len() == self.spec_width() * self.spec_height()
        &&& self.cells().len() <= usize::MAX
        &&& self.spec_width() >= 1
        &&& self.spec_height() >= 1
    }

    /// Whether the tile at column `x`, row `y` is solid.
    pub open spec fn solid_at(&self, x: int, y: int) -> bool {
        self.cells()[y * self.spec_width() + x]
    }

    /// The number of columns.
    pub fn width(&self) -> (r: usize)
        ensures
            r == self.spec_width(),
    {
        self.width
    }

    /// The number of rows.
    pub fn height(&self) -> (r: usize)
        ensures
            r == self.spec_height(),
    {
        self.height
    }

    /// Whether the tile at column `x`, row `y` is solid.
    pub fn is_solid(&self, x: usize, y: usize) -> (r: bool)
        requires
            self.wf(),
            x < self.spec_width(),
            y < self.spec_height(),
        ensures
            r == self.solid_at(x as int, y as int),
    {
        proof {
            lemma_tile_in_grid(self.spec_width(), self.spec_height(), x as int, y as int);
        }
        let idx = self.mapidx(x, y);
        self.solid[idx]
    }

    /// The index of the tile at column `x`, row `y` in the row-by-row cells.
    pub fn mapidx(&self, x: usize, y: usize) -> (r: usize)
        requires
            y * self.spec_width() + x <= usize::MAX,
        ensures
            r == y * self.spec_width() + x,
    {
        assert(0 <= y * self.width) by (nonlinear_arith);
        y * self.width + x
    }

    /// Opens every tile of the blast centred on `(x, y)` (see `in_blast`).
    pub fn clear_tiles(&mut self, x: usize, y: usize)
        requires
            old(self).wf(),
        ensures
            final(self).spec_width() == old(self).spec_width(),
            final(self).spec_height() == old(self).spec_height(),
            final(self).cells() == cleared_at(
                old(self).cells(),
                old(self).spec_width(),
                old(self).spec_height(),
                x as int,
                y as int,
            ),
    {
        let w = self.width;
        let h = self.height;
        let ghost orig = self.solid@;
        let ghost wi = w as int;
        let ghost hi = h as int;
        let mut ox: usize = 0;
        while ox < 3
            invariant
                0 <= ox <= 3,
                self.width == w,
                self.height == h,
                wi == w,
                hi == h,
                orig.len() == wi * hi,
                orig.len() <= usize::MAX,
                wi >= 1,
                hi >= 1,
                self.solid@ == Seq::new(
                    orig.len(),
                    |i: int|
                        orig[i] && !blast_done(wi, hi, x as int, y as int, i % wi, i / wi, ox as int, 0),
                ),
            decreases 3 - ox,
        {
            let mut oy: usize = 0;
            while oy < 3
                invariant
                    0 <= ox < 3,
                    0 <= oy <= 3,
                    self.width == w,
                    self.height == h,
                    wi == w,
                    hi == h,
                    orig.len() == wi * hi,
                    orig.len() <= usize::MAX,
                    wi >= 1,
                    hi >= 1,
                    self.solid@ == Seq::new(
                        orig.len(),
                        |i: int|
                            orig[i] && !blast_done(
                                wi,
                                hi,
                                x as int,
                                y as int,
                                i % wi,
                                i / wi,
                                ox as int,
                                oy as int,
                            ),
                    ),
                decreases 3 - oy,
            {
                let txp: u128 = x as u128 + ox as u128;
                let typ: u128 = y as u128 + oy as u128;
                if txp >= 2 && txp < w as u128 && typ >= 2 && typ <= h as u128 {
                    let tile_x = (txp - 1) as usize;
                    let tile_y = (typ - 1) as usize;
                    proof {
                        lemma_tile_in_grid(wi, hi, tile_x as int, tile_y as int);
                    }
                    let idx = tile_y * w + tile_x;
                    self.solid.set(idx, false);
                    proof {
                        lemma_fundamental_div_mod_converse(idx as int, wi, tile_y as int, tile_x as int);
                        assert forall|i: int| 0 <= i < orig.len() implies #[trigger] self.solid@[i] == (
                        orig[i] && !blast_done(
                            wi,
                            hi,
                            x as int,
                            y as int,
                            i % wi,
                            i / wi,
                            ox as int,
                            oy + 1,
                        )) by {
                            if i != idx {
                                lemma_split_index(i, wi);
                            }
                        }
                        assert(self.solid@ =~= Seq::new(
                            orig.len(),
                            |i: int|
                                orig[i] && !blast_done(
                                    wi,
                                    hi,
                                    x as int,
                                    y as int,
                                    i % wi,
                                    i / wi,
                                    ox as int,
                                    oy + 1,
                                ),
                        ));
                    }
                } else {
                    assert(self.solid@ =~= Seq::new(
                        orig.len(),
                        |i: int|
                            orig[i] && !blast_done(
                                wi,
                                hi,
                                x as int,
                                y as int,
                                i % wi,
                                i / wi,
                                ox as int,
                                oy + 1,
                            ),
                    ));
                }
                oy = oy + 1;
            }
            assert(self.solid@ =~= Seq::new(
                orig.len(),
                |i: int|
                    orig[i] && !blast_done(wi, hi, x as int, y as int, i % wi, i / wi, ox + 1, 0),
            ));
            ox = ox + 1;
        }
        assert(self.solid@ =~= cleared_at(orig, wi, hi, x as int, y as int));
    }

    /// Walks from `start` towards `end` in `width` steps along x and `height`
    /// steps along y (so with exact arithmetic), blasting at each tile, until
    /// the walk leaves the inner tiles or reaches `end`.
    pub fn clear_line(&mut self, start: (usize, usize), end: (usize, usize))
        requires
            old(self).wf(),
        ensures
            final(self).wf(),
            final(self).spec_width() == old(self).spec_width(),
            final(self).spec_height() == old(self).spec_height(),
            line_stops_first(
                old(self).spec_width(),
                old(self).spec_height(),
                start.0 as int,
                start.1 as int,
                end.0 as int,
                end.1 as int,
                line_len(
                    old(self).spec_width(),
                    old(self).spec_height(),
                    start.0 as int,
                    start.1 as int,
                    end.0 as int,
                    end.1 as int,
                ),
            ),
            final(self).cells() == cleared_along_line(
                old(self).cells(),
                old(self).spec_width(),
                old(self).spec_height(),
                start.0 as int,
                start.1 as int,
                end.0 as int,
                end.1 as int,
                line_len(
                    old(self).spec_width(),
                    old(self).spec_height(),
                    start.0 as int,
                    start.1 as int,
                    end.0 as int,
                    end.1 as int,
                ),
            ),
    {
        let w = self.width;
        let h = self.height;
        let ghost wi = w as int;
        let ghost hi = h as int;
        let ghost sx = start.0 as int;
        let ghost sy = start.1 as int;
        let ghost ex = end.0 as int;
        let ghost ey = end.1 as int;
        let ghost orig = self.solid@;
        let mut ax = AxisWalk::start(start.0, end.0, w);
        let mut ay = AxisWalk::start(start.1, end.1, h);
        let ghost mut k: int = 0;
        loop
            invariant
                self.wf(),
                self.width == w,
                self.height == h,
                wi == w,
                hi == h,
                ex == end.0,
                ey == end.1,
                k >= 0,
                ax.inv(sx, ex, wi, k),
                ay.inv(sy, ey, hi, k),
                forall|j: nat| j < k ==> !line_stops(wi, hi, sx, sy, ex, ey, j as int),
                self.cells() == cleared_along_line(orig, wi, hi, sx, sy, ex, ey, k as nat),
            ensures
                self.wf(),
                self.width == w,
                self.height == h,
                k >= 0,
                line_stops_first(wi, hi, sx, sy, ex, ey, k as nat),
                self.cells() == cleared_along_line(orig, wi, hi, sx, sy, ex, ey, k as nat),
            decreases
                (if ex != sx {
                    AxisWalk::room(sx, ex, wi, k)
                } else {
                    AxisWalk::room(sy, ey, hi, k)
                }),
        {
            proof {
                ax.lemma_pos(sx, ex, wi, k);
                ay.lemma_pos(sy, ey, hi, k);
            }
            if ax.pos < 1 || ax.pos > w as i128 - 1 || ay.pos < 1 || ay.pos > h as i128 - 1 {
                assert(line_stops(wi, hi, sx, sy, ex, ey, k));
                break;
            }
            if ax.pos == end.0 as i128 && ay.pos == end.1 as i128 {
                assert(line_stops(wi, hi, sx, sy, ex, ey, k));
                break;
            }
            assert(!line_stops(wi, hi, sx, sy, ex, ey, k));
            let ghost before = self.cells();
            self.clear_tiles(ax.pos as usize, ay.pos as usize);
            proof {
                let px = ax.pos as int;
                let py = ay.pos as int;
                let nx = axis_num(sx, ex, k, wi);
                let ny = axis_num(sy, ey, k, hi);
                assert(nx <= wi * wi - 1 && nx >= wi) by (nonlinear_arith)
                    requires
                        1 <= px <= wi - 1,
                        0 <= ax.rem < wi,
                        px * wi + ax.rem == nx,
                ;
                assert(ny <= hi * hi - 1 && ny >= hi) by (nonlinear_arith)
                    requires
                        1 <= py <= hi - 1,
                        0 <= ay.rem < hi,
                        py * hi + ay.rem == ny,
                ;
                assert(cleared_along_line(orig, wi, hi, sx, sy, ex, ey, (k + 1) as nat)
                    == cleared_at(before, wi, hi, px, py));
                if ex == sx && ey == sy {
                    assert(nx == sx * wi) by (nonlinear_arith)
                        requires
                            nx == axis_num(sx, ex, k, wi),
                            ex == sx,
                    ;
                    assert(ny == sy * hi) by (nonlinear_arith)
                        requires
                            ny == axis_num(sy, ey, k, hi),
                            ey == sy,
                    ;
                    lemma_fundamental_div_mod_converse(nx, wi, sx, 0);
                    lemma_fundamental_div_mod_converse(ny, hi, sy, 0);
                }
            }
            ax.advance(Ghost(sx), Ghost(ex), Ghost(k));
            ay.advance(Ghost(sy), Ghost(ey), Ghost(k));
            proof {
                assert(axis_num(sx, ex, k + 1, wi) == axis_num(sx, ex, k, wi) + (ex - sx))
                    by (nonlinear_arith);
                assert(axis_num(sy, ey, k + 1, hi) == axis_num(sy, ey, k, hi) + (ey - sy))
                    by (nonlinear_arith);
                k = k + 1;
            }
        }
        proof {
            lemma_line_len(wi, hi, sx, sy, ex, ey, k as nat);
        }
    }
}

/// The position along one axis of a walk from `s` towards `e` in steps of
/// `(e - s) / w`, after `k` steps, scaled by `w`.
pub open spec fn axis_num(s: int, e: int, k: int, w: int) -> int {
    s * w + k * (e - s)
}

/// The tile coordinate (the whole part) of the position `axis_num`.
pub open spec fn axis_at(s: int, e: int, k: int, w: int) -> int {
    axis_num(s, e, k, w) / w
}

/// Whether the walk of `clear_line` from `(sx, sy)` to `(ex, ey)` on a `w` by
/// `h` grid stops at step `k`: its tile leaves the inner columns `1..w-1` or
/// rows `1..h-1`, or is the end tile.
pub open spec fn line_stops(w: int, h: int, sx: int, sy: int, ex: int, ey: int, k: int) -> bool {
    let px = axis_at(sx, ex, k, w);
    let py = axis_at(sy, ey, k, h);
    px < 1 || px > w - 1 || py < 1 || py > h - 1 || (px == ex && py == ey)
}

/// Step `n` is the first at which the walk of `clear_line` stops.
pub open spec fn line_stops_first(
    w: int,
    h: int,
    sx: int,
    sy: int,
    ex: int,
    ey: int,
    n: nat,
) -> bool {
    &&& line_stops(w, h, sx, sy, ex, ey, n as int)
    &&& forall|j: nat| j < n ==> !line_stops(w, h, sx, sy, ex, ey, j as int)
}

/// The number of tiles that the walk of `clear_line` blasts.
pub open spec fn line_len(w: int, h: int, sx: int, sy: int, ex: int, ey: int) -> nat {
    choose|n: nat| line_stops_first(w, h, sx, sy, ex, ey, n)
}

/// The cells after blasts at the first `n` tiles of the walk from `(sx, sy)`
/// towards `(ex, ey)`.
pub open spec fn cleared_along_line(
    cells: Seq<bool>,
    w: int,
    h: int,
    sx: int,
    sy: int,
    ex: int,
    ey: int,
    n: nat,
) -> Seq<bool>
    decreases n,
{
    if n == 0 {
        cells
    } else {
        let k = (n - 1) as nat;
        cleared_at(
            cleared_along_line(cells, w, h, sx, sy, ex, ey, k),
            w,
            h,
            axis_at(sx, ex, k as int, w),
            axis_at(sy, ey, k as int, h),
        )
    }
}

/// The first stop of a walk is unique.
proof fn lemma_line_len(w: int, h: int, sx: int, sy: int, ex: int, ey: int, n: nat)
    requires
        line_stops_first(w, h, sx, sy, ex, ey, n),
    ensures
        line_len(w, h, sx, sy, ex, ey) == n,
{
    let m = line_len(w, h, sx, sy, ex, ey);
    assert(line_stops_first(w, h, sx, sy, ex, ey, m));
    if m < n {
        assert(!line_stops(w, h, sx, sy, ex, ey, m as int));
    } else if m > n {
        assert(!line_stops(w, h, sx, sy, ex, ey, n as int));
    }
}

/// One axis of a walk in exact arithmetic: the tile coordinate `pos` and the
/// remainder `rem` (in units of `1 / scale`), and the step split the same way.
struct AxisWalk {
    pos: i128,
    rem: i128,
    step_q: i128,
    step_r: i128,
    scale: i128,
}

impl AxisWalk {
    spec fn inv(&self, s: int, e: int, w: int, k: int) -> bool {
        &&& self.scale == w
        &&& 1 <= w <= usize::MAX
        &&& 0 <= self.rem < w
        &&& self.pos * w + self.rem == axis_num(s, e, k, w)
        &&& self.step_q * w + self.step_r == e - s
        &&& 0 <= self.step_r < w
        &&& -(usize::MAX as int) - 1 <= self.step_q <= usize::MAX
    }

    proof fn lemma_pos(&self, s: int, e: int, w: int, k: int)
        requires
            self.inv(s, e, w, k),
        ensures
            self.pos == axis_at(s, e, k, w),
    {
        lemma_fundamental_div_mod_converse(axis_num(s, e, k, w), w, self.pos as int, self.rem as int);
    }

    fn start(s: usize, e: usize, w: usize) -> (r: Self)
        requires
            w >= 1,
        ensures
            r.inv(s as int, e as int, w as int, 0),
            r.pos == s,
    {
        assert(axis_num(s as int, e as int, 0, w as int) == s * w) by (nonlinear_arith);
        if e >= s {
            let d = e - s;
            let q = d / w;
            let r = d % w;
            proof {
                vstd::arithmetic::div_mod::lemma_fundamental_div_mod(d as int, w as int);
                assert(q * w == w * q) by (nonlinear_arith);
            }
            AxisWalk { pos: s as i128, rem: 0, step_q: q as i128, step_r: r as i128, scale: w as i128 }
        } else {
            let d = s - e;
            let q = d / w;
            let r = d % w;
            proof {
                vstd::arithmetic::div_mod::lemma_fundamental_div_mod(d as int, w as int);
                assert(q * w == w * q) by (nonlinear_arith);
                assert((-q - 1) * w == -(q * w) - w) by (nonlinear_arith);
                assert((-q) * w == -(q * w)) by (nonlinear_arith);
            }
            if r == 0 {
                AxisWalk { pos: s as i128, rem: 0, step_q: -(q as i128), step_r: 0, scale: w as i128 }
            } else {
                AxisWalk {
                    pos: s as i128,
                    rem: 0,
                    step_q: -(q as i128) - 1,
                    step_r: (w - r) as i128,
                    scale: w as i128,
                }
            }
        }
    }

    fn advance(&mut self, Ghost(s): Ghost<int>, Ghost(e): Ghost<int>, Ghost(k): Ghost<int>)
        requires
            old(self).inv(s, e, old(self).scale as int, k),
            -0x2_0000_0000_0000_0000 <= old(self).pos <= 0x2_0000_0000_0000_0000,
        ensures
            final(self).inv(s, e, old(self).scale as int, k + 1),
            final(self).scale == old(self).scale,
    {
        let ghost w = self.scale as int;
        let ghost p = self.pos as int;
        let ghost q = self.step_q as int;
        let mut nr = self.rem + self.step_r;
        let mut np = self.pos + self.step_q;
        proof {
            assert(axis_num(s, e, k + 1, w) == axis_num(s, e, k, w) + (e - s)) by (nonlinear_arith);
            assert((p + q) * w == p * w + q * w) by (nonlinear_arith);
            assert((p + q + 1) * w == p * w + q * w + w) by (nonlinear_arith);
        }
        if nr >= self.scale {
            nr = nr - self.scale;
            np = np + 1;
        }
        self.rem = nr;
        self.pos = np;
    }

    /// The measure that the walk shrinks while the axis stays within `0..=w*w`.
    spec fn room(s: int, e: int, w: int, k: int) -> int {
        if e > s {
            w * w + (e - s) - axis_num(s, e, k, w)
        } else if e < s {
            axis_num(s, e, k, w) + (s - e)
        } else {
            0
        }
    }
}

/// Whether the digging walk from `(sx, sy)` towards `(tx, ty)` is outside the
/// grid at step `k`: its position (not its tile) lies left of column 1,
/// right of column `w`, below row 1 or above row `h`.
pub open spec fn dig_out(w: int, h: int, sx: int, sy: int, tx: int, ty: int, k: int) -> bool {
    let nx = axis_num(sx, tx, k, w);
    let ny = axis_num(sy, ty, k, h);
    nx < w || nx > w * w || ny < h || ny > h * h
}

/// The index of the tile under the digging walk at step `k`.
pub open spec fn dig_index(w: int, h: int, sx: int, sy: int, tx: int, ty: int, k: int) -> int {
    axis_at(sy, ty, k, h) * w + axis_at(sx, tx, k, w)
}

/// Whether the digging walk stops at step `k`: it left the grid, its tile lies
/// past the last cell, or its tile is solid.
pub open spec fn dig_stops(
    cells: Seq<bool>,
    w: int,
    h: int,
    sx: int,
    sy: int,
    tx: int,
    ty: int,
    k: int,
) -> bool {
    ||| dig_out(w, h, sx, sy, tx, ty, k)
    ||| dig_index(w, h, sx, sy, tx, ty, k) >= cells.len()
    ||| cells[dig_index(w, h, sx, sy, tx, ty, k)]
}

/// Step `n` is the first at which the digging walk stops.
pub open spec fn dig_stops_first(
    cells: Seq<bool>,
    w: int,
    h: int,
    sx: int,
    sy: int,
    tx: int,
    ty: int,
    n: nat,
) -> bool {
    &&& dig_stops(cells, w, h, sx, sy, tx, ty, n as int)
    &&& forall|j: nat| j < n ==> !dig_stops(cells, w, h, sx, sy, tx, ty, j as int)
}

/// The step at which the digging walk stops.
pub open spec fn dig_len(
    cells: Seq<bool>,
    w: int,
    h: int,
    sx: int,
    sy: int,
    tx: int,
    ty: int,
) -> nat {
    choose|n: nat| dig_stops_first(cells, w, h, sx, sy, tx, ty, n)
}

/// The cells after digging from `(sx, sy)` towards `(tx, ty)`: a blast at the
/// first solid tile met, if the walk meets one before it leaves the grid.
pub open spec fn dug(cells: Seq<bool>, w: int, h: int, sx: int, sy: int, tx: int, ty: int) -> Seq<
    bool,
> {
    let n = dig_len(cells, w, h, sx, sy, tx, ty) as int;
    if dig_out(w, h, sx, sy, tx, ty, n) || dig_index(w, h, sx, sy, tx, ty, n) >= cells.len() {
        cells
    } else {
        cleared_at(cells, w, h, axis_at(sx, tx, n, w), axis_at(sy, ty, n, h))
    }
}

/// The first stop of a digging walk is unique.
proof fn lemma_dig_len(
    cells: Seq<bool>,
    w: int,
    h: int,
    sx: int,
    sy: int,
    tx: int,
    ty: int,
    n: nat,
)
    requires
        dig_stops_first(cells, w, h, sx, sy, tx, ty, n),
    ensures
        dig_len(cells, w, h, sx, sy, tx, ty) == n,
{
    let m = dig_len(cells, w, h, sx, sy, tx, ty);
    assert(dig_stops_first(cells, w, h, sx, sy, tx, ty, m));
    if m < n {
        assert(!dig_stops(cells, w, h, sx, sy, tx, ty, m as int));
    } else if m > n {
        assert(!dig_stops(cells, w, h, sx, sy, tx, ty, n as int));
    }
}

/// How a scaled position `n = pos * w + rem` compares with `w` and `w * w`.
proof fn lemma_scaled_bounds(pos: int, rem: int, w: int, n: int)
    requires
        n == pos * w + rem,
        0 <= rem < w,
    ensures
        n < w <==> pos < 1,
        n > w * w <==> (pos > w || (pos == w && rem > 0)),
{
    if pos <= 0 {
        assert(pos * w <= 0) by (nonlinear_arith)
            requires
                pos <= 0,
                w > 0,
        ;
        assert(n <= w * w) by (nonlinear_arith)
            requires
                n < w,
                w > 0,
        ;
    } else {
        assert(pos * w >= w) by (nonlinear_arith)
            requires
                pos >= 1,
                w > 0,
        ;
        if pos >= w + 1 {
            assert(pos * w >= w * w + w) by (nonlinear_arith)
                requires
                    pos >= w + 1,
                    w > 0,
            ;
        } else if pos == w {
        } else {
            assert(pos * w <= w * w - w) by (nonlinear_arith)
                requires
                    pos <= w - 1,
                    w > 0,
            ;
        }
    }
}

impl MarsWorld {
    /// Walks from `start` towards `target` in steps of a `width`-th of the
    /// way along x and a `height`-th along y (in exact arithmetic), and blasts
    /// at the first solid tile met, unless the walk leaves the grid first.
    /// A walk whose tile lies past the last cell stops there and digs nothing.
    /// A walk from an open tile towards itself would never end, so `start`
    /// and `target` differ unless `start` is solid.
    pub fn dig_toward(&mut self, start: (usize, usize), target: (usize, usize))
        requires
            old(self).wf(),
            start != target || old(self).solid_at(start.0 as int, start.1 as int),
        ensures
            final(self).wf(),
            final(self).spec_width() == old(self).spec_width(),
            final(self).spec_height() == old(self).spec_height(),
            dig_stops_first(
                old(self).cells(),
                old(self).spec_width(),
                old(self).spec_height(),
                start.0 as int,
                start.1 as int,
                target.0 as int,
                target.1 as int,
                dig_len(
                    old(self).cells(),
                    old(self).spec_width(),
                    old(self).spec_height(),
                    start.0 as int,
                    start.1 as int,
                    target.0 as int,
                    target.1 as int,
                ),
            ),
            final(self).cells() == dug(
                old(self).cells(),
                old(self).spec_width(),
                old(self).spec_height(),
                start.0 as int,
                start.1 as int,
                target.0 as int,
                target.1 as int,
            ),
    {
        let w = self.width;
        let h = self.height;
        let ghost wi = w as int;
        let ghost hi = h as int;
        let ghost sx = start.0 as int;
        let ghost sy = start.1 as int;
        let ghost tx = target.0 as int;
        let ghost ty = target.1 as int;
        let ghost cells = self.solid@;
        let mut ax = AxisWalk::start(start.0, target.0, w);
        let mut ay = AxisWalk::start(start.1, target.1, h);
        let ghost mut k: int = 0;
        let len = self.solid.len();
        loop
            invariant_except_break
                self.solid@ == cells,
            invariant
                self.wf(),
                self.width == w,
                self.height == h,
                len == cells.len(),
                wi == w,
                hi == h,
                sx == start.0,
                sy == start.1,
                tx == target.0,
                ty == target.1,
                sx != tx || sy != ty || (k == 0 && cells[sy * wi + sx]),
                k >= 0,
                ax.inv(sx, tx, wi, k),
                ay.inv(sy, ty, hi, k),
                forall|j: nat| j < k ==> !dig_stops(cells, wi, hi, sx, sy, tx, ty, j as int),
            ensures
                self.width == w,
                self.height == h,
                k >= 0,
                dig_stops_first(cells, wi, hi, sx, sy, tx, ty, k as nat),
                self.wf(),
                self.cells() == dug(cells, wi, hi, sx, sy, tx, ty),
            decreases
                (if tx != sx {
                    AxisWalk::room(sx, tx, wi, k)
                } else {
                    AxisWalk::room(sy, ty, hi, k)
                }),
        {
            proof {
                ax.lemma_pos(sx, tx, wi, k);
                ay.lemma_pos(sy, ty, hi, k);
                lemma_scaled_bounds(ax.pos as int, ax.rem as int, wi, axis_num(sx, tx, k, wi));
                lemma_scaled_bounds(ay.pos as int, ay.rem as int, hi, axis_num(sy, ty, k, hi));
            }
            if ax.pos < 1 || ax.pos > w as i128 || (ax.pos == w as i128 && ax.rem > 0) || ay.pos < 1
                || ay.pos > h as i128 || (ay.pos == h as i128 && ay.rem > 0) {
                assert(dig_out(wi, hi, sx, sy, tx, ty, k));
                proof {
                    lemma_dig_len(cells, wi, hi, sx, sy, tx, ty, k as nat);
                }
                break;
            }
            let px = ax.pos as u128;
            let py = ay.pos as u128;
            assert(py * wi <= wi * hi) by (nonlinear_arith)
                requires
                    py <= hi,
                    wi >= 0,
            ;
            let idx: u128 = py * (w as u128) + px;
            if idx >= len as u128 {
                assert(dig_index(wi, hi, sx, sy, tx, ty, k) >= cells.len());
                proof {
                    lemma_dig_len(cells, wi, hi, sx, sy, tx, ty, k as nat);
                }
                break;
            }
            if self.solid[idx as usize] {
                assert(dig_stops(cells, wi, hi, sx, sy, tx, ty, k));
                proof {
                    lemma_dig_len(cells, wi, hi, sx, sy, tx, ty, k as nat);
                }
                self.clear_tiles(px as usize, py as usize);
                break;
            }
            assert(!dig_stops(cells, wi, hi, sx, sy, tx, ty, k));
            proof {
                if sx == tx && sy == ty {
                    assert(k == 0);
                    assert(axis_num(sx, tx, 0, wi) == sx * wi) by (nonlinear_arith);
                    assert(axis_num(sy, ty, 0, hi) == sy * hi) by (nonlinear_arith);
                    lemma_fundamental_div_mod_converse(sx * wi, wi, sx, 0);
                    lemma_fundamental_div_mod_converse(sy * hi, hi, sy, 0);
                    assert(axis_at(sx, tx, 0, wi) == sx);
                    assert(axis_at(sy, ty, 0, hi) == sy);
                    assert(false);
                }
            }
            ax.advance(Ghost(sx), Ghost(tx), Ghost(k));
            ay.advance(Ghost(sy), Ghost(ty), Ghost(k));
            proof {
                assert(axis_num(sx, tx, k + 1, wi) == axis_num(sx, tx, k, wi) + (tx - sx))
                    by (nonlinear_arith);
                assert(axis_num(sy, ty, k + 1, hi) == axis_num(sy, ty, k, hi) + (ty - sy))
                    by (nonlinear_arith);
                k = k + 1;
            }
        }
    }
}

/// The number of solid cells.
pub open spec fn count_solid(cells: Seq<bool>) -> nat
    decreases cells.len(),
{
    if cells.len() == 0 {
        0
    } else {
        count_solid(cells.drop_last()) + if cells.last() {
            1nat
        } else {
            0nat
        }
    }
}

/// `after` has the length of `before`, and each solid cell of `after` is
/// solid in `before`: only openings happened.
pub open spec fn opens_only(before: Seq<bool>, after: Seq<bool>) -> bool {
    &&& after.len() == before.len()
    &&& forall|i: int| 0 <= i < after.len() && #[trigger] after[i] ==> before[i]
}

/// Every cell of the first column, the last column and the first row of a
/// `w`-wide grid is solid.
pub open spec fn border_solid(cells: Seq<bool>, w: int) -> bool {
    forall|i: int|
        0 <= i < cells.len() && (i % w == 0 || i % w == w - 1 || i / w == 0) ==> #[trigger] cells[i]
}

/// Fewer than three fifths of the cells are solid.
pub open spec fn mostly_open(cells: Seq<bool>) -> bool {
    count_solid(cells) * 5 < 3 * cells.len()
}

proof fn lemma_count_solid_bound(cells: Seq<bool>)
    ensures
        count_solid(cells) <= cells.len(),
    decreases cells.len(),
{
    if cells.len() > 0 {
        lemma_count_solid_bound(cells.drop_last());
    }
}

/// A blast only opens tiles, and it keeps the first column, the last column
/// and the first row solid.
pub proof fn blast_only_opens_inner_tiles(cells: Seq<bool>, w: int, h: int, cx: int, cy: int)
    requires
        w >= 1,
    ensures
        opens_only(cells, cleared_at(cells, w, h, cx, cy)),
        border_solid(cells, w) ==> border_solid(cleared_at(cells, w, h, cx, cy), w),
{
}

/// Blasting the same place twice opens what blasting it once opens.
pub proof fn blast_is_idempotent(cells: Seq<bool>, w: int, h: int, cx: int, cy: int)
    ensures
        cleared_at(cleared_at(cells, w, h, cx, cy), w, h, cx, cy) == cleared_at(
            cells,
            w,
            h,
            cx,
            cy,
        ),
{
    assert(cleared_at(cleared_at(cells, w, h, cx, cy), w, h, cx, cy) =~= cleared_at(
        cells,
        w,
        h,
        cx,
        cy,
    ));
}

/// A blast on an inner tile (not in the first or last column, not in the
/// first row) opens that tile.
pub proof fn blast_opens_its_centre(cells: Seq<bool>, w: int, h: int, cx: int, cy: int)
    requires
        cells.len() == w * h,
        0 < cx < w - 1,
        0 < cy < h,
    ensures
        !cleared_at(cells, w, h, cx, cy)[cy * w + cx],
{
    lemma_tile_in_grid(w, h, cx, cy);
    lemma_fundamental_div_mod_converse(cy * w + cx, w, cy, cx);
}

/// The blasts along a line only open tiles, and keep the first column, the
/// last column and the first row solid.
pub proof fn line_only_opens_inner_tiles(
    cells: Seq<bool>,
    w: int,
    h: int,
    sx: int,
    sy: int,
    ex: int,
    ey: int,
    n: nat,
)
    requires
        w >= 1,
    ensures
        opens_only(cells, cleared_along_line(cells, w, h, sx, sy, ex, ey, n)),
        border_solid(cells, w) ==> border_solid(
            cleared_along_line(cells, w, h, sx, sy, ex, ey, n),
            w,
        ),
    decreases n,
{
    if n > 0 {
        let k = (n - 1) as nat;
        line_only_opens_inner_tiles(cells, w, h, sx, sy, ex, ey, k);
        let prev = cleared_along_line(cells, w, h, sx, sy, ex, ey, k);
        blast_only_opens_inner_tiles(
            prev,
            w,
            h,
            axis_at(sx, ex, k as int, w),
            axis_at(sy, ey, k as int, h),
        );
    }
}

/// Digging only opens tiles, and keeps the first column, the last column and
/// the first row solid.
pub proof fn dig_only_opens_inner_tiles(
    cells: Seq<bool>,
    w: int,
    h: int,
    sx: int,
    sy: int,
    tx: int,
    ty: int,
)
    requires
        w >= 1,
    ensures
        opens_only(cells, dug(cells, w, h, sx, sy, tx, ty)),
        border_solid(cells, w) ==> border_solid(dug(cells, w, h, sx, sy, tx, ty), w),
{
    let n = dig_len(cells, w, h, sx, sy, tx, ty) as int;
    blast_only_opens_inner_tiles(cells, w, h, axis_at(sx, tx, n, w), axis_at(sy, ty, n, h));
}

proof fn lemma_line_grows(
    cells: Seq<bool>,
    w: int,
    h: int,
    sx: int,
    sy: int,
    ex: int,
    ey: int,
    m: nat,
    n: nat,
)
    requires
        m <= n,
        w >= 1,
    ensures
        opens_only(
            cleared_along_line(cells, w, h, sx, sy, ex, ey, m),
            cleared_along_line(cells, w, h, sx, sy, ex, ey, n),
        ),
    decreases n,
{
    if m < n {
        let k = (n - 1) as nat;
        lemma_line_grows(cells, w, h, sx, sy, ex, ey, m, k);
        let prev = cleared_along_line(cells, w, h, sx, sy, ex, ey, k);
        blast_only_opens_inner_tiles(
            prev,
            w,
            h,
            axis_at(sx, ex, k as int, w),
            axis_at(sy, ey, k as int, h),
        );
    }
}

/// A line drawn from an inner tile to another tile opens its start tile.
pub proof fn line_opens_its_start(
    cells: Seq<bool>,
    w: int,
    h: int,
    sx: int,
    sy: int,
    ex: int,
    ey: int,
    n: nat,
)
    requires
        cells.len() == w * h,
        0 < sx < w - 1,
        0 < sy < h - 1,
        sx != ex || sy != ey,
        line_stops_first(w, h, sx, sy, ex, ey, n),
    ensures
        !cleared_along_line(cells, w, h, sx, sy, ex, ey, n)[sy * w + sx],
{
    assert(axis_num(sx, ex, 0, w) == sx * w) by (nonlinear_arith);
    assert(axis_num(sy, ey, 0, h) == sy * h) by (nonlinear_arith);
    lemma_fundamental_div_mod_converse(sx * w, w, sx, 0);
    lemma_fundamental_div_mod_converse(sy * h, h, sy, 0);
    assert(axis_at(sx, ex, 0, w) == sx);
    assert(axis_at(sy, ey, 0, h) == sy);
    assert(!line_stops(w, h, sx, sy, ex, ey, 0));
    assert(cleared_along_line(cells, w, h, sx, sy, ex, ey, 0) == cells);
    assert(cleared_along_line(cells, w, h, sx, sy, ex, ey, 1) == cleared_at(cells, w, h, sx, sy));
    blast_opens_its_centre(cells, w, h, sx, sy);
    lemma_tile_in_grid(w, h, sx, sy);
    lemma_line_grows(cells, w, h, sx, sy, ex, ey, 1, n);
}

/// Whether the tile at column `x`, row `y` of a `w`-wide grid is open.
pub open spec fn open_at(cells: Seq<bool>, w: int, x: int, y: int) -> bool {
    !cells[y * w + x]
}

/// Every tile of the three by three block centred on `(cx, cy)` is open.
pub open spec fn block_open(cells: Seq<bool>, w: int, cx: int, cy: int) -> bool {
    forall|x: int, y: int|
        cx - 1 <= x <= cx + 1 && cy - 1 <= y <= cy + 1 ==> #[trigger] open_at(cells, w, x, y)
}

/// The five blasts of a hole at `(x, y)` are open: the block at the hole and
/// the blocks two tiles to its left, to its right, above and below it.
pub open spec fn hole_open(cells: Seq<bool>, w: int, x: int, y: int) -> bool {
    &&& block_open(cells, w, x, y)
    &&& block_open(cells, w, x + 2, y)
    &&& block_open(cells, w, x - 2, y)
    &&& block_open(cells, w, x, y + 2)
    &&& block_open(cells, w, x, y - 2)
}

/// Each of `holes` lies at least five tiles inside every edge of a `w` by `h`
/// grid, and its five blasts are open.
pub open spec fn holes_open(cells: Seq<bool>, w: int, h: int, holes: Seq<(usize, usize)>) -> bool {
    forall|j: int|
        0 <= j < holes.len() ==> {
            &&& 5 <= (#[trigger] holes[j]).0 < w - 5
            &&& 5 <= holes[j].1 < h - 5
            &&& hole_open(cells, w, holes[j].0 as int, holes[j].1 as int)
        }
}

/// The borehole is open: the three columns around the middle one, from the
/// row below the middle row up to the top row.
pub open spec fn borehole_open(cells: Seq<bool>, w: int, h: int) -> bool {
    forall|x: int, y: int|
        w / 2 - 1 <= x <= w / 2 + 1 && h / 2 - 1 <= y < h ==> #[trigger] open_at(cells, w, x, y)
}

/// The cells after the five blasts of a hole at `(x, y)`: at the hole, two
/// tiles to its right, to its left, above and below it, in that order.
pub open spec fn hole_blasted(cells: Seq<bool>, w: int, h: int, x: int, y: int) -> Seq<bool> {
    let c1 = cleared_at(cells, w, h, x, y);
    let c2 = cleared_at(c1, w, h, x + 2, y);
    let c3 = cleared_at(c2, w, h, x - 2, y);
    let c4 = cleared_at(c3, w, h, x, y + 2);
    cleared_at(c4, w, h, x, y - 2)
}

/// Whether cell `i` of a `w`-wide grid lies in the first column, the last
/// column or the first row.
pub open spec fn is_border(i: int, w: int) -> bool {
    i % w == 0 || i % w == w - 1 || i / w == 0
}

/// The number of border cells among the first `n` cells of a `w`-wide grid.
spec fn count_border(n: nat, w: int) -> nat
    decreases n,
{
    if n == 0 {
        0
    } else {
        count_border((n - 1) as nat, w) + if is_border(n - 1, w) {
            1nat
        } else {
            0nat
        }
    }
}

/// A blast opens each tile that it reaches.
proof fn lemma_blast_opens(cells: Seq<bool>, w: int, h: int, cx: int, cy: int, x: int, y: int)
    requires
        cells.len() == w * h,
        in_blast(w, h, cx, cy, x, y),
    ensures
        open_at(cleared_at(cells, w, h, cx, cy), w, x, y),
{
    lemma_tile_in_grid(w, h, x, y);
    lemma_fundamental_div_mod_converse(y * w + x, w, y, x);
}

/// A blast two or more tiles inside the first and last columns and the first
/// row opens its whole block.
proof fn lemma_blast_opens_block(cells: Seq<bool>, w: int, h: int, cx: int, cy: int)
    requires
        cells.len() == w * h,
        2 <= cx <= w - 3,
        2 <= cy < h - 1,
    ensures
        block_open(cleared_at(cells, w, h, cx, cy), w, cx, cy),
{
    assert forall|x: int, y: int| cx - 1 <= x <= cx + 1 && cy - 1 <= y <= cy + 1 implies #[trigger] open_at(
        cleared_at(cells, w, h, cx, cy),
        w,
        x,
        y,
    ) by {
        lemma_blast_opens(cells, w, h, cx, cy, x, y);
    }
}

/// An open block of the grid stays open while only openings happen.
proof fn lemma_block_kept(before: Seq<bool>, after: Seq<bool>, w: int, h: int, cx: int, cy: int)
    requires
        opens_only(before, after),
        before.len() == w * h,
        1 <= cx < w - 1,
        1 <= cy < h - 1,
        block_open(before, w, cx, cy),
    ensures
        block_open(after, w, cx, cy),
{
    assert forall|x: int, y: int| cx - 1 <= x <= cx + 1 && cy - 1 <= y <= cy + 1 implies #[trigger] open_at(
        after,
        w,
        x,
        y,
    ) by {
        lemma_tile_in_grid(w, h, x, y);
        assert(open_at(before, w, x, y));
    }
}

/// The holes, the block at the centre and the borehole stay open while only
/// openings happen.
proof fn lemma_carving_kept(
    before: Seq<bool>,
    after: Seq<bool>,
    w: int,
    h: int,
    holes: Seq<(usize, usize)>,
)
    requires
        opens_only(before, after),
        before.len() == w * h,
        w >= 11,
        h >= 11,
    ensures
        holes_open(before, w, h, holes) ==> holes_open(after, w, h, holes),
        block_open(before, w, w / 2, h / 2) ==> block_open(after, w, w / 2, h / 2),
        borehole_open(before, w, h) ==> borehole_open(after, w, h),
{
    if holes_open(before, w, h, holes) {
        assert forall|j: int| 0 <= j < holes.len() implies {
            &&& 5 <= (#[trigger] holes[j]).0 < w - 5
            &&& 5 <= holes[j].1 < h - 5
            &&& hole_open(after, w, holes[j].0 as int, holes[j].1 as int)
        } by {
            let x = holes[j].0 as int;
            let y = holes[j].1 as int;
            lemma_block_kept(before, after, w, h, x, y);
            lemma_block_kept(before, after, w, h, x + 2, y);
            lemma_block_kept(before, after, w, h, x - 2, y);
            lemma_block_kept(before, after, w, h, x, y + 2);
            lemma_block_kept(before, after, w, h, x, y - 2);
        }
    }
    if block_open(before, w, w / 2, h / 2) {
        lemma_block_kept(before, after, w, h, w / 2, h / 2);
    }
    if borehole_open(before, w, h) {
        assert forall|x: int, y: int| w / 2 - 1 <= x <= w / 2 + 1 && h / 2 - 1 <= y < h implies #[trigger] open_at(
            after,
            w,
            x,
            y,
        ) by {
            lemma_tile_in_grid(w, h, x, y);
            assert(open_at(before, w, x, y));
        }
    }
}

/// `opens_only` chains.
proof fn lemma_opens_only_trans(a: Seq<bool>, b: Seq<bool>, c: Seq<bool>)
    requires
        opens_only(a, b),
        opens_only(b, c),
    ensures
        opens_only(a, c),
{
    assert forall|i: int| 0 <= i < c.len() && #[trigger] c[i] implies a[i] by {
        assert(b[i]);
    }
}

/// If only border cells are solid, no more cells are solid than border cells.
proof fn lemma_solid_within_border(cells: Seq<bool>, w: int)
    requires
        forall|i: int| 0 <= i < cells.len() && #[trigger] cells[i] ==> is_border(i, w),
    ensures
        count_solid(cells) <= count_border(cells.len(), w),
    decreases cells.len(),
{
    if cells.len() > 0 {
        let d = cells.drop_last();
        assert forall|i: int| 0 <= i < d.len() && #[trigger] d[i] implies is_border(i, w) by {
            assert(cells[i]);
        }
        lemma_solid_within_border(d, w);
        if cells.last() {
            assert(cells[cells.len() - 1]);
        }
    }
}

/// The first `c` cells of the first row are all border cells.
proof fn lemma_count_border_first_row(c: nat, w: int)
    requires
        c <= w,
    ensures
        count_border(c, w) == c,
    decreases c,
{
    if c > 0 {
        lemma_count_border_first_row((c - 1) as nat, w);
        lemma_fundamental_div_mod_converse(c - 1, w, 0, c - 1);
    }
}

/// Of the first `c` cells of a later row, the first is a border cell, and so
/// is the last once `c` reaches the width.
proof fn lemma_count_border_row(r: int, c: int, w: int)
    requires
        r >= 1,
        0 <= c <= w,
        w >= 2,
    ensures
        count_border((r * w + c) as nat, w) == count_border((r * w) as nat, w) + (if c >= 1 {
            1int
        } else {
            0int
        }) + (if c == w {
            1int
        } else {
            0int
        }),
    decreases c,
{
    assert(r * w >= 0) by (nonlinear_arith)
        requires
            r >= 1,
            w >= 2,
    ;
    if c > 0 {
        lemma_count_border_row(r, c - 1, w);
        lemma_fundamental_div_mod_converse(r * w + c - 1, w, r, c - 1);
    }
}

/// A grid of `h` rows of `w` cells has `w + 2 * (h - 1)` border cells.
proof fn lemma_count_border_grid(w: int, h: int)
    requires
        w >= 2,
        h >= 1,
    ensures
        count_border((w * h) as nat, w) == w + 2 * (h - 1),
    decreases h,
{
    if h == 1 {
        lemma_count_border_first_row(w as nat, w);
        assert(w * h == w);
    } else {
        lemma_count_border_grid(w, h - 1);
        assert((h - 1) * w == w * (h - 1)) by (nonlinear_arith);
        assert(w * h == (h - 1) * w + w) by (nonlinear_arith);
        lemma_count_border_row(h - 1, w, w);
        assert(((h - 1) * w + w) as nat == (w * h) as nat);
        assert(((h - 1) * w) as nat == (w * (h - 1)) as nat);
    }
}

/// A grid of at least eleven by eleven cells whose solid cells all lie on the
/// border has fewer than three fifths of its cells solid.
proof fn lemma_border_only_is_mostly_open(cells: Seq<bool>, w: int, h: int)
    requires
        cells.len() == w * h,
        w >= 11,
        h >= 11,
        forall|i: int| 0 <= i < cells.len() && #[trigger] cells[i] ==> is_border(i, w),
    ensures
        mostly_open(cells),
{
    lemma_solid_within_border(cells, w);
    lemma_count_border_grid(w, h);
    assert((w + 2 * (h - 1)) * 5 < 3 * (w * h)) by (nonlinear_arith)
        requires
            w >= 11,
            h >= 11,
    ;
}

/// Opening one cell leaves at most one fewer solid cell.
proof fn lemma_count_update(s: Seq<bool>, j: int)
    requires
        0 <= j < s.len(),
    ensures
        count_solid(s.update(j, false)) + 1 >= count_solid(s),
    decreases s.len(),
{
    let t = s.update(j, false);
    if j == s.len() - 1 {
        assert(t.drop_last() =~= s.drop_last());
    } else {
        lemma_count_update(s.drop_last(), j);
        assert(t.drop_last() =~= s.drop_last().update(j, false));
    }
}

/// The place of tile `(x, y)` among the nine of a blast at `(cx, cy)`, column
/// by column.
spec fn blast_rank(cx: int, cy: int, x: int, y: int) -> int {
    3 * (x - cx + 1) + (y - cy + 1)
}

/// The cells after the first `k` of the nine tiles of a blast at `(cx, cy)`
/// have been opened one at a time.
spec fn blast_steps(cells: Seq<bool>, w: int, h: int, cx: int, cy: int, k: nat) -> Seq<bool>
    decreases k,
{
    if k == 0 {
        cells
    } else {
        let prev = blast_steps(cells, w, h, cx, cy, (k - 1) as nat);
        let tx = cx - 1 + (k - 1) / 3;
        let ty = cy - 1 + (k - 1) % 3;
        if in_blast(w, h, cx, cy, tx, ty) {
            prev.update(ty * w + tx, false)
        } else {
            prev
        }
    }
}

proof fn lemma_blast_steps(cells: Seq<bool>, w: int, h: int, cx: int, cy: int, k: nat)
    requires
        cells.len() == w * h,
        w >= 1,
        k <= 9,
    ensures
        blast_steps(cells, w, h, cx, cy, k).len() == cells.len(),
        count_solid(blast_steps(cells, w, h, cx, cy, k)) + k >= count_solid(cells),
        forall|i: int|
            0 <= i < cells.len() ==> #[trigger] blast_steps(cells, w, h, cx, cy, k)[i] == (cells[i]
                && !(in_blast(w, h, cx, cy, i % w, i / w) && blast_rank(cx, cy, i % w, i / w)
                < k)),
    decreases k,
{
    if k > 0 {
        let m = k - 1;
        lemma_blast_steps(cells, w, h, cx, cy, m as nat);
        let prev = blast_steps(cells, w, h, cx, cy, m as nat);
        let tx = cx - 1 + m / 3;
        let ty = cy - 1 + m % 3;
        assert(blast_rank(cx, cy, tx, ty) == m);
        if in_blast(w, h, cx, cy, tx, ty) {
            let idx = ty * w + tx;
            lemma_tile_in_grid(w, h, tx, ty);
            lemma_fundamental_div_mod_converse(idx, w, ty, tx);
            lemma_count_update(prev, idx);
            assert forall|i: int| 0 <= i < cells.len() implies #[trigger] blast_steps(
                cells,
                w,
                h,
                cx,
                cy,
                k,
            )[i] == (cells[i] && !(in_blast(w, h, cx, cy, i % w, i / w) && blast_rank(
                cx,
                cy,
                i % w,
                i / w,
            ) < k)) by {
                if i != idx {
                    lemma_split_index(i, w);
                    if in_blast(w, h, cx, cy, i % w, i / w) && blast_rank(cx, cy, i % w, i / w)
                        == m {
                        assert(i % w == tx && i / w == ty);
                    }
                }
            }
        } else {
            assert forall|i: int| 0 <= i < cells.len() implies #[trigger] blast_steps(
                cells,
                w,
                h,
                cx,
                cy,
                k,
            )[i] == (cells[i] && !(in_blast(w, h, cx, cy, i % w, i / w) && blast_rank(
                cx,
                cy,
                i % w,
                i / w,
            ) < k)) by {
                if in_blast(w, h, cx, cy, i % w, i / w) && blast_rank(cx, cy, i % w, i / w) == m {
                    assert(i % w == tx && i / w == ty);
                }
            }
        }
    }
}

/// A blast opens at most nine tiles.
proof fn lemma_blast_count(cells: Seq<bool>, w: int, h: int, cx: int, cy: int)
    requires
        cells.len() == w * h,
        w >= 1,
    ensures
        count_solid(cleared_at(cells, w, h, cx, cy)) + 9 >= count_solid(cells),
{
    lemma_blast_steps(cells, w, h, cx, cy, 9);
    assert(cleared_at(cells, w, h, cx, cy) =~= blast_steps(cells, w, h, cx, cy, 9));
}

/// Digging opens at most nine tiles.
proof fn lemma_dig_count(cells: Seq<bool>, w: int, h: int, sx: int, sy: int, tx: int, ty: int)
    requires
        cells.len() == w * h,
        w >= 1,
    ensures
        count_solid(dug(cells, w, h, sx, sy, tx, ty)) + 9 >= count_solid(cells),
{
    let n = dig_len(cells, w, h, sx, sy, tx, ty) as int;
    lemma_blast_count(cells, w, h, axis_at(sx, tx, n, w), axis_at(sy, ty, n, h));
}

/// The cells after the blasts of each of `holes` in turn (see `hole_blasted`).
pub open spec fn holes_blasted(cells: Seq<bool>, w: int, h: int, holes: Seq<(usize, usize)>) -> Seq<
    bool,
>
    decreases holes.len(),
{
    if holes.len() == 0 {
        cells
    } else {
        let last = holes.last();
        hole_blasted(
            holes_blasted(cells, w, h, holes.drop_last()),
            w,
            h,
            last.0 as int,
            last.1 as int,
        )
    }
}

/// The cells after the lines from `ring[k]` to the next hole of the ring,
/// `ring[(k + 1) % (ring.len() as int)]`, for each `k < n` in turn.
pub open spec fn ring_cleared(
    cells: Seq<bool>,
    w: int,
    h: int,
    ring: Seq<(usize, usize)>,
    n: nat,
) -> Seq<bool>
    decreases n,
{
    if n == 0 {
        cells
    } else {
        let k = n - 1;
        let s = ring[k];
        let e = ring[(k + 1) % (ring.len() as int)];
        cleared_along_line(
            ring_cleared(cells, w, h, ring, k as nat),
            w,
            h,
            s.0 as int,
            s.1 as int,
            e.0 as int,
            e.1 as int,
            line_len(w, h, s.0 as int, s.1 as int, e.0 as int, e.1 as int),
        )
    }
}

/// The cells after the blasts of the borehole, on the middle column, from
/// the middle row up to row `y - 1`.
pub open spec fn bored(cells: Seq<bool>, w: int, h: int, y: int) -> Seq<bool>
    decreases y - h / 2,
{
    if y <= h / 2 {
        cells
    } else {
        cleared_at(bored(cells, w, h, y - 1), w, h, w / 2, y - 1)
    }
}

/// The world before digging: all solid, then a blast at the centre, the
/// blasts of the `holes`, the lines joining the centre and the holes in a
/// ring, and the borehole up to the top row.
pub open spec fn carved(w: int, h: int, holes: Seq<(usize, usize)>) -> Seq<bool> {
    let solid = Seq::new((w * h) as nat, |i: int| true);
    let centred = cleared_at(solid, w, h, w / 2, h / 2);
    let ring = ring_of(w, h, holes);
    bored(ring_cleared(holes_blasted(centred, w, h, holes), w, h, ring, ring.len()), w, h, h)
}

/// The centre of a `w` by `h` grid followed by `holes`: the ring that the
/// lines join, and the holes that digging starts from.
pub open spec fn ring_of(w: int, h: int, holes: Seq<(usize, usize)>) -> Seq<(usize, usize)> {
    seq![((w / 2) as usize, (h / 2) as usize)] + holes
}

/// The cells after each of `steps` in turn: step `(k, t)` digs from `ring[k]`
/// towards tile `t` (see `dug`).
pub open spec fn dug_steps(
    cells: Seq<bool>,
    w: int,
    h: int,
    ring: Seq<(usize, usize)>,
    steps: Seq<(int, (usize, usize))>,
) -> Seq<bool>
    decreases steps.len(),
{
    if steps.len() == 0 {
        cells
    } else {
        let k = steps.last().0;
        let t = steps.last().1;
        dug(
            dug_steps(cells, w, h, ring, steps.drop_last()),
            w,
            h,
            ring[k].0 as int,
            ring[k].1 as int,
            t.0 as int,
            t.1 as int,
        )
    }
}

/// Each of `steps`, dug from `cells`, starts from one of the first ten
/// entries of `ring` and digs towards a tile of the grid that is solid when
/// it digs; and every step but the first starts from a world with three
/// fifths or more of its tiles solid.
pub open spec fn digs_from_holes(
    cells: Seq<bool>,
    w: int,
    h: int,
    ring: Seq<(usize, usize)>,
    steps: Seq<(int, (usize, usize))>,
) -> bool {
    forall|j: int|
        0 <= j < steps.len() ==> {
            &&& 0 <= (#[trigger] steps[j]).0 < 10
            &&& steps[j].1.0 < w
            &&& steps[j].1.1 < h
            &&& !open_at(
                dug_steps(cells, w, h, ring, steps.take(j)),
                w,
                steps[j].1.0 as int,
                steps[j].1.1 as int,
            )
            &&& j > 0 ==> !mostly_open(dug_steps(cells, w, h, ring, steps.take(j)))
        }
}

/// The inner tile that the `m`-th blast of the last resort of `MarsWorld::new`
/// hits: the inner tiles of a `w`-wide grid, row by row from row 1, each row
/// from column 1 to column `w - 2`.
pub open spec fn inner_tile(w: int, m: int) -> (int, int) {
    (1 + m % (w - 2), 1 + m / (w - 2))
}

/// The cells after blasts at the first `m` inner tiles (see `inner_tile`).
pub open spec fn inner_blasts(cells: Seq<bool>, w: int, h: int, m: nat) -> Seq<bool>
    decreases m,
{
    if m == 0 {
        cells
    } else {
        let t = inner_tile(w, m - 1);
        cleared_at(inner_blasts(cells, w, h, (m - 1) as nat), w, h, t.0, t.1)
    }
}

/// The ten holes that `MarsWorld::new` draws from generator state `state`
/// (the first `n` of them): for each, a column of `5..w-5` and then a row of
/// `5..h-5`; and the state that the draws leave.
pub open spec fn hole_draws(state: StdRng, w: int, h: int, n: nat) -> (Seq<(usize, usize)>, StdRng)
    decreases n,
{
    if n == 0 {
        (Seq::empty(), state)
    } else {
        let prev = hole_draws(state, w, h, (n - 1) as nat);
        let dx = range_usize_draw(prev.1, 5, (w - 5) as usize);
        let dy = range_usize_draw(dx.1, 5, (h - 5) as usize);
        (prev.0.push((dx.0, dy.0)), dy.1)
    }
}

/// Each dig of `steps`, dug from `cells`, was drawn from generator state
/// `states[j]`: its hole index is a draw of `0..10`, and its target is what
/// `find_random_closed_tile` gives from the state after that draw, which
/// leaves `states[j + 1]`.
pub open spec fn digs_drawn(
    cells: Seq<bool>,
    w: int,
    h: int,
    ring: Seq<(usize, usize)>,
    steps: Seq<(int, (usize, usize))>,
    states: Seq<StdRng>,
) -> bool {
    &&& states.len() == steps.len() + 1
    &&& forall|j: int|
        0 <= j < steps.len() ==> {
            let k = range_usize_draw(states[j], 0, 10);
            &&& (#[trigger] steps[j]).0 == k.0 as int
            &&& (steps[j].1, states[j + 1]) == closed_tile_result(
                dug_steps(cells, w, h, ring, steps.take(j)),
                w,
                h,
                k.1,
            )
        }
}

/// How `MarsWorld::new` makes `cells` from generator state `before`, leaving
/// state `after`, with the digging `steps` (drawn from the states `states`)
/// and `m` blasts of its last resort:
/// - the ten holes are drawn first (`hole_draws`), and their blasts stay
///   open;
/// - the world was `carved` from the holes, and then only opened;
/// - then come the digs, at least one, each drawn as `digs_drawn` says, from
///   one of the first ten holes of the ring towards a tile that is solid
///   when it digs, and the digging goes on only while three fifths or more
///   of the tiles are solid (`digs_from_holes`);
/// - the last resort blasts inner tiles only after `u64::MAX` digs, and only
///   while three fifths or more of the tiles are solid;
/// - `cells` is what these digs and blasts leave, and `after` the state that
///   the draws leave; so the last dig or blast left at most nine more tiles
///   open than needed, unless the carved world was already under three
///   fifths solid.
pub open spec fn generated_from(
    cells: Seq<bool>,
    w: int,
    h: int,
    before: StdRng,
    after: StdRng,
    steps: Seq<(int, (usize, usize))>,
    states: Seq<StdRng>,
    m: nat,
) -> bool {
    let holes = hole_draws(before, w, h, 10).0;
    let start = carved(w, h, holes);
    let digged = dug_steps(start, w, h, ring_of(w, h, holes), steps);
    &&& holes_open(cells, w, h, holes)
    &&& opens_only(start, cells)
    &&& 1 <= steps.len() <= u64::MAX
    &&& digs_from_holes(start, w, h, ring_of(w, h, holes), steps)
    &&& digs_drawn(start, w, h, ring_of(w, h, holes), steps, states)
    &&& states[0] == hole_draws(before, w, h, 10).1
    &&& states.last() == after
    &&& m > 0 ==> steps.len() == u64::MAX
    &&& forall|j: nat| j < m ==> !mostly_open(#[trigger] inner_blasts(digged, w, h, j))
    &&& cells == inner_blasts(digged, w, h, m)
    &&& mostly_open(start) || (count_solid(cells) + 9) * 5 >= 3 * cells.len()
}

/// The walk of `clear_line` from `s` to `e` on a `w` by `h` grid has a first
/// stop, and each tile that it blasts before that stop, unless it lies in the
/// last column, is open in `cells`.
#[verifier::opaque]
pub open spec fn line_open(cells: Seq<bool>, w: int, h: int, s: (usize, usize), e: (usize, usize)) -> bool {
    &&& line_stops_first(
        w,
        h,
        s.0 as int,
        s.1 as int,
        e.0 as int,
        e.1 as int,
        line_len(w, h, s.0 as int, s.1 as int, e.0 as int, e.1 as int),
    )
    &&& forall|t: int|
        0 <= t < line_len(w, h, s.0 as int, s.1 as int, e.0 as int, e.1 as int) && axis_at(
            s.0 as int,
            e.0 as int,
            t,
            w,
        ) < w - 1 ==> #[trigger] open_at(
            cells,
            w,
            axis_at(s.0 as int, e.0 as int, t, w),
            axis_at(s.1 as int, e.1 as int, t, h),
        )
}

/// Each entry of `ring` is joined by an open line to the next one, and the
/// last entry to the first.
#[verifier::opaque]
pub open spec fn ring_lines_open(cells: Seq<bool>, w: int, h: int, ring: Seq<(usize, usize)>) -> bool {
    forall|k: int|
        0 <= k < ring.len() ==> #[trigger] line_open(cells, w, h, ring[k], ring[(k + 1) % (ring.len() as int)])
}

proof fn lemma_line_tiles_open(
    cells: Seq<bool>,
    w: int,
    h: int,
    sx: int,
    sy: int,
    ex: int,
    ey: int,
    n: nat,
)
    requires
        cells.len() == w * h,
        w >= 1,
        forall|j: nat| j < n ==> !line_stops(w, h, sx, sy, ex, ey, j as int),
    ensures
        forall|t: int|
            0 <= t < n && axis_at(sx, ex, t, w) < w - 1 ==> #[trigger] open_at(
                cleared_along_line(cells, w, h, sx, sy, ex, ey, n),
                w,
                axis_at(sx, ex, t, w),
                axis_at(sy, ey, t, h),
            ),
    decreases n,
{
    if n > 0 {
        let k = (n - 1) as nat;
        lemma_line_tiles_open(cells, w, h, sx, sy, ex, ey, k);
        let prev = cleared_along_line(cells, w, h, sx, sy, ex, ey, k);
        let cx = axis_at(sx, ex, k as int, w);
        let cy = axis_at(sy, ey, k as int, h);
        line_only_opens_inner_tiles(cells, w, h, sx, sy, ex, ey, k);
        blast_only_opens_inner_tiles(prev, w, h, cx, cy);
        assert forall|t: int|
            0 <= t < n && axis_at(sx, ex, t, w) < w - 1 implies #[trigger] open_at(
            cleared_along_line(cells, w, h, sx, sy, ex, ey, n),
            w,
            axis_at(sx, ex, t, w),
            axis_at(sy, ey, t, h),
        ) by {
            let px = axis_at(sx, ex, t, w);
            let py = axis_at(sy, ey, t, h);
            assert(!line_stops(w, h, sx, sy, ex, ey, t));
            if t == k {
                lemma_blast_opens(prev, w, h, cx, cy, px, py);
            } else {
                lemma_tile_in_grid(w, h, px, py);
                assert(open_at(prev, w, px, py));
            }
        }
    }
}

/// A line stays open while only openings happen.
proof fn lemma_line_kept(
    before: Seq<bool>,
    after: Seq<bool>,
    w: int,
    h: int,
    s: (usize, usize),
    e: (usize, usize),
)
    requires
        opens_only(before, after),
        before.len() == w * h,
        line_open(before, w, h, s, e),
    ensures
        line_open(after, w, h, s, e),
{
    reveal(line_open);
    let n = line_len(w, h, s.0 as int, s.1 as int, e.0 as int, e.1 as int);
    assert forall|t: int|
        0 <= t < n && axis_at(s.0 as int, e.0 as int, t, w) < w - 1 implies #[trigger] open_at(
        after,
        w,
        axis_at(s.0 as int, e.0 as int, t, w),
        axis_at(s.1 as int, e.1 as int, t, h),
    ) by {
        let px = axis_at(s.0 as int, e.0 as int, t, w);
        let py = axis_at(s.1 as int, e.1 as int, t, h);
        assert(!line_stops(w, h, s.0 as int, s.1 as int, e.0 as int, e.1 as int, (t as nat) as int));
        lemma_tile_in_grid(w, h, px, py);
        assert(open_at(before, w, px, py));
    }
}

/// The ring's lines are open once each of its eleven lines is.
proof fn lemma_ring_closed(cells: Seq<bool>, w: int, h: int, ring: Seq<(usize, usize)>)
    requires
        ring.len() == 11,
        forall|k: int|
            0 <= k < 11 ==> #[trigger] line_open(cells, w, h, ring[k], ring[(k + 1) % 11]),
    ensures
        ring_lines_open(cells, w, h, ring),
{
    reveal(ring_lines_open);
}

/// The ring's lines stay open while only openings happen.
proof fn lemma_ring_kept(
    before: Seq<bool>,
    after: Seq<bool>,
    w: int,
    h: int,
    ring: Seq<(usize, usize)>,
)
    requires
        opens_only(before, after),
        before.len() == w * h,
        ring_lines_open(before, w, h, ring),
    ensures
        ring_lines_open(after, w, h, ring),
{
    reveal(ring_lines_open);
    assert forall|k: int| 0 <= k < ring.len() implies #[trigger] line_open(
        after,
        w,
        h,
        ring[k],
        ring[(k + 1) % (ring.len() as int)],
    ) by {
        assert(line_open(before, w, h, ring[k], ring[(k + 1) % (ring.len() as int)]));
        lemma_line_kept(before, after, w, h, ring[k], ring[(k + 1) % (ring.len() as int)]);
    }
}

/// Each dig of a run starts from the hole that its step names: the world
/// after the first `j + 1` steps is the world after the first `j`, dug from
/// `ring[k]` towards the target of step `j`, where `k` is that step's hole
/// index.
pub proof fn each_dig_starts_at_its_hole(
    cells: Seq<bool>,
    w: int,
    h: int,
    ring: Seq<(usize, usize)>,
    steps: Seq<(int, (usize, usize))>,
    j: int,
)
    requires
        0 <= j < steps.len(),
    ensures
        dug_steps(cells, w, h, ring, steps.take(j + 1)) == dug(
            dug_steps(cells, w, h, ring, steps.take(j)),
            w,
            h,
            ring[steps[j].0].0 as int,
            ring[steps[j].0].1 as int,
            steps[j].1.0 as int,
            steps[j].1.1 as int,
        ),
{
    assert(steps.take(j + 1).drop_last() =~= steps.take(j));
    assert(steps.take(j + 1).last() == steps[j]);
}

impl MarsWorld {
    /// The number of solid tiles.
    pub fn solid_count(&self) -> (r: usize)
        ensures
            r == count_solid(self.cells()),
    {
        let n = self.solid.len();
        let mut count: usize = 0;
        let mut i: usize = 0;
        while i < n
            invariant
                n == self.cells().len(),
                0 <= i <= n,
                count == count_solid(self.cells().take(i as int)),
            decreases n - i,
        {
            proof {
                assert(self.cells().take(i + 1).drop_last() =~= self.cells().take(i as int));
                lemma_count_solid_bound(self.cells().take(i as int));
            }
            if self.solid[i] {
                count = count + 1;
            }
            i = i + 1;
        }
        assert(self.cells().take(n as int) =~= self.cells());
        count
    }

    /// Whether fewer than three fifths of the tiles are solid, the point at
    /// which `new` stops digging.
    pub fn digging_done(&self) -> (r: bool)
        requires
            self.wf(),
        ensures
            r == mostly_open(self.cells()),
    {
        let count = self.solid_count();
        (count as u128) * 5 < 3 * (self.solid.len() as u128)
    }
}

/// The search of `find_random_closed_tile` from generator state `state`, for
/// at most `fuel` draws: each draw is a column of `0..w`, then a row of
/// `0..h`; it ends at the first drawn tile that is solid. Gives that tile, if
/// one was met, and the state left.
pub open spec fn tile_search(cells: Seq<bool>, w: int, h: int, state: StdRng, fuel: nat) -> (
    Option<(usize, usize)>,
    StdRng,
)
    decreases fuel,
{
    if fuel == 0 {
        (None, state)
    } else {
        let dx = range_usize_draw(state, 0, w as usize);
        let dy = range_usize_draw(dx.1, 0, h as usize);
        if cells[dy.0 * w + dx.0] {
            (Some((dx.0, dy.0)), dy.1)
        } else {
            tile_search(cells, w, h, dy.1, (fuel - 1) as nat)
        }
    }
}

/// Tile `t` of a `w`-wide grid is solid, and no cell before it is.
pub open spec fn is_first_solid(cells: Seq<bool>, w: int, t: (usize, usize)) -> bool {
    &&& t.0 < w
    &&& 0 <= t.1 * w + t.0 < cells.len()
    &&& cells[t.1 * w + t.0]
    &&& forall|i: int| 0 <= i < t.1 * w + t.0 ==> !cells[i]
}

/// The first solid tile, row by row.
pub open spec fn first_solid_tile(cells: Seq<bool>, w: int) -> (usize, usize) {
    choose|t: (usize, usize)| is_first_solid(cells, w, t)
}

/// What `find_random_closed_tile` gives from generator state `state`: the
/// tile of `tile_search` with `u64::MAX` draws, or else the first solid tile;
/// and the state that the draws leave.
pub open spec fn closed_tile_result(cells: Seq<bool>, w: int, h: int, state: StdRng) -> (
    (usize, usize),
    StdRng,
) {
    let found = tile_search(cells, w, h, state, u64::MAX as nat);
    match found.0 {
        Some(t) => (t, found.1),
        None => (first_solid_tile(cells, w), found.1),
    }
}

impl MarsWorld {
    /// Draws random tiles (a column, then a row) until one is solid, and
    /// returns its column and row. After `u64::MAX` misses in a row (which no
    /// run reaches) it takes the first solid tile instead. The tile and the
    /// generator's new state depend on the world and the generator's state
    /// alone (`closed_tile_result`).
    pub fn find_random_closed_tile(&self, rng: &mut RandomNumberGenerator) -> (r: (usize, usize))
        requires
            self.wf(),
            exists|i: int| 0 <= i < self.cells().len() && self.cells()[i],
        ensures
            r.0 < self.spec_width(),
            r.1 < self.spec_height(),
            self.solid_at(r.0 as int, r.1 as int),
            (r, final(rng).state()) == closed_tile_result(
                self.cells(),
                self.spec_width(),
                self.spec_height(),
                old(rng).state(),
            ),
    {
        let ghost w = self.spec_width();
        let ghost h = self.spec_height();
        let ghost cells = self.cells();
        let ghost s0 = rng.state();
        let ghost found = tile_search(cells, w, h, s0, u64::MAX as nat);
        let mut attempts: u64 = 0;
        while attempts < u64::MAX
            invariant
                self.wf(),
                w == self.spec_width(),
                h == self.spec_height(),
                cells == self.cells(),
                found == tile_search(cells, w, h, rng.state(), (u64::MAX - attempts) as nat),
                found == tile_search(cells, w, h, s0, u64::MAX as nat),
                s0 == old(rng).state(),
            decreases u64::MAX - attempts,
        {
            let ghost before = rng.state();
            let x = rng.range(0..self.width);
            let y = rng.range(0..self.height);
            proof {
                lemma_tile_in_grid(self.spec_width(), self.spec_height(), x as int, y as int);
                let fuel = (u64::MAX - attempts) as nat;
                let dx = range_usize_draw(before, 0, w as usize);
                let dy = range_usize_draw(dx.1, 0, h as usize);
                assert(dx.0 == x && dy.0 == y && dy.1 == rng.state());
                assert(tile_search(cells, w, h, before, fuel) == if cells[y * w + x] {
                    (Some((x, y)), rng.state())
                } else {
                    tile_search(cells, w, h, rng.state(), (fuel - 1) as nat)
                });
            }
            let idx = self.mapidx(x, y);
            if self.solid[idx] {
                return (x, y);
            }
            attempts = attempts + 1;
        }
        let n = self.solid.len();
        let mut i: usize = 0;
        while i < n
            invariant
                self.wf(),
                n == self.cells().len(),
                0 <= i <= n,
                forall|j: int| 0 <= j < i ==> !self.cells()[j],
                w == self.spec_width(),
                cells == self.cells(),
                h == self.spec_height(),
                found.0 is None,
                found.1 == rng.state(),
                found == tile_search(cells, w, h, s0, u64::MAX as nat),
                s0 == old(rng).state(),
            decreases n - i,
        {
            if self.solid[i] {
                let x = i % self.width;
                let y = i / self.width;
                proof {
                    lemma_split_index(i as int, self.spec_width());
                    let wi = self.spec_width();
                    let ii = i as int;
                    assert(y * wi + x == ii) by (nonlinear_arith)
                        requires
                            ii == (ii / wi) * wi + ii % wi,
                            x == ii % wi,
                            y == ii / wi,
                    ;
                    assert(y < self.spec_height()) by (nonlinear_arith)
                        requires
                            y * self.spec_width() + x == i,
                            i < self.spec_width() * self.spec_height(),
                            0 <= x,
                            self.spec_width() >= 1,
                    ;
                    assert(is_first_solid(cells, w, (x, y)));
                    let t = first_solid_tile(cells, w);
                    assert(is_first_solid(cells, w, t));
                    let ti = t.1 * w + t.0;
                    if ti < ii {
                        assert(!cells[ti]);
                    }
                    if ii < ti {
                        assert(!cells[ii]);
                    }
                    assert(ti == ii);
                    lemma_fundamental_div_mod_converse(ii, w, t.1 as int, t.0 as int);
                    lemma_fundamental_div_mod_converse(ii, w, y as int, x as int);
                    assert(t == (x, y));
                }
                return (x, y);
            }
            i = i + 1;
        }
        proof {
            let j = choose|j: int| 0 <= j < self.cells().len() && self.cells()[j];
            assert(!self.cells()[j]);
        }
        (0, 0)
    }

    /// A world of `width` by `height` tiles, all solid.
    pub fn all_solid(width: usize, height: usize) -> (r: Self)
        requires
            width >= 1,
            height >= 1,
            width * height <= usize::MAX,
        ensures
            r.wf(),
            r.spec_width() == width,
            r.spec_height() == height,
            forall|i: int| 0 <= i < r.cells().len() ==> #[trigger] r.cells()[i],
    {
        let n = width * height;
        MarsWorld { solid: vec![true; n], width, height }
    }

    /// The five blasts of a hole at `(x, y)`: at the hole, two tiles to its
    /// right, to its left, above and below it.
    fn blast_hole(&mut self, x: usize, y: usize)
        requires
            old(self).wf(),
            5 <= x < old(self).spec_width() - 5,
            5 <= y < old(self).spec_height() - 5,
        ensures
            final(self).wf(),
            final(self).spec_width() == old(self).spec_width(),
            final(self).spec_height() == old(self).spec_height(),
            final(self).cells() == hole_blasted(
                old(self).cells(),
                old(self).spec_width(),
                old(self).spec_height(),
                x as int,
                y as int,
            ),
            opens_only(old(self).cells(), final(self).cells()),
            border_solid(old(self).cells(), old(self).spec_width()) ==> border_solid(
                final(self).cells(),
                old(self).spec_width(),
            ),
            hole_open(final(self).cells(), old(self).spec_width(), x as int, y as int),
    {
        let ghost w = self.spec_width();
        let ghost h = self.spec_height();
        let ghost xi = x as int;
        let ghost yi = y as int;
        let ghost c0 = self.cells();
        self.clear_tiles(x, y);
        let ghost c1 = self.cells();
        self.clear_tiles(x + 2, y);
        let ghost c2 = self.cells();
        self.clear_tiles(x - 2, y);
        let ghost c3 = self.cells();
        self.clear_tiles(x, y + 2);
        let ghost c4 = self.cells();
        self.clear_tiles(x, y - 2);
        let ghost c5 = self.cells();
        proof {
            blast_only_opens_inner_tiles(c0, w, h, xi, yi);
            blast_only_opens_inner_tiles(c1, w, h, xi + 2, yi);
            blast_only_opens_inner_tiles(c2, w, h, xi - 2, yi);
            blast_only_opens_inner_tiles(c3, w, h, xi, yi + 2);
            blast_only_opens_inner_tiles(c4, w, h, xi, yi - 2);
            lemma_opens_only_trans(c3, c4, c5);
            lemma_opens_only_trans(c2, c3, c5);
            lemma_opens_only_trans(c1, c2, c5);
            lemma_opens_only_trans(c0, c1, c5);
            lemma_blast_opens_block(c0, w, h, xi, yi);
            lemma_block_kept(c1, c5, w, h, xi, yi);
            lemma_blast_opens_block(c1, w, h, xi + 2, yi);
            lemma_block_kept(c2, c5, w, h, xi + 2, yi);
            lemma_blast_opens_block(c2, w, h, xi - 2, yi);
            lemma_block_kept(c3, c5, w, h, xi - 2, yi);
            lemma_blast_opens_block(c3, w, h, xi, yi + 2);
            lemma_block_kept(c4, c5, w, h, xi, yi + 2);
            lemma_blast_opens_block(c4, w, h, xi, yi - 2);
        }
    }

    /// Generates a world of `width` by `height` tiles, all solid at first:
    /// blasts at the centre and at ten random holes (each with four blasts
    /// around it), blasts along lines joining the holes in a ring, carves a
    /// borehole from the centre to the top row, then digs from random holes
    /// towards random solid tiles until fewer than three fifths of the tiles
    /// are solid. After `u64::MAX` digs (which no run reaches) it blasts the
    /// inner tiles one by one, row by row, until that point is reached.
    /// Each dig or blast opens at most nine tiles, and the digging stops at
    /// the first that leaves fewer than three fifths solid (it always digs
    /// once, so it can end further below when the carved world already was).
    /// The world and the generator's new state depend on the size and the
    /// generator's state alone (see `generated_from`).
    pub fn new(width: usize, height: usize, rng: &mut RandomNumberGenerator) -> (r: Self)
        requires
            width >= 11,
            height >= 11,
            width * height <= usize::MAX,
        ensures
            r.wf(),
            r.spec_width() == width,
            r.spec_height() == height,
            border_solid(r.cells(), width as int),
            mostly_open(r.cells()),
            borehole_open(r.cells(), width as int, height as int),
            ring_lines_open(
                r.cells(),
                width as int,
                height as int,
                ring_of(width as int, height as int, hole_draws(old(rng).state(), width as int, height as int, 10).0),
            ),
            exists|steps: Seq<(int, (usize, usize))>, states: Seq<StdRng>, m: nat|
                #[trigger] generated_from(
                    r.cells(),
                    width as int,
                    height as int,
                    old(rng).state(),
                    final(rng).state(),
                    steps,
                    states,
                    m,
                ),
    {
        let ghost w = width as int;
        let ghost h = height as int;
        let ghost rng0 = rng.state();
        let mut result = MarsWorld::all_solid(width, height);
        assert(border_solid(result.cells(), w));
        let ghost c0 = result.cells();
        result.clear_tiles(width / 2, height / 2);
        let ghost centred = result.cells();
        proof {
            blast_only_opens_inner_tiles(c0, w, h, w / 2, h / 2);
            lemma_blast_opens_block(c0, w, h, w / 2, h / 2);
            assert(c0 =~= Seq::new((w * h) as nat, |i: int| true));
        }
        let mut holes: Vec<(usize, usize)> = vec![(width / 2, height / 2)];
        assert(holes@.drop_first() =~= Seq::<(usize, usize)>::empty());
        let mut count: usize = 0;
        while count < 10
            invariant
                result.wf(),
                result.spec_width() == w,
                result.spec_height() == h,
                w == width,
                h == height,
                width >= 11,
                height >= 11,
                0 <= count <= 10,
                holes.len() == count + 1,
                holes@[0] == (width / 2, height / 2),
                border_solid(result.cells(), w),
                block_open(result.cells(), w, w / 2, h / 2),
                holes_open(result.cells(), w, h, holes@.drop_first()),
                centred == cleared_at(Seq::new((w * h) as nat, |i: int| true), w, h, w / 2, h / 2),
                result.cells() == holes_blasted(centred, w, h, holes@.drop_first()),
                (holes@.drop_first(), rng.state()) == hole_draws(rng0, w, h, count as nat),
            decreases 10 - count,
        {
            let ghost st0 = rng.state();
            let x = rng.range(5..width - 5);
            let y = rng.range(5..height - 5);
            let ghost old_holes = holes@.drop_first();
            holes.push((x, y));
            let ghost c1 = result.cells();
            result.blast_hole(x, y);
            proof {
                lemma_carving_kept(c1, result.cells(), w, h, old_holes);
                assert(holes@.drop_first() =~= old_holes.push((x, y)));
                assert(holes@.drop_first().drop_last() =~= old_holes);
                let prev = hole_draws(rng0, w, h, count as nat);
                assert(prev.1 == st0);
                assert(hole_draws(rng0, w, h, (count + 1) as nat) == (
                    old_holes.push((x, y)),
                    rng.state(),
                ));
            }
            count = count + 1;
        }
        let ghost blasted = result.cells();
        let ghost s_holes = rng.state();
        let mut i: usize = 0;
        let hole_count = holes.len();
        while i < hole_count
            invariant
                result.wf(),
                result.spec_width() == w,
                result.spec_height() == h,
                w == width,
                h == height,
                width >= 11,
                height >= 11,
                hole_count == holes.len(),
                hole_count == 11,
                0 <= i <= hole_count,
                holes@[0] == (width / 2, height / 2),
                border_solid(result.cells(), w),
                block_open(result.cells(), w, w / 2, h / 2),
                holes_open(result.cells(), w, h, holes@.drop_first()),
                forall|k: int|
                    0 <= k < i ==> #[trigger] line_open(result.cells(), w, h, holes@[k], holes@[(k + 1) % 11]),
                result.cells() == ring_cleared(blasted, w, h, holes@, i as nat),
                rng.state() == s_holes,
            decreases hole_count - i,
        {
            let start = holes[i];
            let end = holes[(i + 1) % hole_count];
            let ghost c1 = result.cells();
            result.clear_line(start, end);
            proof {
                line_only_opens_inner_tiles(
                    c1,
                    w,
                    h,
                    start.0 as int,
                    start.1 as int,
                    end.0 as int,
                    end.1 as int,
                    line_len(w, h, start.0 as int, start.1 as int, end.0 as int, end.1 as int),
                );
                lemma_carving_kept(c1, result.cells(), w, h, holes@.drop_first());
                let n = line_len(w, h, start.0 as int, start.1 as int, end.0 as int, end.1 as int);
                lemma_line_tiles_open(
                    c1,
                    w,
                    h,
                    start.0 as int,
                    start.1 as int,
                    end.0 as int,
                    end.1 as int,
                    n,
                );
                assert(line_open(result.cells(), w, h, start, end)) by {
                    reveal(line_open);
                }
                assert forall|k: int| 0 <= k < i + 1 implies #[trigger] line_open(
                    result.cells(),
                    w,
                    h,
                    holes@[k],
                    holes@[(k + 1) % 11],
                ) by {
                    if k < i {
                        assert(line_open(c1, w, h, holes@[k], holes@[(k + 1) % 11]));
                        lemma_line_kept(c1, result.cells(), w, h, holes@[k], holes@[(k + 1) % 11]);
                    }
                }
            }
            i = i + 1;
        }
        proof {
            lemma_ring_closed(result.cells(), w, h, holes@);
        }
        let ghost ringed = result.cells();
        let mut y = height / 2;
        while y < height
            invariant
                result.wf(),
                result.spec_width() == w,
                result.spec_height() == h,
                w == width,
                h == height,
                width >= 11,
                height >= 11,
                height / 2 <= y <= height,
                holes.len() == 11,
                holes@[0] == (width / 2, height / 2),
                border_solid(result.cells(), w),
                block_open(result.cells(), w, w / 2, h / 2),
                holes_open(result.cells(), w, h, holes@.drop_first()),
                ring_lines_open(result.cells(), w, h, holes@),
                forall|x: int, yy: int|
                    w / 2 - 1 <= x <= w / 2 + 1 && h / 2 - 1 <= yy <= y && yy < h
                        ==> #[trigger] open_at(result.cells(), w, x, yy),
                result.cells() == bored(ringed, w, h, y as int),
                rng.state() == s_holes,
            decreases height - y,
        {
            let ghost c1 = result.cells();
            result.clear_tiles(width / 2, y);
            proof {
                blast_only_opens_inner_tiles(c1, w, h, w / 2, y as int);
                lemma_carving_kept(c1, result.cells(), w, h, holes@.drop_first());
                lemma_ring_kept(c1, result.cells(), w, h, holes@);
                assert forall|x: int, yy: int|
                    w / 2 - 1 <= x <= w / 2 + 1 && h / 2 - 1 <= yy <= y + 1 && yy < h
                        implies #[trigger] open_at(result.cells(), w, x, yy) by {
                    if yy >= y - 1 {
                        lemma_blast_opens(c1, w, h, w / 2, y as int, x, yy);
                    } else {
                        lemma_tile_in_grid(w, h, x, yy);
                        assert(open_at(c1, w, x, yy));
                    }
                }
            }
            y = y + 1;
        }
        assert(borehole_open(result.cells(), w, h));
        let ghost pre = result.cells();
        proof {
            assert(holes@ =~= seq![((w / 2) as usize, (h / 2) as usize)] + holes@.drop_first());
            assert(holes@ == ring_of(w, h, holes@.drop_first()));
            assert(pre == carved(w, h, holes@.drop_first()));
        }
        let ghost mut steps: Seq<(int, (usize, usize))> = Seq::empty();
        let ghost mut states: Seq<StdRng> = seq![s_holes];
        let mut done = false;
        let mut attempts: u64 = 0;
        while !done && attempts < u64::MAX
            invariant
                result.wf(),
                result.spec_width() == w,
                result.spec_height() == h,
                w == width,
                h == height,
                width >= 11,
                height >= 11,
                holes.len() == 11,
                holes@[0] == (width / 2, height / 2),
                border_solid(result.cells(), w),
                block_open(result.cells(), w, w / 2, h / 2),
                holes_open(result.cells(), w, h, holes@.drop_first()),
                ring_lines_open(result.cells(), w, h, holes@),
                borehole_open(result.cells(), w, h),
                attempts == 0 ==> !done,
                attempts > 0 ==> done == mostly_open(result.cells()),
                attempts == 0 ==> result.cells() == pre,
                opens_only(pre, result.cells()),
                attempts > 0 ==> mostly_open(pre) || (count_solid(result.cells()) + 9) * 5 >= 3
                    * result.cells().len(),
                steps.len() == attempts,
                result.cells() == dug_steps(pre, w, h, holes@, steps),
                digs_from_holes(pre, w, h, holes@, steps),
                digs_drawn(pre, w, h, holes@, steps, states),
                states[0] == s_holes,
                states.last() == rng.state(),
            decreases u64::MAX - attempts,
        {
            let ghost st0 = rng.state();
            let k = rng.range(0..10);
            let ghost st1 = rng.state();
            let start_tile = holes[k];
            proof {
                assert(w * h >= 1) by (nonlinear_arith)
                    requires
                        w >= 1,
                        h >= 1,
                ;
                assert(0int % w == 0);
                assert(result.cells()[0]);
                if k == 0 {
                    assert(open_at(result.cells(), w, w / 2, h / 2));
                } else {
                    assert(holes@[k as int] == holes@.drop_first()[k - 1]);
                    assert(open_at(
                        result.cells(),
                        w,
                        start_tile.0 as int,
                        start_tile.1 as int,
                    ));
                }
            }
            let target = result.find_random_closed_tile(rng);
            let ghost c1 = result.cells();
            result.dig_toward(start_tile, target);
            proof {
                dig_only_opens_inner_tiles(
                    c1,
                    w,
                    h,
                    start_tile.0 as int,
                    start_tile.1 as int,
                    target.0 as int,
                    target.1 as int,
                );
                lemma_carving_kept(c1, result.cells(), w, h, holes@.drop_first());
                lemma_ring_kept(c1, result.cells(), w, h, holes@);
                lemma_opens_only_trans(pre, c1, result.cells());
                lemma_dig_count(
                    c1,
                    w,
                    h,
                    start_tile.0 as int,
                    start_tile.1 as int,
                    target.0 as int,
                    target.1 as int,
                );
                let old_steps = steps;
                let old_states = states;
                steps = steps.push((k as int, target));
                states = states.push(rng.state());
                assert(steps.drop_last() =~= old_steps);
                assert(old_states.last() == st0);
                assert(dug_steps(pre, w, h, holes@, old_steps) == c1);
                assert forall|j: int| 0 <= j < steps.len() implies {
                    let kd = range_usize_draw(states[j], 0, 10);
                    &&& (#[trigger] steps[j]).0 == kd.0 as int
                    &&& (steps[j].1, states[j + 1]) == closed_tile_result(
                        dug_steps(pre, w, h, holes@, steps.take(j)),
                        w,
                        h,
                        kd.1,
                    )
                } by {
                    if j < old_steps.len() {
                        assert(steps.take(j) =~= old_steps.take(j));
                        assert(steps[j] == old_steps[j]);
                        assert(states[j] == old_states[j]);
                        assert(states[j + 1] == old_states[j + 1]);
                    } else {
                        assert(steps.take(j) =~= old_steps);
                        assert(states[j] == st0);
                    }
                }
                assert(holes@[k as int] == start_tile);
                assert forall|j: int| 0 <= j < steps.len() implies {
                    &&& 0 <= (#[trigger] steps[j]).0 < 10
                    &&& steps[j].1.0 < w
                    &&& steps[j].1.1 < h
                    &&& !open_at(
                        dug_steps(pre, w, h, holes@, steps.take(j)),
                        w,
                        steps[j].1.0 as int,
                        steps[j].1.1 as int,
                    )
                    &&& j > 0 ==> !mostly_open(dug_steps(pre, w, h, holes@, steps.take(j)))
                } by {
                    if j < old_steps.len() {
                        assert(steps.take(j) =~= old_steps.take(j));
                        assert(steps[j] == old_steps[j]);
                    } else {
                        assert(steps.take(j) =~= old_steps);
                    }
                }
            }
            done = result.digging_done();
            attempts = attempts + 1;
        }
        proof {
            if !done {
                assert forall|i: int|
                    0 <= i < result.cells().len() && #[trigger] result.cells()[i] implies is_border(
                        i,
                        w,
                    ) || i / w >= 1 by {
                    lemma_split_index(i, w);
                }
            }
        }
        let ghost dug_world = result.cells();
        let ghost s_end = rng.state();
        let ghost mut m: nat = 0;
        let mut fy: usize = 1;
        while fy < height && !done
            invariant
                result.wf(),
                result.spec_width() == w,
                result.spec_height() == h,
                w == width,
                h == height,
                width >= 11,
                height >= 11,
                1 <= fy <= height,
                border_solid(result.cells(), w),
                holes_open(result.cells(), w, h, holes@.drop_first()),
                ring_lines_open(result.cells(), w, h, holes@),
                borehole_open(result.cells(), w, h),
                done == mostly_open(result.cells()),
                opens_only(pre, result.cells()),
                mostly_open(pre) || (count_solid(result.cells()) + 9) * 5 >= 3
                    * result.cells().len(),
                !done ==> forall|i: int|
                    0 <= i < result.cells().len() && #[trigger] result.cells()[i] ==> is_border(i, w)
                        || i / w >= fy,
                result.cells() == inner_blasts(dug_world, w, h, m),
                forall|j: nat| j < m ==> !mostly_open(#[trigger] inner_blasts(dug_world, w, h, j)),
                (m > 0 || !done) ==> steps.len() == u64::MAX,
                !done ==> m == (fy - 1) * (w - 2),
                rng.state() == s_end,
            decreases height - fy,
        {
            let mut fx: usize = 1;
            while fx < width - 1 && !done
                invariant
                    result.wf(),
                    result.spec_width() == w,
                    result.spec_height() == h,
                    w == width,
                    h == height,
                    width >= 11,
                    height >= 11,
                    1 <= fy < height,
                    1 <= fx <= width - 1,
                    border_solid(result.cells(), w),
                    holes_open(result.cells(), w, h, holes@.drop_first()),
                    ring_lines_open(result.cells(), w, h, holes@),
                    borehole_open(result.cells(), w, h),
                    done == mostly_open(result.cells()),
                    opens_only(pre, result.cells()),
                    mostly_open(pre) || (count_solid(result.cells()) + 9) * 5 >= 3
                        * result.cells().len(),
                    !done ==> forall|i: int|
                        0 <= i < result.cells().len() && #[trigger] result.cells()[i] ==> is_border(
                            i,
                            w,
                        ) || i / w > fy || (i / w == fy && i % w >= fx),
                    result.cells() == inner_blasts(dug_world, w, h, m),
                    forall|j: nat| j < m ==> !mostly_open(#[trigger] inner_blasts(dug_world, w, h, j)),
                    (m > 0 || !done) ==> steps.len() == u64::MAX,
                    !done ==> m == (fy - 1) * (w - 2) + (fx - 1),
                    rng.state() == s_end,
                decreases width - 1 - fx,
            {
                let ghost c1 = result.cells();
                proof {
                    lemma_fundamental_div_mod_converse(m as int, w - 2, fy - 1, fx - 1);
                    assert(inner_tile(w, m as int) == (fx as int, fy as int));
                }
                result.clear_tiles(fx, fy);
                proof {
                    let old_m = m;
                    m = m + 1;
                    assert forall|j: nat| j < m implies !mostly_open(
                        #[trigger] inner_blasts(dug_world, w, h, j),
                    ) by {
                        if j == old_m {
                            assert(inner_blasts(dug_world, w, h, j) == c1);
                        }
                    }
                    blast_only_opens_inner_tiles(c1, w, h, fx as int, fy as int);
                    lemma_carving_kept(c1, result.cells(), w, h, holes@.drop_first());
                    lemma_ring_kept(c1, result.cells(), w, h, holes@);
                    lemma_blast_opens(c1, w, h, fx as int, fy as int, fx as int, fy as int);
                    lemma_opens_only_trans(pre, c1, result.cells());
                    lemma_blast_count(c1, w, h, fx as int, fy as int);
                }
                done = result.digging_done();
                proof {
                    if !done {
                        assert forall|i: int|
                            0 <= i < result.cells().len() && #[trigger] result.cells()[i]
                                implies is_border(i, w) || i / w > fy || (i / w == fy && i % w
                                >= fx + 1) by {
                            assert(c1[i]);
                            if i / w == fy && i % w == fx {
                                lemma_split_index(i, w);
                                assert(i == fy * w + fx);
                            }
                        }
                    }
                }
                fx = fx + 1;
            }
            proof {
                if !done {
                    assert forall|i: int|
                        0 <= i < result.cells().len() && #[trigger] result.cells()[i]
                            implies is_border(i, w) || i / w >= fy + 1 by {
                        lemma_split_index(i, w);
                    }
                    assert(m == fy * (w - 2)) by (nonlinear_arith)
                        requires
                            m == (fy - 1) * (w - 2) + (fx - 1),
                            fx == w - 1,
                    ;
                }
            }
            fy = fy + 1;
        }
        proof {
            if !done {
                assert forall|i: int|
                    0 <= i < result.cells().len() && #[trigger] result.cells()[i] implies is_border(
                        i,
                        w,
                    ) by {
                    lemma_split_index(i, w);
                    if i / w >= h {
                        assert((i / w) * w >= h * w) by (nonlinear_arith)
                            requires
                                i / w >= h,
                                w >= 1,
                        ;
                        assert(h * w == w * h) by (nonlinear_arith);
                    }
                }
                lemma_border_only_is_mostly_open(result.cells(), w, h);
            }
            assert(holes_open(result.cells(), w, h, holes@.drop_first()));
            assert(dug_world == dug_steps(
                carved(w, h, holes@.drop_first()),
                w,
                h,
                ring_of(w, h, holes@.drop_first()),
                steps,
            ));
            assert(result.cells() == inner_blasts(dug_world, w, h, m));
            assert(holes@.drop_first() == hole_draws(rng0, w, h, 10).0);
            assert(holes@ == ring_of(w, h, holes@.drop_first()));
            assert(generated_from(result.cells(), w, h, rng0, rng.state(), steps, states, m));
        }
        result
    }
}

/// A tile of the grid lies at an index below `w * h`.
proof fn lemma_tile_in_grid(w: int, h: int, x: int, y: int)
    requires
        0 <= x < w,
        0 <= y < h,
    ensures
        0 <= y * w + x < w * h,
{
    assert(0 <= y * w + x < w * h) by (nonlinear_arith)
        requires
            0 <= x < w,
            0 <= y < h,
    ;
}

/// An index is its row times the width plus its column.
proof fn lemma_split_index(i: int, w: int)
    requires
        0 <= i,
        w > 0,
    ensures
        i == (i / w) * w + i % w,
        0 <= i % w < w,
        0 <= i / w,
{
    vstd::arithmetic::div_mod::lemma_fundamental_div_mod(i, w);
    assert(0 <= i / w) by (nonlinear_arith)
        requires
            0 <= i,
            w > 0,
    ;
    assert((i / w) * w == w * (i / w)) by (nonlinear_arith);
}

} // verus!

//! LINE in its three forms: a line, a box outline and a filled box.

use vstd::prelude::*;
use crate::qb::screen::{
    fill_where, lemma_fill_where_at, lemma_fill_where_ext, lemma_offset, lemma_plot_at, lemma_same_pixels,
    offset, on_screen, plot, Screen,
};

verus! {

/// Whether (x, y) lies in the box with corners (x1, y1) and (x2, y2),
/// taken in either order.
pub open spec fn in_box(x1: int, y1: int, x2: int, y2: int, x: int, y: int) -> bool {
    &&& (x1 <= x <= x2 || x2 <= x <= x1)
    &&& (y1 <= y <= y2 || y2 <= y <= y1)
}

pub open spec fn sign(v: int) -> int {
    if v > 0 {
        1
    } else if v < 0 {
        -1
    } else {
        0
    }
}

pub open spec fn abs(v: int) -> int {
    if v < 0 {
        -v
    } else {
        v
    }
}

/// The longer of the two spans of a line.
pub open spec fn major_span(x1: int, y1: int, x2: int, y2: int) -> int {
    if abs(x2 - x1) >= abs(y2 - y1) {
        abs(x2 - x1)
    } else {
        abs(y2 - y1)
    }
}

/// The k-th pixel of QBasic's line from (x1, y1) to (x2, y2), counting
/// along the longer span. The shorter span follows
/// `minor = sign * ((k * dmin + 3 * dmaj / 4) / dmaj)`, a three quarter
/// bias rather than the textbook Bresenham's one half.
pub open spec fn line_point(x1: int, y1: int, x2: int, y2: int, k: int) -> (int, int) {
    let (dx, dy) = (x2 - x1, y2 - y1);
    let major_is_x = abs(dx) >= abs(dy);
    let dmaj = major_span(x1, y1, x2, y2);
    let dmin = if major_is_x {
        abs(dy)
    } else {
        abs(dx)
    };
    let (smaj, smin) = if major_is_x {
        (sign(dx), sign(dy))
    } else {
        (sign(dy), sign(dx))
    };
    let minor = smin * ((k * dmin + (3 * dmaj) / 4) / dmaj);
    if dmaj == 0 {
        (x1, y1)
    } else if major_is_x {
        (x1 + smaj * k, y1 + minor)
    } else {
        (x1 + minor, y1 + smaj * k)
    }
}

/// Whether the rasterised line from (x1, y1) to (x2, y2) covers (x, y).
pub open spec fn on_line(x1: int, y1: int, x2: int, y2: int, x: int, y: int) -> bool {
    exists|k: int| 0 <= k <= major_span(x1, y1, x2, y2) && line_point(x1, y1, x2, y2, k) == (x, y)
}

/// n / d rounded to the nearest integer, halves away from zero (d > 0).
pub open spec fn round_away(n: int, d: int) -> int {
    if n >= 0 {
        (2 * n + d) / (2 * d)
    } else {
        -((-2 * n + d) / (2 * d))
    }
}

/// n / d rounded to the nearest integer, halves away from zero, for a
/// divisor of either sign.
pub open spec fn round_div(n: int, d: int) -> int {
    if d > 0 {
        round_away(n, d)
    } else {
        round_away(-n, -d)
    }
}

/// Whether x lies left of the screen or right of it.
pub open spec fn off_x(w: int, x: int) -> bool {
    x < 0 || x > w - 1
}

/// Whether y lies above the screen or below it.
pub open spec fn off_y(h: int, y: int) -> bool {
    y < 0 || y > h - 1
}

/// Both ends lie beyond the same edge of the screen, so the line misses it.
pub open spec fn beyond_same_edge(w: int, h: int, x1: int, y1: int, x2: int, y2: int) -> bool {
    ||| x1 < 0 && x2 < 0
    ||| x1 > w - 1 && x2 > w - 1
    ||| y1 < 0 && y2 < 0
    ||| y1 > h - 1 && y2 > h - 1
}

/// One step of QBasic's clip: the end (x1, y1), which is off the screen,
/// moves along the line towards (x2, y2) onto the edge it lies beyond, the
/// left or right edge before the top or bottom one. The coordinate along
/// that edge is rounded to the nearest pixel, halves away from zero.
pub open spec fn clip_move(w: int, h: int, x1: int, y1: int, x2: int, y2: int) -> (int, int) {
    if off_x(w, x1) {
        let xe = if x1 < 0 {
            0
        } else {
            w - 1
        };
        (xe, round_div(y1 * (x2 - x1) + (y2 - y1) * (xe - x1), x2 - x1))
    } else {
        let ye = if y1 < 0 {
            0
        } else {
            h - 1
        };
        (round_div(x1 * (y2 - y1) + (x2 - x1) * (ye - y1), y2 - y1), ye)
    }
}

/// Cohen-Sutherland clipping one edge at a time, with at most `steps`
/// moves left: accept once both ends are on the screen, give up once both
/// lie beyond one edge, and otherwise move the first end that is off the
/// screen, the rounding carrying into the next step.
pub open spec fn clip_walk(steps: nat, w: int, h: int, x1: int, y1: int, x2: int, y2: int) -> Option<
    (int, int, int, int),
>
    decreases steps,
{
    if on_screen(w, h, x1, y1) && on_screen(w, h, x2, y2) {
        Some((x1, y1, x2, y2))
    } else if beyond_same_edge(w, h, x1, y1, x2, y2) || steps == 0 {
        None
    } else if !on_screen(w, h, x1, y1) {
        let (a, b) = clip_move(w, h, x1, y1, x2, y2);
        clip_walk((steps - 1) as nat, w, h, a, b, x2, y2)
    } else {
        let (c, d) = clip_move(w, h, x2, y2, x1, y1);
        clip_walk((steps - 1) as nat, w, h, x1, y1, c, d)
    }
}

/// The line clipped to a `w` by `h` framebuffer before it is rasterised,
/// or `None` when it misses entirely. A line with both ends on the screen
/// is left as it is. Each end needs at most two moves, one to a side and
/// one to the top or bottom, so four moves always settle it.
pub open spec fn clip_spec(w: int, h: int, x1: int, y1: int, x2: int, y2: int) -> Option<
    (int, int, int, int),
> {
    clip_walk(4, w, h, x1, y1, x2, y2)
}

/// The ends of a line in the order QBasic draws them: from the end with
/// the smaller x, whichever order they were given in.
pub open spec fn draw_order(a: int, b: int, c: int, d: int) -> (int, int, int, int) {
    if c < a {
        (c, d, a, b)
    } else {
        (a, b, c, d)
    }
}

/// What LINE draws on a `w` by `h` framebuffer: the clipped line's pixels,
/// rasterised from its end with the smaller x.
pub open spec fn line_hit(
    w: int,
    h: int,
    x1: int,
    y1: int,
    x2: int,
    y2: int,
) -> spec_fn(int, int) -> bool {
    |x: int, y: int|
        match clip_spec(w, h, x1, y1, x2, y2) {
            None => false,
            Some((a, b, c, d)) => {
                let (p, q, r, s) = draw_order(a, b, c, d);
                on_line(p, q, r, s, x, y)
            },
        }
}

/// The framebuffer after LINE (x1, y1)-(x2, y2), c.
pub open spec fn line_spec(
    pixels: Seq<u8>,
    w: int,
    h: int,
    x1: int,
    y1: int,
    x2: int,
    y2: int,
    c: u8,
) -> Seq<u8> {
    fill_where(pixels, w, line_hit(w, h, x1, y1, x2, y2), c)
}

/// The framebuffer after LINE (x1, y1)-(x2, y2), c, BF.
pub open spec fn box_fill_spec(
    pixels: Seq<u8>,
    w: int,
    x1: int,
    y1: int,
    x2: int,
    y2: int,
    c: u8,
) -> Seq<u8> {
    fill_where(pixels, w, |x: int, y: int| in_box(x1, y1, x2, y2, x, y), c)
}

/// The framebuffer after LINE (x1, y1)-(x2, y2), c, B: the four sides,
/// drawn in the order the QBasic statement draws them.
pub open spec fn box_spec(
    pixels: Seq<u8>,
    w: int,
    h: int,
    x1: int,
    y1: int,
    x2: int,
    y2: int,
    c: u8,
) -> Seq<u8> {
    let a = line_spec(pixels, w, h, x1, y1, x2, y1, c);
    let b = line_spec(a, w, h, x2, y1, x2, y2, c);
    let d = line_spec(b, w, h, x2, y2, x1, y2, c);
    line_spec(d, w, h, x1, y2, x1, y1, c)
}

fn min_i32(a: i32, b: i32) -> (m: i32)
    ensures
        m == if a <= b {
            a
        } else {
            b
        },
{
    if a <= b {
        a
    } else {
        b
    }
}

fn max_i32(a: i32, b: i32) -> (m: i32)
    ensures
        m == if a >= b {
            a
        } else {
            b
        },
{
    if a >= b {
        a
    } else {
        b
    }
}

impl Screen {
    /// LINE (x1,y1)-(x2,y2), c, BF: the box with those corners, filled,
    /// clipped to the screen.
    pub fn line_fill(&mut self, x1: i32, y1: i32, x2: i32, y2: i32, c: u8)
        requires
            old(self).wf(),
        ensures
            final(self).wf(),
            final(self).width == old(self).width,
            final(self).height == old(self).height,
            final(self).regs == old(self).regs,
            final(self).pixels@ == box_fill_spec(
                old(self).pixels@,
                old(self).width as int,
                x1 as int,
                y1 as int,
                x2 as int,
                y2 as int,
                c,
            ),
    {
        let ghost old_pixels = self.pixels@;
        let ghost w = self.width as int;
        let ghost h = self.height as int;
        let ghost hit = |x: int, y: int| in_box(x1 as int, y1 as int, x2 as int, y2 as int, x, y);
        let lo_x: i32 = min_i32(x1, x2);
        let hi_x: i32 = max_i32(x1, x2);
        let lo_y: i32 = min_i32(y1, y2);
        let hi_y: i32 = max_i32(y1, y2);
        let x_start: i32 = max_i32(lo_x, 0);
        let x_end: i32 = min_i32(hi_x, self.width - 1);
        let y_start: i32 = max_i32(lo_y, 0);
        let y_end: i32 = min_i32(hi_y, self.height - 1);
        let mut y: i32 = y_start;
        while y <= y_end
            invariant
                self.wf(),
                self.width == w,
                self.height == h,
                self.regs == old(self).regs,
                old_pixels == old(self).pixels@,
                old_pixels.len() == w * h,
                0 <= y_start <= y,
                y_end < h,
                y <= y_end + 1 || y == y_start,
                x_start >= 0,
                x_end < w,
                lo_x <= hi_x,
                lo_y <= hi_y,
                x_start as int == if lo_x >= 0 { lo_x as int } else { 0 },
                x_end as int == if hi_x as int <= w - 1 { hi_x as int } else { w - 1 },
                y_start as int == if lo_y >= 0 { lo_y as int } else { 0 },
                y_end as int == if hi_y as int <= h - 1 { hi_y as int } else { h - 1 },
                lo_x as int == if x1 <= x2 { x1 as int } else { x2 as int },
                hi_x as int == if x1 >= x2 { x1 as int } else { x2 as int },
                lo_y as int == if y1 <= y2 { y1 as int } else { y2 as int },
                hi_y as int == if y1 >= y2 { y1 as int } else { y2 as int },
                forall|px: int, py: int|
                    on_screen(w, h, px, py) ==> #[trigger] self.pixels@[offset(w, px, py)] == if in_box(
                        x1 as int,
                        y1 as int,
                        x2 as int,
                        y2 as int,
                        px,
                        py,
                    ) && py < y {
                        c
                    } else {
                        old_pixels[offset(w, px, py)]
                    },
            decreases y_end + 1 - y,
        {
            let mut x: i32 = x_start;
            while x <= x_end
                invariant
                    self.wf(),
                    self.width == w,
                    self.height == h,
                    self.regs == old(self).regs,
                    old_pixels.len() == w * h,
                    0 <= y_start <= y <= y_end,
                    y_end < h,
                    x_start >= 0,
                    x_start <= x,
                    x <= x_end + 1 || x == x_start,
                    x_end < w,
                    x_start as int == if lo_x >= 0 { lo_x as int } else { 0 },
                    x_end as int == if hi_x as int <= w - 1 { hi_x as int } else { w - 1 },
                    y_start as int == if lo_y >= 0 { lo_y as int } else { 0 },
                    y_end as int == if hi_y as int <= h - 1 { hi_y as int } else { h - 1 },
                    lo_x as int == if x1 <= x2 { x1 as int } else { x2 as int },
                    hi_x as int == if x1 >= x2 { x1 as int } else { x2 as int },
                    lo_y as int == if y1 <= y2 { y1 as int } else { y2 as int },
                    hi_y as int == if y1 >= y2 { y1 as int } else { y2 as int },
                    forall|px: int, py: int|
                        on_screen(w, h, px, py) ==> #[trigger] self.pixels@[offset(w, px, py)]
                            == if in_box(x1 as int, y1 as int, x2 as int, y2 as int, px, py) && (py < y || (
                            py == y && px < x)) {
                            c
                        } else {
                            old_pixels[offset(w, px, py)]
                        },
                decreases x_end + 1 - x,
            {
                let ghost before = self.pixels@;
                proof {
                    lemma_offset(w, h, x as int, y as int);
                    lemma_plot_at(before, w, h, x as int, y as int, c);
                }
                let i: i32 = y * self.width + x;
                self.pixels[i as usize] = c;
                assert(self.pixels@ == plot(before, w, h, x as int, y as int, c));
                x = x + 1;
            }
            y = y + 1;
        }
        assert forall|px: int, py: int| on_screen(w, h, px, py) implies #[trigger] self.pixels@[offset(
            w,
            px,
            py,
        )] == if hit(px, py) {
            c
        } else {
            old_pixels[offset(w, px, py)]
        } by {}
        proof {
            lemma_fill_where_ext(self.pixels@, old_pixels, w, h, hit, c);
        }
    }
}


/// Rounding a value between two integers stays between them.
proof fn lemma_round_away_between(n: int, d: int, lo: int, hi: int)
    requires
        0 < d,
        lo * d <= n <= hi * d,
    ensures
        lo <= round_away(n, d) <= hi,
{
    if n >= 0 {
        assert(lo <= (2 * n + d) / (2 * d) <= hi) by (nonlinear_arith)
            requires
                0 < d,
                lo * d <= n <= hi * d,
                n >= 0,
        {
            vstd::arithmetic::div_mod::lemma_fundamental_div_mod(2 * n + d, 2 * d);
            vstd::arithmetic::div_mod::lemma_mod_pos_bound(2 * n + d, 2 * d);
        }
    } else {
        assert(-hi <= (-2 * n + d) / (2 * d) <= -lo) by (nonlinear_arith)
            requires
                0 < d,
                lo * d <= n <= hi * d,
                n < 0,
        {
            vstd::arithmetic::div_mod::lemma_fundamental_div_mod(-2 * n + d, 2 * d);
            vstd::arithmetic::div_mod::lemma_mod_pos_bound(-2 * n + d, 2 * d);
        }
    }
}

/// The point at parameter tn / td of a line lies between its endpoints.
proof fn lemma_param_between(a1: int, a2: int, tn: int, td: int)
    requires
        0 < td,
        0 <= tn <= td,
    ensures
        (if a1 <= a2 { a1 } else { a2 }) * td <= a1 * td + tn * (a2 - a1) <= (if a1 >= a2 {
            a1
        } else {
            a2
        }) * td,
{
    assert((if a1 <= a2 { a1 } else { a2 }) * td <= a1 * td + tn * (a2 - a1) <= (if a1 >= a2 {
        a1
    } else {
        a2
    }) * td) by (nonlinear_arith)
        requires
            0 < td,
            0 <= tn <= td,
    ;
}

/// A point moved onto an edge lies, on the other axis, between the two
/// ends it was moved between.
proof fn lemma_move_between(a1: int, a2: int, b1: int, b2: int, e: int)
    requires
        b1 != b2,
        b1 <= e <= b2 || b2 <= e <= b1,
    ensures
        (if a1 <= a2 { a1 } else { a2 }) <= round_div(a1 * (b2 - b1) + (a2 - a1) * (e - b1), b2 - b1)
            <= (if a1 >= a2 { a1 } else { a2 }),
{
    let d = b2 - b1;
    let lo = if a1 <= a2 { a1 } else { a2 };
    let hi = if a1 >= a2 { a1 } else { a2 };
    let n = a1 * d + (a2 - a1) * (e - b1);
    if d > 0 {
        let tn = e - b1;
        assert((a2 - a1) * (e - b1) == tn * (a2 - a1)) by (nonlinear_arith)
            requires
                tn == e - b1,
        ;
        lemma_param_between(a1, a2, tn, d);
        lemma_round_away_between(n, d, lo, hi);
    } else {
        let tn = b1 - e;
        assert(-n == a1 * (-d) + tn * (a2 - a1)) by (nonlinear_arith)
            requires
                tn == b1 - e,
                n == a1 * d + (a2 - a1) * (e - b1),
        ;
        lemma_param_between(a1, a2, tn, -d);
        lemma_round_away_between(-n, -d, lo, hi);
    }
}

fn round_div_exec(n: i128, d: i128) -> (r: i128)
    requires
        d != 0,
        -0x1_0000_0000_0000 <= d <= 0x1_0000_0000_0000,
        -0x1_0000_0000_0000_0000_0000_0000 <= n <= 0x1_0000_0000_0000_0000_0000_0000,
    ensures
        r == round_div(n as int, d as int),
{
    let (nn, dd): (i128, i128) = if d > 0 {
        (n, d)
    } else {
        (-n, -d)
    };
    if nn >= 0 {
        (2 * nn + dd) / (2 * dd)
    } else {
        let m: i128 = dd - 2 * nn;
        proof {
            vstd::arithmetic::div_mod::lemma_div_is_ordered_by_denominator(m as int, 1, 2 * dd as int);
            vstd::arithmetic::div_mod::lemma_div_pos_is_pos(m as int, 2 * dd as int);
        }
        -(m / (2 * dd))
    }
}

/// One clipping step, computed: `clip_move` on 32-bit coordinates.
fn clip_move_exec(w: i32, h: i32, x1: i32, y1: i32, x2: i32, y2: i32) -> (r: (i32, i32))
    requires
        0 <= w,
        0 <= h,
        !on_screen(w as int, h as int, x1 as int, y1 as int),
        !beyond_same_edge(w as int, h as int, x1 as int, y1 as int, x2 as int, y2 as int),
    ensures
        (r.0 as int, r.1 as int) == clip_move(w as int, h as int, x1 as int, y1 as int, x2 as int, y2 as int),
{
    if x1 < 0 || x1 > w - 1 {
        let xe: i32 = if x1 < 0 {
            0
        } else {
            w - 1
        };
        let d: i128 = x2 as i128 - x1 as i128;
        proof {
            lemma_move_between(y1 as int, y2 as int, x1 as int, x2 as int, xe as int);
            assert(-0x8000_0000 * 0x1_0000_0000 <= y1 * d <= 0x8000_0000 * 0x1_0000_0000)
                by (nonlinear_arith)
                requires
                    i32::MIN <= y1 <= i32::MAX,
                    -0x1_0000_0000 <= d <= 0x1_0000_0000,
            ;
            assert(-0x1_0000_0000 * 0x1_0000_0000 <= (y2 - y1) * (xe - x1) <= 0x1_0000_0000
                * 0x1_0000_0000) by (nonlinear_arith)
                requires
                    -0x1_0000_0000 <= y2 - y1 <= 0x1_0000_0000,
                    -0x1_0000_0000 <= xe - x1 <= 0x1_0000_0000,
            ;
        }
        let n: i128 = y1 as i128 * d + (y2 as i128 - y1 as i128) * (xe as i128 - x1 as i128);
        let y: i128 = round_div_exec(n, d);
        (xe, y as i32)
    } else {
        let ye: i32 = if y1 < 0 {
            0
        } else {
            h - 1
        };
        let d: i128 = y2 as i128 - y1 as i128;
        proof {
            lemma_move_between(x1 as int, x2 as int, y1 as int, y2 as int, ye as int);
            assert(-0x8000_0000 * 0x1_0000_0000 <= x1 * d <= 0x8000_0000 * 0x1_0000_0000)
                by (nonlinear_arith)
                requires
                    i32::MIN <= x1 <= i32::MAX,
                    -0x1_0000_0000 <= d <= 0x1_0000_0000,
            ;
            assert(-0x1_0000_0000 * 0x1_0000_0000 <= (x2 - x1) * (ye - y1) <= 0x1_0000_0000
                * 0x1_0000_0000) by (nonlinear_arith)
                requires
                    -0x1_0000_0000 <= x2 - x1 <= 0x1_0000_0000,
                    -0x1_0000_0000 <= ye - y1 <= 0x1_0000_0000,
            ;
        }
        let n: i128 = x1 as i128 * d + (x2 as i128 - x1 as i128) * (ye as i128 - y1 as i128);
        let x: i128 = round_div_exec(n, d);
        (x as i32, ye)
    }
}

impl Screen {
    /// Clip a line to the framebuffer the way QBasic does, one edge at a
    /// time with each intermediate end rounded to a pixel, and return None
    /// when it misses entirely.
    ///
    /// QBasic clips before it rasterises. The difference is visible: it
    /// draws `LINE (-50, 330)-(700, 340)` as the rasterisation of
    /// (0, 331)-(639, 339), which is not the same set of pixels as the on
    /// screen part of the unclipped line.
    fn clip(&self, x1: i32, y1: i32, x2: i32, y2: i32) -> (r: Option<(i32, i32, i32, i32)>)
        requires
            self.wf(),
        ensures
            match r {
                None => clip_spec(
                    self.width as int,
                    self.height as int,
                    x1 as int,
                    y1 as int,
                    x2 as int,
                    y2 as int,
                ) is None,
                Some((a, b, c, d)) => clip_spec(
                    self.width as int,
                    self.height as int,
                    x1 as int,
                    y1 as int,
                    x2 as int,
                    y2 as int,
                ) == Some((a as int, b as int, c as int, d as int)),
            },
    {
        let w: i32 = self.width;
        let h: i32 = self.height;
        let mut ax: i32 = x1;
        let mut ay: i32 = y1;
        let mut bx: i32 = x2;
        let mut by: i32 = y2;
        let mut steps: u32 = 4;
        loop
            invariant
                self.wf(),
                w == self.width,
                h == self.height,
                steps <= 4,
                clip_walk(steps as nat, w as int, h as int, ax as int, ay as int, bx as int, by as int)
                    == clip_spec(w as int, h as int, x1 as int, y1 as int, x2 as int, y2 as int),
            decreases steps,
        {
            let a_on: bool = self.in_bounds(ax, ay);
            if a_on && self.in_bounds(bx, by) {
                return Some((ax, ay, bx, by));
            }
            let beyond: bool = (ax < 0 && bx < 0) || (ax > w - 1 && bx > w - 1) || (ay < 0 && by < 0)
                || (ay > h - 1 && by > h - 1);
            if beyond || steps == 0 {
                return None;
            }
            if !a_on {
                let (nx, ny) = clip_move_exec(w, h, ax, ay, bx, by);
                ax = nx;
                ay = ny;
            } else {
                let (nx, ny) = clip_move_exec(w, h, bx, by, ax, ay);
                bx = nx;
                by = ny;
            }
            steps = steps - 1;
        }
    }
}


/// How far an end is from the screen, in clipping moves: two beyond a side,
/// one only above or below, none on the screen.
pub open spec fn clip_cost(w: int, h: int, x: int, y: int) -> nat {
    if off_x(w, x) {
        2
    } else if off_y(h, y) {
        1
    } else {
        0
    }
}

/// The clip has nothing left to do: both ends are on the screen, or both
/// lie beyond one edge.
pub open spec fn clip_done(w: int, h: int, x1: int, y1: int, x2: int, y2: int) -> bool {
    (on_screen(w, h, x1, y1) && on_screen(w, h, x2, y2)) || beyond_same_edge(w, h, x1, y1, x2, y2)
}

/// The ends after one clipping move.
pub open spec fn clip_next(w: int, h: int, x1: int, y1: int, x2: int, y2: int) -> (int, int, int, int) {
    if !on_screen(w, h, x1, y1) {
        let (a, b) = clip_move(w, h, x1, y1, x2, y2);
        (a, b, x2, y2)
    } else {
        let (c, d) = clip_move(w, h, x2, y2, x1, y1);
        (x1, y1, c, d)
    }
}

/// Each move either finishes the clip or brings the ends closer to the
/// screen.
proof fn lemma_clip_progress(w: int, h: int, x1: int, y1: int, x2: int, y2: int)
    requires
        0 <= w,
        0 <= h,
        !clip_done(w, h, x1, y1, x2, y2),
    ensures
        ({
            let (a, b, c, d) = clip_next(w, h, x1, y1, x2, y2);
            clip_done(w, h, a, b, c, d) || clip_cost(w, h, a, b) + clip_cost(w, h, c, d) < clip_cost(
                w,
                h,
                x1,
                y1,
            ) + clip_cost(w, h, x2, y2)
        }),
{
    if !on_screen(w, h, x1, y1) {
        if off_x(w, x1) {
            let xe = if x1 < 0 { 0 } else { w - 1 };
            lemma_move_between(y1, y2, x1, x2, xe);
        } else {
            let ye = if y1 < 0 { 0 } else { h - 1 };
            lemma_move_between(x1, x2, y1, y2, ye);
        }
    } else {
        if off_x(w, x2) {
            let xe = if x2 < 0 { 0 } else { w - 1 };
            lemma_move_between(y2, y1, x2, x1, xe);
        } else {
            let ye = if y2 < 0 { 0 } else { h - 1 };
            lemma_move_between(x2, x1, y2, y1, ye);
        }
    }
}

/// Once the ends are no further from the screen than `n` and `m` moves
/// allow, both budgets give the same clip.
proof fn lemma_clip_budget(n: nat, m: nat, w: int, h: int, x1: int, y1: int, x2: int, y2: int)
    requires
        0 <= w,
        0 <= h,
        clip_cost(w, h, x1, y1) + clip_cost(w, h, x2, y2) <= n,
        clip_cost(w, h, x1, y1) + clip_cost(w, h, x2, y2) <= m,
    ensures
        clip_walk(n, w, h, x1, y1, x2, y2) == clip_walk(m, w, h, x1, y1, x2, y2),
    decreases clip_cost(w, h, x1, y1) + clip_cost(w, h, x2, y2),
{
    if !clip_done(w, h, x1, y1, x2, y2) {
        lemma_clip_progress(w, h, x1, y1, x2, y2);
        let (a, b, c, d) = clip_next(w, h, x1, y1, x2, y2);
        if clip_done(w, h, a, b, c, d) {
            assert(clip_walk((n - 1) as nat, w, h, a, b, c, d) == clip_walk((m - 1) as nat, w, h, a, b, c, d));
        } else {
            lemma_clip_budget((n - 1) as nat, (m - 1) as nat, w, h, a, b, c, d);
        }
    }
}

/// Four moves always settle the clip: any larger budget gives the same
/// result, so the clip is QBasic's edge by edge clip run to its end.
pub proof fn law_four_moves_settle_the_clip(
    n: nat,
    w: int,
    h: int,
    x1: int,
    y1: int,
    x2: int,
    y2: int,
)
    requires
        0 <= w,
        0 <= h,
        4 <= n,
    ensures
        clip_walk(n, w, h, x1, y1, x2, y2) == clip_spec(w, h, x1, y1, x2, y2),
{
    lemma_clip_budget(n, 4, w, h, x1, y1, x2, y2);
}

/// Some step before the k-th of the line lands on (x, y).
pub open spec fn hit_before(x1: int, y1: int, x2: int, y2: int, k: int, x: int, y: int) -> bool {
    exists|j: int| 0 <= j < k && #[trigger] line_point(x1, y1, x2, y2, j) == (x, y)
}

/// The minor coordinate never passes the far end of the line.
proof fn lemma_minor_bound(k: int, dmin: int, dmaj: int)
    requires
        0 < dmaj,
        0 <= dmin <= dmaj,
        0 <= k <= dmaj,
    ensures
        0 <= (k * dmin + (3 * dmaj) / 4) / dmaj <= dmin,
        0 <= k * dmin + (3 * dmaj) / 4 <= dmaj * dmaj + dmaj,
{
    let bias = (3 * dmaj) / 4;
    assert(0 <= bias < dmaj);
    assert(0 <= k * dmin <= dmaj * dmin) by (nonlinear_arith)
        requires
            0 <= k <= dmaj,
            0 <= dmin,
    ;
    assert(dmaj * dmin <= dmaj * dmaj) by (nonlinear_arith)
        requires
            0 <= dmin <= dmaj,
            0 < dmaj,
    ;
    assert(k * dmin + bias < dmaj * (dmin + 1)) by (nonlinear_arith)
        requires
            k * dmin <= dmaj * dmin,
            bias < dmaj,
    ;
    vstd::arithmetic::div_mod::lemma_div_pos_is_pos(k * dmin + bias, dmaj);
    if (k * dmin + bias) / dmaj > dmin {
        vstd::arithmetic::div_mod::lemma_fundamental_div_mod(k * dmin + bias, dmaj);
        vstd::arithmetic::div_mod::lemma_mod_pos_bound(k * dmin + bias, dmaj);
        assert(dmaj * ((k * dmin + bias) / dmaj) >= dmaj * (dmin + 1)) by (nonlinear_arith)
            requires
                (k * dmin + bias) / dmaj >= dmin + 1,
                0 < dmaj,
        ;
    }
}

/// The k-th pixel of the line, computed.
fn line_point_exec(x1: i32, y1: i32, x2: i32, y2: i32, k: i64) -> (r: (i32, i32))
    requires
        0 <= k <= major_span(x1 as int, y1 as int, x2 as int, y2 as int),
    ensures
        (r.0 as int, r.1 as int) == line_point(x1 as int, y1 as int, x2 as int, y2 as int, k as int),
{
    let dx: i64 = x2 as i64 - x1 as i64;
    let dy: i64 = y2 as i64 - y1 as i64;
    let adx: i64 = if dx < 0 { -dx } else { dx };
    let ady: i64 = if dy < 0 { -dy } else { dy };
    let major_is_x: bool = adx >= ady;
    let dmaj: i64 = if major_is_x { adx } else { ady };
    let dmin: i64 = if major_is_x { ady } else { adx };
    if dmaj == 0 {
        return (x1, y1);
    }
    proof {
        lemma_minor_bound(k as int, dmin as int, dmaj as int);
        assert(dmaj * dmaj + dmaj <= 0x1_0000_0000 * 0x1_0000_0000 + 0x1_0000_0000)
            by (nonlinear_arith)
            requires
                0 <= dmaj <= 0x1_0000_0000,
        ;
    }
    let bias: i64 = 3 * dmaj / 4;
    let q: i128 = (k as i128 * dmin as i128 + bias as i128) / dmaj as i128;
    let q64: i64 = q as i64;
    proof {
        let qq: int = (k as int * dmin as int + (3 * dmaj as int) / 4) / dmaj as int;
        assert(q == qq);
        let sdx = sign(dx as int);
        let sdy = sign(dy as int);
        let kk = k as int;
        assert(sdx * kk == if dx > 0 { kk } else if dx < 0 { -kk } else { 0 }
            && sdx * qq == if dx > 0 { qq } else if dx < 0 { -qq } else { 0 }) by (nonlinear_arith)
            requires
                sdx == if dx > 0 { 1int } else if dx < 0 { -1int } else { 0int },
        ;
        assert(sdy * kk == if dy > 0 { kk } else if dy < 0 { -kk } else { 0 }
            && sdy * qq == if dy > 0 { qq } else if dy < 0 { -qq } else { 0 }) by (nonlinear_arith)
            requires
                sdy == if dy > 0 { 1int } else if dy < 0 { -1int } else { 0int },
        ;
    }
    // Along the longer span the line moves one pixel per step, along the
    // shorter one it moves q pixels in all, each in the direction of travel.
    let (major_pos, minor_pos): (i64, i64) = if major_is_x {
        (
            if dx > 0 { x1 as i64 + k } else if dx < 0 { x1 as i64 - k } else { x1 as i64 },
            if dy > 0 { y1 as i64 + q64 } else if dy < 0 { y1 as i64 - q64 } else { y1 as i64 },
        )
    } else {
        (
            if dy > 0 { y1 as i64 + k } else if dy < 0 { y1 as i64 - k } else { y1 as i64 },
            if dx > 0 { x1 as i64 + q64 } else if dx < 0 { x1 as i64 - q64 } else { x1 as i64 },
        )
    };
    if major_is_x {
        (major_pos as i32, minor_pos as i32)
    } else {
        (minor_pos as i32, major_pos as i32)
    }
}

impl Screen {
    /// Rasterise the line from (x1, y1) to (x2, y2), without clipping.
    fn raster(&mut self, x1: i32, y1: i32, x2: i32, y2: i32, c: u8)
        requires
            old(self).wf(),
        ensures
            final(self).wf(),
            final(self).width == old(self).width,
            final(self).height == old(self).height,
            final(self).regs == old(self).regs,
            final(self).pixels@ == fill_where(
                old(self).pixels@,
                old(self).width as int,
                |x: int, y: int| on_line(x1 as int, y1 as int, x2 as int, y2 as int, x, y),
                c,
            ),
    {
        let ghost w = self.width as int;
        let ghost h = self.height as int;
        let ghost old_pixels = self.pixels@;
        let ghost gx1 = x1 as int;
        let ghost gy1 = y1 as int;
        let ghost gx2 = x2 as int;
        let ghost gy2 = y2 as int;
        let dx: i64 = x2 as i64 - x1 as i64;
        let dy: i64 = y2 as i64 - y1 as i64;
        let adx: i64 = if dx < 0 { -dx } else { dx };
        let ady: i64 = if dy < 0 { -dy } else { dy };
        let dmaj: i64 = if adx >= ady { adx } else { ady };
        assert(dmaj == major_span(gx1, gy1, gx2, gy2));
        let mut k: i64 = 0;
        while k <= dmaj
            invariant
                self.wf(),
                self.width == w,
                self.height == h,
                self.regs == old(self).regs,
                old_pixels.len() == w * h,
                gx1 == x1,
                gy1 == y1,
                gx2 == x2,
                gy2 == y2,
                0 <= k <= dmaj + 1,
                dmaj == major_span(gx1, gy1, gx2, gy2),
                dmaj <= 0x1_0000_0000,
                forall|px: int, py: int|
                    on_screen(w, h, px, py) ==> #[trigger] self.pixels@[offset(w, px, py)] == if hit_before(
                        gx1,
                        gy1,
                        gx2,
                        gy2,
                        k as int,
                        px,
                        py,
                    ) {
                        c
                    } else {
                        old_pixels[offset(w, px, py)]
                    },
            decreases dmaj + 1 - k,
        {
            let ghost p = line_point(gx1, gy1, gx2, gy2, k as int);
            let (px, py) = line_point_exec(x1, y1, x2, y2, k);
            let ghost before = self.pixels@;
            proof {
                lemma_plot_at(before, w, h, px as int, py as int, c);
            }
            self.pset(px, py, c);
            assert forall|qx: int, qy: int| on_screen(w, h, qx, qy) implies #[trigger] self.pixels@[offset(
                w,
                qx,
                qy,
            )] == if hit_before(gx1, gy1, gx2, gy2, k + 1, qx, qy) {
                c
            } else {
                old_pixels[offset(w, qx, qy)]
            } by {
                if qx == px && qy == py {
                    assert(line_point(gx1, gy1, gx2, gy2, k as int) == (qx, qy));
                } else if hit_before(gx1, gy1, gx2, gy2, k + 1, qx, qy) {
                    let j = choose|j: int|
                        0 <= j < k + 1 && #[trigger] line_point(gx1, gy1, gx2, gy2, j) == (qx, qy);
                    assert(j != k);
                    assert(hit_before(gx1, gy1, gx2, gy2, k as int, qx, qy));
                }
            }
            k = k + 1;
        }
        let ghost hit = |x: int, y: int| on_line(gx1, gy1, gx2, gy2, x, y);
        assert forall|qx: int, qy: int| on_screen(w, h, qx, qy) implies #[trigger] self.pixels@[offset(
            w,
            qx,
            qy,
        )] == if hit(qx, qy) {
            c
        } else {
            old_pixels[offset(w, qx, qy)]
        } by {
            if hit_before(gx1, gy1, gx2, gy2, k as int, qx, qy) {
                let j = choose|j: int|
                    0 <= j < k && #[trigger] line_point(gx1, gy1, gx2, gy2, j) == (qx, qy);
                assert(0 <= j <= major_span(gx1, gy1, gx2, gy2));
            }
            if on_line(gx1, gy1, gx2, gy2, qx, qy) {
                let j = choose|j: int|
                    0 <= j <= major_span(gx1, gy1, gx2, gy2) && line_point(gx1, gy1, gx2, gy2, j)
                        == (qx, qy);
                assert(0 <= j < k && line_point(gx1, gy1, gx2, gy2, j) == (qx, qy));
            }
        }
        proof {
            lemma_fill_where_ext(self.pixels@, old_pixels, w, h, hit, c);
        }
    }

    /// LINE (x1,y1)-(x2,y2), c
    ///
    /// QBasic is NOT the textbook Bresenham: the minor axis follows
    /// `minor = m0 + sign * ((k * dmin + 3 * dmaj / 4) / dmaj)` in integer
    /// arithmetic, where dmaj is the longer span and k counts along it. And
    /// it clips to the screen BEFORE rasterising, so an off screen line is
    /// not simply the on screen part of the whole line. The clipped line is
    /// drawn from its end with the smaller x, whichever order the ends
    /// come in.
    pub fn line(&mut self, x1: i32, y1: i32, x2: i32, y2: i32, c: u8)
        requires
            old(self).wf(),
        ensures
            final(self).wf(),
            final(self).width == old(self).width,
            final(self).height == old(self).height,
            final(self).regs == old(self).regs,
            final(self).pixels@ == line_spec(
                old(self).pixels@,
                old(self).width as int,
                old(self).height as int,
                x1 as int,
                y1 as int,
                x2 as int,
                y2 as int,
                c,
            ),
    {
        let ghost w = self.width as int;
        let ghost h = self.height as int;
        let ghost old_pixels = self.pixels@;
        let ghost hit = line_hit(w, h, x1 as int, y1 as int, x2 as int, y2 as int);
        match self.clip(x1, y1, x2, y2) {
            None => {
                assert(old_pixels =~= fill_where(old_pixels, w, hit, c));
            },
            Some((a, b, cx, d)) => {
                // Drawn from the end with the smaller x.
                let (p, q, r, s) = if cx < a {
                    (cx, d, a, b)
                } else {
                    (a, b, cx, d)
                };
                self.raster(p, q, r, s, c);
                assert(fill_where(
                    old_pixels,
                    w,
                    |x: int, y: int| on_line(p as int, q as int, r as int, s as int, x, y),
                    c,
                ) =~= fill_where(old_pixels, w, hit, c));
            },
        }
    }
}


impl Screen {
    /// LINE (x1,y1)-(x2,y2), c, B: the outline of the box with those
    /// corners, as four lines.
    pub fn line_box(&mut self, x1: i32, y1: i32, x2: i32, y2: i32, c: u8)
        requires
            old(self).wf(),
        ensures
            final(self).wf(),
            final(self).width == old(self).width,
            final(self).height == old(self).height,
            final(self).regs == old(self).regs,
            final(self).pixels@ == box_spec(
                old(self).pixels@,
                old(self).width as int,
                old(self).height as int,
                x1 as int,
                y1 as int,
                x2 as int,
                y2 as int,
                c,
            ),
    {
        self.line(x1, y1, x2, y1, c);
        self.line(x2, y1, x2, y2, c);
        self.line(x2, y2, x1, y2, c);
        self.line(x1, y2, x1, y1, c);
    }
}

/// The rasterised line starts at its first end and stops at its last.
proof fn lemma_line_ends(x1: int, y1: int, x2: int, y2: int)
    ensures
        on_line(x1, y1, x2, y2, x1, y1),
        on_line(x1, y1, x2, y2, x2, y2),
{
    let dmaj = major_span(x1, y1, x2, y2);
    assert(line_point(x1, y1, x2, y2, 0) == (x1, y1)) by {
        if dmaj > 0 {
            let b = (3 * dmaj) / 4;
            let dmin = if abs(x2 - x1) >= abs(y2 - y1) {
                abs(y2 - y1)
            } else {
                abs(x2 - x1)
            };
            assert(0 * dmin == 0);
            vstd::arithmetic::div_mod::lemma_basic_div(b, dmaj);
            assert((0 * dmin + b) / dmaj == 0);
            assert(sign(x2 - x1) * 0 == 0 && sign(y2 - y1) * 0 == 0);
        }
    }
    assert(line_point(x1, y1, x2, y2, dmaj) == (x2, y2)) by {
        if dmaj > 0 {
            let dmin = if abs(x2 - x1) >= abs(y2 - y1) {
                abs(y2 - y1)
            } else {
                abs(x2 - x1)
            };
            let b = (3 * dmaj) / 4;
            assert(dmaj * dmin == dmin * dmaj) by (nonlinear_arith);
            vstd::arithmetic::div_mod::lemma_fundamental_div_mod_converse(
                dmin * dmaj + b,
                dmaj,
                dmin,
                b,
            );
            assert(sign(x2 - x1) * abs(x2 - x1) == x2 - x1);
            assert(sign(y2 - y1) * abs(y2 - y1) == y2 - y1);
        }
    }
}

/// A line on the screen covers both of its endpoints.
pub proof fn law_line_covers_its_endpoints(w: int, h: int, x1: int, y1: int, x2: int, y2: int)
    requires
        on_screen(w, h, x1, y1),
        on_screen(w, h, x2, y2),
    ensures
        line_hit(w, h, x1, y1, x2, y2)(x1, y1),
        line_hit(w, h, x1, y1, x2, y2)(x2, y2),
{
    assert(clip_spec(w, h, x1, y1, x2, y2) == Some((x1, y1, x2, y2)));
    let (p, q, r, t) = draw_order(x1, y1, x2, y2);
    lemma_line_ends(p, q, r, t);
}

/// A line that starts and ends on the same on-screen pixel is that pixel.
pub proof fn law_single_point_line(
    pixels: Seq<u8>,
    w: int,
    h: int,
    x: int,
    y: int,
    c: u8,
)
    requires
        pixels.len() == w * h,
        on_screen(w, h, x, y),
    ensures
        line_spec(pixels, w, h, x, y, x, y, c) == plot(pixels, w, h, x, y, c),
{
    let l = line_spec(pixels, w, h, x, y, x, y, c);
    let p = plot(pixels, w, h, x, y, c);
    lemma_plot_at(pixels, w, h, x, y, c);
    assert forall|px: int, py: int| on_screen(w, h, px, py) implies #[trigger] l[offset(w, px, py)]
        == p[offset(w, px, py)] by {
        lemma_fill_where_at(pixels, w, h, line_hit(w, h, x, y, x, y), c, px, py);
        if px == x && py == y {
            assert(line_point(x, y, x, y, 0) == (px, py));
        }
    }
    lemma_same_pixels(l, p, w, h);
}

} // verus!

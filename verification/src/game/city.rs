//! The skyline, the wind, and where the gorillas stand.

use vstd::prelude::*;
use crate::game::rng::{fn_ran_spec, lemma_fn_ran_range, scramble, xorshift};
use crate::game::{Game, GHEIGHT, SCR_HEIGHT, SCR_WIDTH, WINDOWCOLOR};
use crate::qb::raster::{box_fill_spec, box_spec, line_spec};
use crate::qb::screen::PutMode;
use crate::qb::sprite::put_spec;

verus! {

/// The upper left corner of a building, which is what the BCoor array in
/// GORILLAS.BAS holds.
#[derive(Clone, Copy, Debug, PartialEq, Eq, Structural)]
pub struct Building {
    pub x: i32,
    pub y: i32,
}

// Mode 9 values of GORILLAS.BAS.
pub const BOTTOM_LINE: i32 = 335;

pub const HT_INC: i32 = 10;

pub const DEF_B_WIDTH: i32 = 37;

pub const RANDOM_HEIGHT: i32 = 120;

pub const W_WIDTH: i32 = 3;

pub const W_HEIGHT: i32 = 6;

pub const W_DIF_V: i32 = 15;

pub const W_DIF_H: i32 = 10;

/// How a building's windows are coloured.
#[derive(Clone, Copy, Debug, PartialEq, Eq, Structural)]
pub enum WindowColour {
    /// As the game does it: each window drawn from the generator, one in
    /// four dark (colour 8) and the rest lit.
    Random,
    /// Every window the one colour.
    Fixed(u8),
}

/// FnRan(x) on a generator in state `state`.
pub open spec fn ran(state: u64, x: int) -> int {
    fn_ran_spec((scramble(xorshift(state)) >> 11u64) as nat, x)
}

/// The framebuffer and the generator, as drawing the city moves them on.
pub struct Canvas {
    pub pixels: Seq<u8>,
    pub rng: u64,
}

/// One window, its top at `BOTTOM_LINE - i` in column `c`.
pub open spec fn draw_window(cv: Canvas, w: int, wc: WindowColour, c: int, i: int) -> Canvas {
    let colour: u8 = match wc {
        WindowColour::Random => if ran(cv.rng, 4) == 1 {
            8u8
        } else {
            WINDOWCOLOR
        },
        WindowColour::Fixed(k) => k,
    };
    Canvas {
        pixels: box_fill_spec(
            cv.pixels,
            w,
            c,
            BOTTOM_LINE - i,
            c + W_WIDTH,
            BOTTOM_LINE - i + W_HEIGHT,
            colour,
        ),
        rng: match wc {
            WindowColour::Random => xorshift(cv.rng),
            WindowColour::Fixed(_) => cv.rng,
        },
    }
}

/// One column of windows, from `i` above the bottom line down in steps of
/// `W_DIF_V` while `i` is at least 7.
pub open spec fn window_column(cv: Canvas, w: int, wc: WindowColour, c: int, i: int) -> Canvas
    decreases i + W_DIF_V,
{
    if i >= 7 {
        window_column(draw_window(cv, w, wc, c, i), w, wc, c, i - W_DIF_V)
    } else {
        cv
    }
}

/// The columns of windows from column `c` on, `W_DIF_H` apart, the last
/// one being the first at or past `x + bw - 3`; there is always one.
pub open spec fn window_columns(cv: Canvas, w: int, wc: WindowColour, x: int, bw: int, bh: int, c: int) -> Canvas
    decreases x + bw - 3 - c,
{
    let next = window_column(cv, w, wc, c, bh - 3);
    if c + W_DIF_H >= x + bw - 3 {
        next
    } else {
        window_columns(next, w, wc, x, bw, bh, c + W_DIF_H)
    }
}

/// The building `bw` wide and `bh` tall at `x`: its outline in colour 0,
/// its body in `colour`, then its windows.
pub open spec fn building_spec(
    cv: Canvas,
    w: int,
    h: int,
    x: int,
    bw: int,
    bh: int,
    colour: u8,
    wc: WindowColour,
) -> Canvas {
    let outlined = box_spec(cv.pixels, w, h, x - 1, BOTTOM_LINE + 1, x + bw + 1, BOTTOM_LINE - bh - 1, 0);
    let body = box_fill_spec(outlined, w, x, BOTTOM_LINE as int, x + bw, BOTTOM_LINE - bh, colour);
    window_columns(Canvas { pixels: body, rng: cv.rng }, w, wc, x, bw, bh, x + 3)
}

/// The building's coordinates fit the 32-bit arithmetic that draws it.
pub open spec fn building_fits(w: int, h: int, x: int, bw: int, bh: int) -> bool {
    &&& i32::MIN <= x - 1
    &&& x + 13 <= i32::MAX
    &&& x + bw + 13 <= i32::MAX
    &&& i32::MIN <= x + bw - 3
    &&& i32::MIN <= BOTTOM_LINE - bh - 1
    &&& BOTTOM_LINE - bh <= i32::MAX
    &&& i32::MIN <= bh - 3
}

impl Game {
    /// The framebuffer and the generator.
    pub open spec fn canvas(&self) -> Canvas {
        Canvas { pixels: self.qb.screen.pixels@, rng: self.rng@ }
    }

    /// Everything but the screen's pixels and the generator is as in `o`.
    pub open spec fn only_drawn(&self, o: &Game) -> bool {
        &&& self.qb.frame_same(&o.qb)
        &&& self.qb.text == o.qb.text
        &&& self.qb.rest_same(&o.qb)
        &&& self.gorilla_x == o.gorilla_x
        &&& self.gorilla_y == o.gorilla_y
        &&& self.wind == o.wind
        &&& self.sun_hit == o.sun_hit
        &&& self.last_building == o.last_building
        &&& self.gor_d == o.gor_d
        &&& self.gor_l == o.gor_l
        &&& self.gor_r == o.gor_r
        &&& self.ban == o.ban
        &&& self.explosion_color == o.explosion_color
        &&& self.back_color == o.back_color
    }

    /// Everything but the machine's screen and text state is as in `o`.
    pub open spec fn only_drawn_text(&self, o: &Game) -> bool {
        &&& self.rng == o.rng
        &&& self.gorilla_x == o.gorilla_x
        &&& self.gorilla_y == o.gorilla_y
        &&& self.wind == o.wind
        &&& self.sun_hit == o.sun_hit
        &&& self.last_building == o.last_building
        &&& self.gor_d == o.gor_d
        &&& self.gor_l == o.gor_l
        &&& self.gor_r == o.gor_r
        &&& self.ban == o.ban
        &&& self.explosion_color == o.explosion_color
        &&& self.back_color == o.back_color
    }

    /// One window at column `c`, `i` above the bottom line.
    fn draw_window(&mut self, c: i32, i: i32, wc: WindowColour)
        requires
            old(self).qb.screen.wf(),
            i32::MIN <= BOTTOM_LINE - i,
            BOTTOM_LINE - i + W_HEIGHT <= i32::MAX,
            c + W_WIDTH <= i32::MAX,
        ensures
            final(self).only_drawn(old(self)),
            final(self).canvas() == draw_window(
                old(self).canvas(),
                old(self).qb.screen.width as int,
                wc,
                c as int,
                i as int,
            ),
    {
        let win: u8 = match wc {
            WindowColour::Random => {
                if self.rng.fn_ran(4) == 1 {
                    8
                } else {
                    WINDOWCOLOR
                }
            },
            WindowColour::Fixed(k) => k,
        };
        self.qb.screen.line_fill(
            c,
            BOTTOM_LINE - i,
            c + W_WIDTH,
            BOTTOM_LINE - i + W_HEIGHT,
            win,
        );
    }

    /// Draw one building: its outline, its body and its windows.
    ///
    /// `BACKGROUND` is never assigned in GORILLAS.BAS, so BASIC reads it as 0
    /// and the outline is drawn in the background colour. The black gaps
    /// between buildings come from it.
    ///
    /// The game draws each window's colour from the generator; a caller
    /// can give one colour for all of them instead.
    pub fn draw_building(&mut self, x: i32, b_width: i32, b_height: i32, colour: u8, window_colour: WindowColour)
        requires
            old(self).qb.screen.wf(),
            building_fits(
                old(self).qb.screen.width as int,
                old(self).qb.screen.height as int,
                x as int,
                b_width as int,
                b_height as int,
            ),
        ensures
            final(self).only_drawn(old(self)),
            final(self).canvas() == building_spec(
                old(self).canvas(),
                old(self).qb.screen.width as int,
                old(self).qb.screen.height as int,
                x as int,
                b_width as int,
                b_height as int,
                colour,
                window_colour,
            ),
    {
        let ghost w = self.qb.screen.width as int;
        let ghost h = self.qb.screen.height as int;
        self.qb.screen.line_box(
            x - 1,
            BOTTOM_LINE + 1,
            x + b_width + 1,
            BOTTOM_LINE - b_height - 1,
            0,
        );
        self.qb.screen.line_fill(x, BOTTOM_LINE, x + b_width, BOTTOM_LINE - b_height, colour);
        let ghost start = self.canvas();
        let mut c: i32 = x + 3;
        loop
            invariant_except_break
                c <= x + 3 || c < x + b_width - 3 + W_DIF_H,
                c + W_DIF_H <= i32::MAX,
                window_columns(self.canvas(), w, window_colour, x as int, b_width as int, b_height as int, c as int)
                    == window_columns(start, w, window_colour, x as int, b_width as int, b_height as int, x + 3),
            invariant
                self.only_drawn(old(self)),
                self.qb.screen.wf(),
                w == self.qb.screen.width,
                building_fits(w, h, x as int, b_width as int, b_height as int),
                x + 3 <= c,
            ensures
                self.only_drawn(old(self)),
                self.canvas() == window_columns(start, w, window_colour, x as int, b_width as int, b_height as int, x + 3),
            decreases x + b_width + W_DIF_H - c,
        {
            let ghost col_start = self.canvas();
            let mut i: i32 = b_height - 3;
            while i >= 7
                invariant
                    self.only_drawn(old(self)),
                    self.qb.screen.wf(),
                    w == self.qb.screen.width,
                    building_fits(w, h, x as int, b_width as int, b_height as int),
                    i <= b_height - 3,
                    i32::MIN + W_DIF_V <= i || i >= 7 || i == b_height - 3,
                    c + W_DIF_H <= i32::MAX,
                    window_column(self.canvas(), w, window_colour, c as int, i as int)
                        == window_column(col_start, w, window_colour, c as int, b_height - 3),
                decreases i + W_DIF_V,
            {
                self.draw_window(c, i, window_colour);
                i = i - W_DIF_V;
            }
            assert(self.canvas() == window_column(col_start, w, window_colour, c as int, b_height - 3));
            c = c + W_DIF_H;
            if c >= x + b_width - 3 {
                break;
            }
        }
    }
}

/// FnRan(x) is 1 to x.
pub proof fn lemma_ran_bounds(state: u64, x: int)
    requires
        1 <= x,
    ensures
        1 <= ran(state, x) <= x,
{
    let v = scramble(xorshift(state));
    let m = v >> 11u64;
    assert(m < 0x20_0000_0000_0000u64) by (bit_vector)
        requires
            m == v >> 11u64,
    ;
    lemma_fn_ran_range(m as nat, x as nat);
}

/// Where the skyline has got to: the next building's left edge, the
/// running height, the canvas, and the buildings so far.
pub struct CityState {
    pub x: int,
    pub new_ht: int,
    pub cv: Canvas,
    pub buildings: Seq<Building>,
}

/// How the slope moves the running height before each building: up, down,
/// or a V that turns at the middle of the screen.
pub open spec fn slope_step(slope: int, x: int, new_ht: int) -> int {
    if slope == 1 {
        new_ht + HT_INC
    } else if slope == 2 {
        new_ht - HT_INC
    } else if 3 <= slope <= 5 {
        if x > SCR_WIDTH / 2 {
            new_ht - 2 * HT_INC
        } else {
            new_ht + 2 * HT_INC
        }
    } else {
        new_ht
    }
}

/// A building's width: FnRan(37) + 37, trimmed to end two short of the
/// right edge.
pub open spec fn city_width(x: int, rng: u64) -> int {
    let bw = ran(rng, DEF_B_WIDTH as int) + DEF_B_WIDTH;
    if x + bw > SCR_WIDTH {
        SCR_WIDTH - x - 2
    } else {
        bw
    }
}

/// A building's height: FnRan(120) on top of the running height, at
/// least `HT_INC`, and flattened to 20 when it would reach above y 25.
pub open spec fn city_height(ht: int, rng: u64) -> int {
    let bh = ran(rng, RANDOM_HEIGHT as int) + ht;
    let bh1 = if bh < HT_INC {
        HT_INC as int
    } else {
        bh
    };
    if BOTTOM_LINE - bh1 <= GHEIGHT {
        GHEIGHT - 5
    } else {
        bh1
    }
}

/// One building: its width, height and colour drawn from the generator in
/// that order, its corner recorded, and the building drawn.
pub open spec fn city_step(w: int, h: int, slope: int, st: CityState) -> CityState {
    let ht = slope_step(slope, st.x, st.new_ht);
    let r0 = st.cv.rng;
    let bw = city_width(st.x, r0);
    let r1 = xorshift(r0);
    let bh = city_height(ht, r1);
    let r2 = xorshift(r1);
    let colour = (ran(r2, 3) + 4) as u8;
    let r3 = xorshift(r2);
    CityState {
        x: st.x + bw + 2,
        new_ht: ht,
        cv: building_spec(Canvas { pixels: st.cv.pixels, rng: r3 }, w, h, st.x, bw, bh, colour, WindowColour::Random),
        buildings: st.buildings.push(Building { x: st.x as i32, y: (BOTTOM_LINE - bh) as i32 }),
    }
}

/// Buildings until the next one would start past `SCR_WIDTH - HT_INC`.
pub open spec fn city_run(w: int, h: int, slope: int, st: CityState) -> CityState
    decreases SCR_WIDTH - st.x,
{
    let next = city_step(w, h, slope, st);
    if next.x > SCR_WIDTH - HT_INC || st.x > SCR_WIDTH - HT_INC || st.x < 0 {
        next
    } else {
        proof {
            lemma_ran_bounds(st.cv.rng, DEF_B_WIDTH as int);
        }
        city_run(w, h, slope, next)
    }
}

/// The skyline from the left edge, with the height the slope starts from.
pub open spec fn skyline(w: int, h: int, slope: int, cv: Canvas) -> CityState {
    city_run(
        w,
        h,
        slope,
        CityState {
            x: 2,
            new_ht: if slope == 2 || slope == 6 {
                130
            } else {
                15
            },
            cv,
            buildings: Seq::empty(),
        },
    )
}

/// The wind: FnRan(10) - 5, and one time in three pushed a further
/// FnRan(10) the way it already blows. Also the generator after it.
pub open spec fn wind_spec(r: u64) -> (int, u64) {
    let w1 = ran(r, 10) - 5;
    let r1 = xorshift(r);
    let r2 = xorshift(r1);
    if ran(r1, 3) == 1 {
        let e = ran(r2, 10);
        (if w1 > 0 {
            w1 + e
        } else {
            w1 - e
        }, xorshift(r2))
    } else {
        (w1, r2)
    }
}

impl Game {
    /// The buildings of one skyline, drawn left to right.
    #[verifier::rlimit(60)]
    fn build_skyline(&mut self, slope: i32) -> (buildings: Vec<Building>)
        requires
            old(self).qb.screen.wf(),
            1 <= slope <= 6,
        ensures
            final(self).only_drawn(old(self)),
            final(self).canvas() == skyline(
                old(self).qb.screen.width as int,
                old(self).qb.screen.height as int,
                slope as int,
                old(self).canvas(),
            ).cv,
            buildings@ == skyline(
                old(self).qb.screen.width as int,
                old(self).qb.screen.height as int,
                slope as int,
                old(self).canvas(),
            ).buildings,
            buildings@.len() >= 9,
            buildings@[0].x == 2,
            forall|i: int, j: int|
                0 <= i < j < buildings@.len() ==> buildings@[i].x + 10 <= buildings@[j].x,
            forall|i: int| 0 <= i < buildings@.len() ==> #[trigger] buildings@[i].x <= SCR_WIDTH - HT_INC,
            forall|i: int|
                0 <= i < buildings@.len() ==> 26 <= #[trigger] buildings@[i].y <= BOTTOM_LINE - HT_INC,
            forall|i: int|
                0 <= i < buildings@.len() - 1 ==> #[trigger] gap(buildings@, i) <= 76,
            buildings@.last().x > SCR_WIDTH - HT_INC - 76,
    {
        let ghost w = self.qb.screen.width as int;
        let ghost h = self.qb.screen.height as int;
        let ghost fin = skyline(w, h, slope as int, self.canvas());
        let mut x: i32 = 2;
        let mut new_ht: i32 = if slope == 2 || slope == 6 {
            130
        } else {
            15
        };
        let mut buildings: Vec<Building> = Vec::new();
        assert(buildings@ =~= Seq::<Building>::empty());
        loop
            invariant_except_break
                2 <= x <= SCR_WIDTH - HT_INC,
                city_run(
                    w,
                    h,
                    slope as int,
                    CityState { x: x as int, new_ht: new_ht as int, cv: self.canvas(), buildings: buildings@ },
                ) == fin,
                -20 - 2 * x <= new_ht <= 130 + 2 * x,
                buildings@.len() * 76 + 2 >= x,
                buildings@.len() > 0 ==> buildings@.last().x + 10 <= x,
                buildings@.len() > 0 ==> x - buildings@.last().x <= 76,
            invariant
                self.only_drawn(old(self)),
                self.qb.screen.wf(),
                w == self.qb.screen.width,
                h == self.qb.screen.height,
                1 <= slope <= 6,
                buildings@.len() > 0 ==> buildings@[0].x == 2,
                buildings@.len() == 0 ==> x == 2,
                forall|i: int, j: int|
                    0 <= i < j < buildings@.len() ==> buildings@[i].x + 10 <= buildings@[j].x,
                forall|i: int|
                    0 <= i < buildings@.len() ==> #[trigger] buildings@[i].x <= SCR_WIDTH - HT_INC,
                forall|i: int|
                    0 <= i < buildings@.len() ==> 26 <= #[trigger] buildings@[i].y <= BOTTOM_LINE - HT_INC,
                forall|i: int|
                    0 <= i < buildings@.len() - 1 ==> #[trigger] gap(buildings@, i) <= 76,
            ensures
                self.canvas() == fin.cv,
                buildings@ == fin.buildings,
                buildings@.len() * 76 + 2 > SCR_WIDTH - HT_INC,
                buildings@.len() > 0,
                buildings@.last().x > SCR_WIDTH - HT_INC - 76,
            decreases SCR_WIDTH - x,
        {
            let ghost st = CityState {
                x: x as int,
                new_ht: new_ht as int,
                cv: self.canvas(),
                buildings: buildings@,
            };
            let ghost next = city_step(w, h, slope as int, st);
            proof {
                lemma_ran_bounds(self.rng@, DEF_B_WIDTH as int);
                lemma_ran_bounds(xorshift(self.rng@), RANDOM_HEIGHT as int);
            }
            if slope == 1 {
                new_ht = new_ht + HT_INC;
            } else if slope == 2 {
                new_ht = new_ht - HT_INC;
            } else if 3 <= slope && slope <= 5 {
                if x > SCR_WIDTH / 2 {
                    new_ht = new_ht - 2 * HT_INC;
                } else {
                    new_ht = new_ht + 2 * HT_INC;
                }
            }
            let mut b_width: i32 = self.rng.fn_ran(DEF_B_WIDTH) + DEF_B_WIDTH;
            if x + b_width > SCR_WIDTH {
                b_width = SCR_WIDTH - x - 2;
            }
            let mut b_height: i32 = self.rng.fn_ran(RANDOM_HEIGHT) + new_ht;
            if b_height < HT_INC {
                b_height = HT_INC;
            }
            // MaxHeight is never assigned in GORILLAS.BAS, so it is 0 and this
            // reads as: a building reaching above y 25 is flattened to 20.
            if BOTTOM_LINE - b_height <= GHEIGHT {
                b_height = GHEIGHT - 5;
            }
            let ghost before = buildings@;
            buildings.push(Building { x, y: BOTTOM_LINE - b_height });
            proof {
                assert forall|i: int| 0 <= i < buildings@.len() - 1 implies #[trigger] gap(buildings@, i) <= 76 by {
                    if i < before.len() - 1 {
                        assert(gap(buildings@, i) == gap(before, i));
                    } else {
                        assert(buildings@[i] == before.last());
                    }
                }
            }
            let raw: i32 = self.rng.fn_ran(3);
            proof {
                lemma_ran_bounds(xorshift(xorshift(st.cv.rng)), 3);
            }
            let building_color: u8 = (raw + 4) as u8;
            self.draw_building(x, b_width, b_height, building_color, WindowColour::Random);
            x = x + b_width + 2;
            proof {
                assert(self.canvas() == next.cv);
                assert(buildings@ == next.buildings);
            }
            if x > SCR_WIDTH - HT_INC {
                break;
            }
        }
        buildings
    }

    /// The wind, drawn from the generator.
    fn pick_wind(&mut self)
        ensures
            final(self).rng@ == wind_spec(old(self).rng@).1,
            final(self).wind == wind_spec(old(self).rng@).0,
            -14 <= final(self).wind <= 15,
            final(self).qb == old(self).qb,
            final(self).gorilla_x == old(self).gorilla_x,
            final(self).gorilla_y == old(self).gorilla_y,
            final(self).sun_hit == old(self).sun_hit,
            final(self).last_building == old(self).last_building,
            final(self).gor_d == old(self).gor_d,
            final(self).gor_l == old(self).gor_l,
            final(self).gor_r == old(self).gor_r,
            final(self).ban == old(self).ban,
            final(self).explosion_color == old(self).explosion_color,
            final(self).back_color == old(self).back_color,
    {
        let ghost r = self.rng@;
        proof {
            lemma_ran_bounds(r, 10);
            lemma_ran_bounds(xorshift(r), 3);
            lemma_ran_bounds(xorshift(xorshift(r)), 10);
        }
        self.wind = self.rng.fn_ran(10) - 5;
        if self.rng.fn_ran(3) == 1 {
            if self.wind > 0 {
                self.wind = self.wind + self.rng.fn_ran(10);
            } else {
                self.wind = self.wind - self.rng.fn_ran(10);
            }
        }
    }
}

/// The wind arrow's shaft runs from the middle of the bottom row to here,
/// three pixels per unit of wind in mode 9's 640 wide screen.
pub open spec fn arrow_tip(wind: int) -> int {
    SCR_WIDTH / 2 + wind * 3 * (SCR_WIDTH / 320)
}

/// The arrow head points back along the shaft.
pub open spec fn arrow_dir(wind: int) -> int {
    if wind > 0 {
        -2
    } else {
        2
    }
}

/// The framebuffer with the wind arrow drawn along the bottom in colour
/// `c`: the shaft, then the two strokes of the head. No wind, no arrow.
pub open spec fn wind_arrow_spec(pixels: Seq<u8>, w: int, h: int, wind: int, c: u8) -> Seq<u8> {
    let y = SCR_HEIGHT - 5;
    let tip = arrow_tip(wind);
    let d = arrow_dir(wind);
    if wind == 0 {
        pixels
    } else {
        let shaft = line_spec(pixels, w, h, SCR_WIDTH / 2, y, tip, y, c);
        let up = line_spec(shaft, w, h, tip, y, tip + d, y - 2, c);
        line_spec(up, w, h, tip, y, tip + d, y + 2, c)
    }
}

/// The arrow's coordinates fit the arithmetic that draws it.
pub open spec fn arrow_fits(w: int, h: int, wind: int) -> bool {
    let y = SCR_HEIGHT - 5;
    let tip = arrow_tip(wind);
    let d = arrow_dir(wind);
    &&& i32::MIN <= wind * 3 && wind * 3 <= i32::MAX
    &&& i32::MIN <= wind * 3 * 2 && wind * 3 * 2 <= i32::MAX
    &&& i32::MIN <= tip - 2 && tip + 2 <= i32::MAX
}

/// Rounding `v / 2` to an integer half to even, as CINT rounds, and
/// holding the result in 32 bits the way assigning to an INTEGER does.
pub open spec fn cint_half(v: int) -> int {
    let f = v / 2;
    let r = if v % 2 == 0 || f % 2 == 0 {
        f
    } else {
        f + 1
    };
    if r > i32::MAX {
        i32::MAX as int
    } else if r < i32::MIN {
        i32::MIN as int
    } else {
        r
    }
}

/// Which building gorilla `i` stands on, counting from 0, with the
/// generator in state `rng`: the second or third from its end.
pub open spec fn pick(last: int, rng: u64, i: int) -> int {
    if i == 0 {
        ran(rng, 2)
    } else {
        last - ran(rng, 2) - 1
    }
}

/// Where a gorilla on building `n` stands: its x is the middle of the roof
/// less `X_ADJ` (14), with `BWidth / 2` taken as a real number and the sum
/// rounded to an INTEGER; its y is `Y_ADJ` (30) above the roof.
pub open spec fn stand(b: Seq<Building>, n: int) -> (int, int) {
    (cint_half(2 * b[n].x + (b[n + 1].x - b[n].x) - 28), b[n].y - 30)
}

/// Building `n` and the next exist, and the arithmetic placing a gorilla
/// `sw` by `sh` on it fits 32 bits.
pub open spec fn stand_fits(b: Seq<Building>, n: int, sw: int, sh: int) -> bool {
    &&& 0 <= n
    &&& n + 1 < b.len()
    &&& i32::MIN <= b[n + 1].x - b[n].x <= i32::MAX
    &&& i32::MIN <= b[n].y - 30
    &&& (sw == 0 || sh == 0 || (stand(b, n).0 + sw - 1 <= i32::MAX && stand(b, n).1 + sh - 1 <= i32::MAX))
}

impl Game {
    /// The arrow along the bottom, its length proportional to the wind.
    pub fn draw_wind_arrow(&mut self)
        requires
            old(self).qb.screen.wf(),
            arrow_fits(
                old(self).qb.screen.width as int,
                old(self).qb.screen.height as int,
                old(self).wind as int,
            ),
        ensures
            final(self).only_drawn(old(self)),
            final(self).rng == old(self).rng,
            final(self).qb.screen.pixels@ == wind_arrow_spec(
                old(self).qb.screen.pixels@,
                old(self).qb.screen.width as int,
                old(self).qb.screen.height as int,
                old(self).wind as int,
                old(self).explosion_color,
            ),
    {
        if self.wind == 0 {
            return ;
        }
        let c: u8 = self.explosion_color;
        let wind_line: i32 = self.wind * 3 * (SCR_WIDTH / 320);
        let mid: i32 = SCR_WIDTH / 2;
        let y: i32 = SCR_HEIGHT - 5;
        self.qb.screen.line(mid, y, mid + wind_line, y, c);
        let arrow_dir: i32 = if self.wind > 0 {
            -2
        } else {
            2
        };
        self.qb.screen.line(mid + wind_line, y, mid + wind_line + arrow_dir, y - 2, c);
        self.qb.screen.line(mid + wind_line, y, mid + wind_line + arrow_dir, y + 2, c);
    }

    /// MakeCityScape. The slope is drawn first, then the buildings left to
    /// right until the next would start past `SCR_WIDTH - HT_INC`, then the
    /// wind, which the arrow along the bottom shows.
    ///
    /// Whatever the generator gives, the skyline has the shape
    /// `skyline_shape` describes and the wind is between -14 and 15.
    pub fn make_city_scape(&mut self) -> (buildings: Vec<Building>)
        requires
            old(self).qb.screen.wf(),
        ensures
            ({
                let w = old(self).qb.screen.width as int;
                let h = old(self).qb.screen.height as int;
                let slope = ran(old(self).rng@, 6);
                let sky = skyline(w, h, slope, Canvas { pixels: old(self).qb.screen.pixels@, rng: xorshift(old(self).rng@) });
                let (wind, r) = wind_spec(sky.cv.rng);
                &&& buildings@ == sky.buildings
                &&& final(self).wind == wind
                &&& final(self).rng@ == r
                &&& final(self).qb.screen.pixels@ == wind_arrow_spec(sky.cv.pixels, w, h, wind, old(self).explosion_color)
            }),
            final(self).last_building == buildings@.len(),
            skyline_shape(buildings@),
            -14 <= final(self).wind <= 15,
            final(self).qb.frame_same(&old(self).qb),
            final(self).qb.text == old(self).qb.text,
            final(self).qb.rest_same(&old(self).qb),
            final(self).gorilla_x == old(self).gorilla_x,
            final(self).gorilla_y == old(self).gorilla_y,
            final(self).sun_hit == old(self).sun_hit,
            final(self).gor_d == old(self).gor_d,
            final(self).gor_l == old(self).gor_l,
            final(self).gor_r == old(self).gor_r,
            final(self).ban == old(self).ban,
            final(self).explosion_color == old(self).explosion_color,
            final(self).back_color == old(self).back_color,
    {
        proof {
            lemma_ran_bounds(self.rng@, 6);
        }
        let slope: i32 = self.rng.fn_ran(6);
        let buildings: Vec<Building> = self.build_skyline(slope);
        self.last_building = buildings.len();
        self.pick_wind();
        self.draw_wind_arrow();
        buildings
    }

    /// PlaceGorillas. Each gorilla goes on the second or third building in
    /// from its end of the skyline, and the arms down sprite is stamped
    /// there.
    pub fn place_gorillas(&mut self, buildings: &[Building])
        requires
            old(self).qb.screen.wf(),
            old(self).gor_d.wf(),
            stand_fits(
                buildings@,
                pick(old(self).last_building as int, old(self).rng@, 0),
                old(self).gor_d.w as int,
                old(self).gor_d.h as int,
            ),
            stand_fits(
                buildings@,
                pick(old(self).last_building as int, xorshift(old(self).rng@), 1),
                old(self).gor_d.w as int,
                old(self).gor_d.h as int,
            ),
        ensures
            ({
                let b = buildings@;
                let n0 = pick(old(self).last_building as int, old(self).rng@, 0);
                let n1 = pick(old(self).last_building as int, xorshift(old(self).rng@), 1);
                let s = old(self).gor_d;
                let w = old(self).qb.screen.width as int;
                let first = put_spec(old(self).qb.screen.pixels@, w, stand(b, n0).0, stand(b, n0).1, s.w as int, s.h as int, s.pixels@, PutMode::Pset);
                &&& final(self).gorilla_x[0] == stand(b, n0).0
                &&& final(self).gorilla_y[0] == stand(b, n0).1
                &&& final(self).gorilla_x[1] == stand(b, n1).0
                &&& final(self).gorilla_y[1] == stand(b, n1).1
                &&& final(self).qb.screen.pixels@ == put_spec(first, w, stand(b, n1).0, stand(b, n1).1, s.w as int, s.h as int, s.pixels@, PutMode::Pset)
            }),
            final(self).rng@ == xorshift(xorshift(old(self).rng@)),
            final(self).qb.frame_same(&old(self).qb),
            final(self).qb.text == old(self).qb.text,
            final(self).qb.rest_same(&old(self).qb),
            final(self).wind == old(self).wind,
            final(self).sun_hit == old(self).sun_hit,
            final(self).last_building == old(self).last_building,
            final(self).gor_d == old(self).gor_d,
            final(self).gor_l == old(self).gor_l,
            final(self).gor_r == old(self).gor_r,
            final(self).ban == old(self).ban,
            final(self).explosion_color == old(self).explosion_color,
            final(self).back_color == old(self).back_color,
    {
        let mut i: usize = 0;
        while i < 2
            invariant
                0 <= i <= 2,
                self.qb.screen.wf(),
                self.qb.frame_same(&old(self).qb),
                self.qb.text == old(self).qb.text,
                self.qb.rest_same(&old(self).qb),
                self.wind == old(self).wind,
                self.sun_hit == old(self).sun_hit,
                self.last_building == old(self).last_building,
                self.gor_d == old(self).gor_d,
                self.gor_l == old(self).gor_l,
                self.gor_r == old(self).gor_r,
                self.ban == old(self).ban,
                self.explosion_color == old(self).explosion_color,
                self.back_color == old(self).back_color,
                stand_fits(
                    buildings@,
                    pick(old(self).last_building as int, old(self).rng@, 0),
                    old(self).gor_d.w as int,
                    old(self).gor_d.h as int,
                ),
                stand_fits(
                    buildings@,
                    pick(old(self).last_building as int, xorshift(old(self).rng@), 1),
                    old(self).gor_d.w as int,
                    old(self).gor_d.h as int,
                ),
                old(self).gor_d.wf(),
                i == 0 ==> self.qb.screen.pixels@ == old(self).qb.screen.pixels@ && self.rng@ == old(self).rng@,
                i >= 1 ==> ({
                    let b = buildings@;
                    let n0 = pick(old(self).last_building as int, old(self).rng@, 0);
                    &&& self.gorilla_x[0] == stand(b, n0).0
                    &&& self.gorilla_y[0] == stand(b, n0).1
                }),
                i == 1 ==> ({
                    let b = buildings@;
                    let n0 = pick(old(self).last_building as int, old(self).rng@, 0);
                    let s = old(self).gor_d;
                    &&& self.rng@ == xorshift(old(self).rng@)
                    &&& self.qb.screen.pixels@ == put_spec(old(self).qb.screen.pixels@, old(self).qb.screen.width as int, stand(b, n0).0, stand(b, n0).1, s.w as int, s.h as int, s.pixels@, PutMode::Pset)
                }),
                i == 2 ==> ({
                    let b = buildings@;
                    let n0 = pick(old(self).last_building as int, old(self).rng@, 0);
                    let n1 = pick(old(self).last_building as int, xorshift(old(self).rng@), 1);
                    let s = old(self).gor_d;
                    let w = old(self).qb.screen.width as int;
                    let first = put_spec(old(self).qb.screen.pixels@, w, stand(b, n0).0, stand(b, n0).1, s.w as int, s.h as int, s.pixels@, PutMode::Pset);
                    &&& self.gorilla_x[1] == stand(b, n1).0
                    &&& self.gorilla_y[1] == stand(b, n1).1
                    &&& self.rng@ == xorshift(xorshift(old(self).rng@))
                    &&& self.qb.screen.pixels@ == put_spec(first, w, stand(b, n1).0, stand(b, n1).1, s.w as int, s.h as int, s.pixels@, PutMode::Pset)
                }),
            decreases 2 - i,
        {
            proof {
                lemma_ran_bounds(self.rng@, 2);
            }
            // GORILLAS.BAS indexes buildings from 1, so subtract one here.
            let r: i32 = self.rng.fn_ran(2);
            let b_num: usize = if i == 0 {
                r as usize
            } else {
                self.last_building - r as usize - 1
            };
            let b_width: i32 = buildings[b_num + 1].x - buildings[b_num].x;
            // BASIC's `/` is REAL division; `\` is the integer one. The
            // game writes `BWidth / 2`, so the result is fractional, and
            // storing it into the INTEGER GorillaX rounds half to even.
            let v: i64 = 2 * (buildings[b_num].x as i64) + b_width as i64 - 28;
            let f: i64 = if v >= 0 {
                v / 2
            } else {
                -((-v + 1) / 2)
            };
            let rounded: i64 = if v % 2 == 0 || f % 2 == 0 {
                f
            } else {
                f + 1
            };
            let gx: i32 = if rounded > 0x7FFF_FFFF {
                0x7FFF_FFFF
            } else if rounded < -0x8000_0000 {
                -0x8000_0000
            } else {
                rounded as i32
            };
            let gy: i32 = buildings[b_num].y - 30;
            self.gorilla_x[i] = gx;
            self.gorilla_y[i] = gy;
            self.qb.screen.put(gx, gy, &self.gor_d, PutMode::Pset);
            i = i + 1;
        }
    }
}

/// How far building `i + 1` starts past building `i`.
pub open spec fn gap(b: Seq<Building>, i: int) -> int {
    b[i + 1].x - b[i].x
}

/// What every skyline `make_city_scape` draws has: at least nine
/// buildings from x 2, each 10 to 76 pixels on from the last, the last
/// starting past 554 and none past 630, and every roof between y 26 and
/// 325.
pub open spec fn skyline_shape(b: Seq<Building>) -> bool {
    &&& b.len() >= 9
    &&& b[0].x == 2
    &&& forall|i: int, j: int| 0 <= i < j < b.len() ==> b[i].x + 10 <= b[j].x
    &&& forall|i: int| 0 <= i < b.len() - 1 ==> #[trigger] gap(b, i) <= 76
    &&& b.last().x > SCR_WIDTH - HT_INC - 76
    &&& forall|i: int| 0 <= i < b.len() ==> #[trigger] b[i].x <= SCR_WIDTH - HT_INC
    &&& forall|i: int| 0 <= i < b.len() ==> 26 <= #[trigger] b[i].y <= BOTTOM_LINE - HT_INC
}

/// On any skyline `make_city_scape` draws, with `last_building` its
/// length, whatever the generator gives: player 1 stands left of the
/// middle of the screen and player 2 right of it, each between y -4 and
/// 295, and a gorilla sprite of up to 1000 by 1000 pixels can be stamped
/// at either place.
#[verifier::rlimit(30)]
pub proof fn law_gorillas_stand_near_their_ends(b: Seq<Building>, r0: u64, r1: u64, sw: int, sh: int)
    requires
        skyline_shape(b),
        0 <= sw <= 1000,
        0 <= sh <= 1000,
    ensures
        stand(b, pick(b.len() as int, r0, 0)).0 < SCR_WIDTH / 2,
        stand(b, pick(b.len() as int, r1, 1)).0 > SCR_WIDTH / 2,
        -4 <= stand(b, pick(b.len() as int, r0, 0)).1 <= 295,
        -4 <= stand(b, pick(b.len() as int, r1, 1)).1 <= 295,
        stand_fits(b, pick(b.len() as int, r0, 0), sw, sh),
        stand_fits(b, pick(b.len() as int, r1, 1), sw, sh),
{
    lemma_ran_bounds(r0, 2);
    lemma_ran_bounds(r1, 2);
    let last = b.len() as int;
    let n0 = pick(last, r0, 0);
    let n1 = pick(last, r1, 1);
    assert(gap(b, 0) <= 76);
    assert(gap(b, 1) <= 76);
    assert(gap(b, 2) <= 76);
    assert(gap(b, last - 2) <= 76);
    assert(gap(b, last - 3) <= 76);
    assert(b[n0].x + 10 <= b[n0 + 1].x);
    assert(b[n1].x + 10 <= b[n1 + 1].x);
    assert(26 <= b[n0].y <= 325);
    assert(26 <= b[n1].y <= 325);
    assert(b[n0].x <= 630 && b[n1].x <= 630);
}

} // verus!

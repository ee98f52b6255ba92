//! Text on the screen: the cursor, the colours, the viewport, and PRINT.

use vstd::prelude::*;
use vstd::string::StrSliceExecFns;
use crate::qb::raster::box_fill_spec;
use crate::qb::screen::{lemma_offset, lemma_plot_at, lemma_same_pixels, offset, on_screen, plot, Screen};
use crate::qb::Qb;

verus! {

/// The text cursor and what PRINT draws with.
pub struct TextState {
    pub row: i32,
    pub col: i32,
    pub fg: u8,
    pub bg: u8,
    pub view_top: i32,
    pub view_bottom: i32,
    pub cell_h: i32,
    pub max_col: i32,
}

impl TextState {
    /// The state a mode starts in.
    pub open spec fn default_state() -> TextState {
        TextState {
            row: 1,
            col: 1,
            fg: 15,
            bg: 0,
            view_top: 1,
            view_bottom: 25,
            cell_h: 14,
            max_col: 80,
        }
    }
}

impl Default for TextState {
    /// The top left, white on black, the whole screen as the viewport,
    /// 14 pixel cells and 80 columns.
    fn default() -> (t: TextState)
        ensures
            t == TextState::default_state(),
    {
        TextState {
            row: 1,
            col: 1,
            fg: 15,
            bg: 0,
            view_top: 1,
            view_bottom: 25,
            cell_h: 14,
            max_col: 80,
        }
    }
}

/// What a character cell is drawn with: the screen width, the colours,
/// the cell height, the line length and the font.
pub struct Pen {
    pub w: int,
    pub fg: u8,
    pub bg: u8,
    pub cell_h: int,
    pub max_col: int,
    pub font: Seq<u8>,
}

/// Where printing has got to: the framebuffer and the cursor.
pub struct Cursor {
    pub pixels: Seq<u8>,
    pub row: int,
    pub col: int,
}

/// The rows of character `code` in a font of `cell_h` byte glyphs, one byte
/// per row with the high bit leftmost. A code the font does not reach
/// reads as a blank glyph.
pub open spec fn glyph_rows(font: Seq<u8>, cell_h: int, code: u8) -> Seq<u8> {
    if (code + 1) * cell_h <= font.len() {
        font.subrange(code * cell_h, (code + 1) * cell_h)
    } else {
        Seq::new(cell_h as nat, |i: int| 0u8)
    }
}

/// The code printed for a character: itself when it is ASCII, and '?'
/// otherwise.
pub open spec fn char_code(ch: char) -> u8 {
    if (ch as u32) < 128 {
        ch as u8
    } else {
        63u8
    }
}

/// The colour at (dx, dy) inside a cell: foreground where the glyph's bit
/// is set, background elsewhere.
pub open spec fn cell_colour(rows: Seq<u8>, fg: u8, bg: u8, dx: int, dy: int) -> u8 {
    if (rows[dy] >> ((7 - dx) as u8)) & 1u8 == 1u8 {
        fg
    } else {
        bg
    }
}

/// Whether (x, y) lies in the 8 pixel wide cell at (x0, y0).
pub open spec fn in_cell(x0: int, y0: int, rows: Seq<u8>, x: int, y: int) -> bool {
    x0 <= x < x0 + 8 && y0 <= y < y0 + rows.len()
}

/// The framebuffer with the cell at (x0, y0) drawn, every one of its
/// pixels set, clipped to the screen.
pub open spec fn draw_cell(pixels: Seq<u8>, w: int, x0: int, y0: int, rows: Seq<u8>, fg: u8, bg: u8) -> Seq<u8> {
    Seq::new(
        pixels.len(),
        |i: int|
            if in_cell(x0, y0, rows, i % w, i / w) {
                cell_colour(rows, fg, bg, i % w - x0, i / w - y0)
            } else {
                pixels[i]
            },
    )
}

/// One character printed at the cursor, which then moves on, wrapping to
/// the next line after the last column.
pub open spec fn put_char_spec(pen: Pen, cur: Cursor, ch: char) -> Cursor {
    let rows = glyph_rows(pen.font, pen.cell_h, char_code(ch));
    Cursor {
        pixels: draw_cell(
            cur.pixels,
            pen.w,
            (cur.col - 1) * 8,
            (cur.row - 1) * pen.cell_h,
            rows,
            pen.fg,
            pen.bg,
        ),
        row: if cur.col + 1 > pen.max_col {
            cur.row + 1
        } else {
            cur.row
        },
        col: if cur.col + 1 > pen.max_col {
            1
        } else {
            cur.col + 1
        },
    }
}

/// The 32-bit cursor arithmetic of one character stays in range.
pub open spec fn put_char_ok(pen: Pen, cur: Cursor) -> bool {
    &&& 0 <= pen.cell_h
    &&& i32::MIN <= cur.col - 1
    &&& i32::MIN <= (cur.col - 1) * 8
    &&& (cur.col - 1) * 8 + 7 <= i32::MAX
    &&& i32::MIN <= cur.row - 1
    &&& i32::MIN <= (cur.row - 1) * pen.cell_h <= i32::MAX
    &&& (cur.row - 1) * pen.cell_h + pen.cell_h <= i32::MAX + 1
    &&& cur.col + 1 <= i32::MAX
    &&& cur.col + 1 > pen.max_col ==> cur.row + 1 <= i32::MAX
}

/// The characters printed one after another.
pub open spec fn print_spec(pen: Pen, cur: Cursor, s: Seq<char>) -> Cursor
    decreases s.len(),
{
    if s.len() == 0 {
        cur
    } else {
        put_char_spec(pen, print_spec(pen, cur, s.drop_last()), s.last())
    }
}

/// Every character of `s` can be printed without the cursor arithmetic
/// overflowing.
pub open spec fn print_ok(pen: Pen, cur: Cursor, s: Seq<char>) -> bool
    decreases s.len(),
{
    if s.len() == 0 {
        true
    } else {
        print_ok(pen, cur, s.drop_last()) && put_char_ok(pen, print_spec(pen, cur, s.drop_last()))
    }
}

/// The character rows of `ch` in `font`, one byte per row.
pub fn glyph(font: &[u8], cell_h: i32, ch: u8) -> (rows: &[u8])
    requires
        0 <= cell_h,
        (ch + 1) * cell_h <= font@.len(),
    ensures
        rows@ == font@.subrange(ch * cell_h, (ch + 1) * cell_h),
{
    assert((ch + 1) * cell_h == ch * cell_h + cell_h) by (nonlinear_arith);
    assert(0 <= ch * cell_h) by (nonlinear_arith)
        requires
            0 <= cell_h,
    ;
    let n: usize = font.len();
    assert(ch * cell_h + cell_h <= n);
    let start: usize = ch as usize * cell_h as usize;
    &font[start..start + cell_h as usize]
}

/// The column offset CENTER subtracts for a text `n` bytes long:
/// `LEN(Text$) / 2 + .5` rounded the way CINT rounds, half to even, and
/// held in 32 bits.
pub open spec fn center_half(n: nat) -> int {
    let v: int = if n % 2 == 1 {
        ((n + 1) / 2) as int
    } else if (n / 2) % 2 == 0 {
        (n / 2) as int
    } else {
        (n / 2 + 1) as int
    };
    if v > i32::MAX {
        i32::MAX as int
    } else {
        v
    }
}

/// Half of `m`, rounded toward zero as integer division does.
pub open spec fn half_toward_zero(m: int) -> int {
    if m >= 0 {
        m / 2
    } else {
        -((-m) / 2)
    }
}

/// The text state with the cursor moved to where `cur` has it.
pub open spec fn moved_to(t: TextState, cur: Cursor) -> TextState {
    TextState { row: cur.row as i32, col: cur.col as i32, ..t }
}

impl Qb {
    /// What PRINT draws with now.
    pub open spec fn pen(&self) -> Pen {
        Pen {
            w: self.screen.width as int,
            fg: self.text.fg,
            bg: self.text.bg,
            cell_h: self.text.cell_h as int,
            max_col: self.text.max_col as int,
            font: if self.text.cell_h == 14 {
                self.font14@
            } else {
                self.font16@
            },
        }
    }

    /// The framebuffer and the cursor.
    pub open spec fn cursor(&self) -> Cursor {
        Cursor {
            pixels: self.screen.pixels@,
            row: self.text.row as int,
            col: self.text.col as int,
        }
    }

    /// Everything but the screen and the text state is as in `o`.
    pub open spec fn rest_same(&self, o: &Qb) -> bool {
        &&& self.quit == o.quit
        &&& self.font14 == o.font14
        &&& self.font16 == o.font16
        &&& self.keys@ == o.keys@
    }

    /// The screen has the size and palette of `o`'s.
    pub open spec fn frame_same(&self, o: &Qb) -> bool {
        &&& self.screen.wf()
        &&& self.screen.width == o.screen.width
        &&& self.screen.height == o.screen.height
        &&& self.screen.regs == o.screen.regs
    }

    /// LOCATE row, col
    pub fn locate(&mut self, row: i32, col: i32)
        ensures
            final(self).text == (TextState { row, col, ..old(self).text }),
            final(self).screen == old(self).screen,
            final(self).rest_same(old(self)),
    {
        self.text.row = row;
        self.text.col = col;
    }

    /// COLOR fg, bg. The background is optional because most calls in the
    /// game set only the foreground.
    pub fn color(&mut self, fg: u8, bg: Option<u8>)
        ensures
            final(self).text == (TextState {
                fg,
                bg: match bg {
                    Some(b) => b,
                    None => old(self).text.bg,
                },
                ..old(self).text
            }),
            final(self).screen == old(self).screen,
            final(self).rest_same(old(self)),
    {
        self.text.fg = fg;
        if let Some(b) = bg {
            self.text.bg = b;
        }
    }

    /// VIEW PRINT top TO bottom
    pub fn view_print(&mut self, top: i32, bottom: i32)
        ensures
            final(self).text == (TextState { view_top: top, view_bottom: bottom, ..old(self).text }),
            final(self).screen == old(self).screen,
            final(self).rest_same(old(self)),
    {
        self.text.view_top = top;
        self.text.view_bottom = bottom;
    }

    /// CLS 2, which clears only the text viewport: the full width of the
    /// screen from the top of row `view_top` to the bottom of row
    /// `view_bottom`, in the background colour. The cursor goes to the
    /// start of the viewport.
    pub fn cls_view(&mut self)
        requires
            old(self).screen.wf(),
            i32::MIN <= (old(self).text.view_top - 1) * old(self).text.cell_h <= i32::MAX,
            i32::MIN + 1 <= old(self).text.view_bottom * old(self).text.cell_h <= i32::MAX,
            i32::MIN <= old(self).text.view_top - 1,
        ensures
            final(self).frame_same(old(self)),
            final(self).screen.pixels@ == box_fill_spec(
                old(self).screen.pixels@,
                old(self).screen.width as int,
                0,
                (old(self).text.view_top - 1) * old(self).text.cell_h,
                old(self).screen.width - 1,
                old(self).text.view_bottom * old(self).text.cell_h - 1,
                old(self).text.bg,
            ),
            final(self).text == (TextState { row: old(self).text.view_top, col: 1, ..old(self).text }),
            final(self).rest_same(old(self)),
    {
        let h: i32 = self.text.cell_h;
        let y0: i32 = (self.text.view_top - 1) * h;
        let y1: i32 = self.text.view_bottom * h - 1;
        let bg: u8 = self.text.bg;
        let right: i32 = self.screen.width - 1;
        self.screen.line_fill(0, y0, right, y1, bg);
        self.text.row = self.text.view_top;
        self.text.col = 1;
    }

    /// The rows of the glyph for `code` in the font the cell height picks.
    fn glyph_for(&self, code: u8) -> (rows: Vec<u8>)
        requires
            0 <= self.text.cell_h,
        ensures
            rows@ == glyph_rows(self.pen().font, self.text.cell_h as int, code),
            rows@.len() == self.text.cell_h,
    {
        assert((code + 1) * self.text.cell_h - code * self.text.cell_h == self.text.cell_h)
            by (nonlinear_arith);
        let cell_h: i32 = self.text.cell_h;
        let font: &Vec<u8> = if cell_h == 14 {
            &self.font14
        } else {
            &self.font16
        };
        assert((code as u64 + 1) * (cell_h as u64) <= 256 * 0x8000_0000) by (nonlinear_arith)
            requires
                0 <= cell_h <= i32::MAX,
                code <= 255,
        ;
        let covered: bool = (code as u64 + 1) * (cell_h as u64) <= font.len() as u64;
        let mut rows: Vec<u8> = Vec::new();
        if covered {
            let g: &[u8] = glyph(font.as_slice(), cell_h, code);
            let mut i: usize = 0;
            while i < g.len()
                invariant
                    i <= g@.len(),
                    rows@ == g@.take(i as int),
                decreases g@.len() - i,
            {
                rows.push(g[i]);
                i = i + 1;
                assert(rows@ =~= g@.take(i as int));
            }
            assert(g@.take(g@.len() as int) =~= g@);
        } else {
            let mut i: i32 = 0;
            while i < cell_h
                invariant
                    0 <= i <= cell_h,
                    rows@ == Seq::new(i as nat, |k: int| 0u8),
                decreases cell_h - i,
            {
                rows.push(0u8);
                i = i + 1;
                assert(rows@ =~= Seq::new(i as nat, |k: int| 0u8));
            }
        }
        rows
    }

    /// One character at the cursor, the whole 8 pixel wide cell drawn in
    /// the foreground and background colours, after which the cursor
    /// moves on, to the next row after the last column.
    fn put_char(&mut self, ch: char)
        requires
            old(self).screen.wf(),
            put_char_ok(old(self).pen(), old(self).cursor()),
        ensures
            final(self).frame_same(old(self)),
            final(self).cursor() == put_char_spec(old(self).pen(), old(self).cursor(), ch),
            final(self).text == moved_to(
                old(self).text,
                put_char_spec(old(self).pen(), old(self).cursor(), ch),
            ),
            final(self).rest_same(old(self)),
    {
        let ghost pen = self.pen();
        let ghost cur = self.cursor();
        let ghost old_pixels = self.screen.pixels@;
        let ghost w = self.screen.width as int;
        let ghost h = self.screen.height as int;
        let cell_h: i32 = self.text.cell_h;
        let code: u8 = if (ch as u32) < 128 {
            ch as u8
        } else {
            63u8
        };
        let rows: Vec<u8> = self.glyph_for(code);
        let x0: i32 = (self.text.col - 1) * 8;
        let y0: i32 = (self.text.row - 1) * cell_h;
        let fg: u8 = self.text.fg;
        let bg: u8 = self.text.bg;
        let ghost target = draw_cell(old_pixels, w, x0 as int, y0 as int, rows@, fg, bg);
        assert(rows@.len() == cell_h);
        let mut dy: usize = 0;
        while dy < rows.len()
            invariant
                self.screen.wf(),
                self.screen.width == w,
                self.screen.height == h,
                self.screen.regs == old(self).screen.regs,
                self.text == old(self).text,
                self.rest_same(old(self)),
                old_pixels.len() == w * h,
                dy <= rows@.len(),
                rows@.len() == cell_h,
                0 <= cell_h,
                i32::MIN <= x0,
                x0 + 7 <= i32::MAX,
                i32::MIN <= y0,
                y0 + cell_h <= i32::MAX + 1,
                forall|px: int, py: int|
                    on_screen(w, h, px, py) ==> #[trigger] self.screen.pixels@[offset(w, px, py)]
                        == if in_cell(x0 as int, y0 as int, rows@, px, py) && py - y0 < dy {
                        cell_colour(rows@, fg, bg, px - x0, py - y0)
                    } else {
                        old_pixels[offset(w, px, py)]
                    },
            decreases rows@.len() - dy,
        {
            let bits: u8 = rows[dy];
            let mut dx: i32 = 0;
            while dx < 8
                invariant
                    self.screen.wf(),
                    self.screen.width == w,
                    self.screen.height == h,
                    self.screen.regs == old(self).screen.regs,
                    self.text == old(self).text,
                    self.rest_same(old(self)),
                    old_pixels.len() == w * h,
                    dy < rows@.len(),
                    rows@.len() == cell_h,
                    bits == rows@[dy as int],
                    0 <= dx <= 8,
                    i32::MIN <= x0,
                    x0 + 7 <= i32::MAX,
                    i32::MIN <= y0,
                    y0 + cell_h <= i32::MAX + 1,
                    forall|px: int, py: int|
                        on_screen(w, h, px, py) ==> #[trigger] self.screen.pixels@[offset(w, px, py)]
                            == if in_cell(x0 as int, y0 as int, rows@, px, py) && (py - y0 < dy || (
                            py - y0 == dy && px - x0 < dx)) {
                            cell_colour(rows@, fg, bg, px - x0, py - y0)
                        } else {
                            old_pixels[offset(w, px, py)]
                        },
                decreases 8 - dx,
            {
                let shift: u8 = (7 - dx) as u8;
                let on: bool = (bits >> shift) & 1u8 == 1u8;
                let colour: u8 = if on {
                    fg
                } else {
                    bg
                };
                let ghost before = self.screen.pixels@;
                let px: i32 = x0 + dx;
                let py: i32 = y0 + dy as i32;
                proof {
                    lemma_plot_at(before, w, h, px as int, py as int, colour);
                }
                self.screen.pset(px, py, colour);
                dx = dx + 1;
            }
            dy = dy + 1;
        }
        proof {
            assert forall|px: int, py: int| on_screen(w, h, px, py) implies #[trigger] self.screen.pixels@[offset(w, px, py)]
                == target[offset(w, px, py)] by {
                lemma_offset(w, h, px, py);
            }
            lemma_same_pixels(self.screen.pixels@, target, w, h);
        }
        self.text.col = self.text.col + 1;
        if self.text.col > self.text.max_col {
            self.text.col = 1;
            self.text.row = self.text.row + 1;
        }
    }
    /// PRINT text; with the trailing semicolon, so the cursor stays put
    /// after the last character.
    pub fn print(&mut self, s: &str)
        requires
            old(self).screen.wf(),
            print_ok(old(self).pen(), old(self).cursor(), s@),
        ensures
            final(self).frame_same(old(self)),
            final(self).cursor() == print_spec(old(self).pen(), old(self).cursor(), s@),
            final(self).text == moved_to(
                old(self).text,
                print_spec(old(self).pen(), old(self).cursor(), s@),
            ),
            final(self).rest_same(old(self)),
    {
        let ghost pen = self.pen();
        let ghost cur0 = self.cursor();
        let n: usize = s.unicode_len();
        let mut i: usize = 0;
        assert(s@.take(0) =~= Seq::<char>::empty());
        while i < n
            invariant
                i <= n,
                n == s@.len(),
                self.frame_same(old(self)),
                self.rest_same(old(self)),
                self.pen() == pen,
                pen == old(self).pen(),
                cur0 == old(self).cursor(),
                print_ok(pen, cur0, s@),
                self.cursor() == print_spec(pen, cur0, s@.take(i as int)),
                self.text == moved_to(old(self).text, print_spec(pen, cur0, s@.take(i as int))),
            decreases n - i,
        {
            proof {
                lemma_print_ok_prefix(pen, cur0, s@, i as int + 1);
                assert(s@.take(i as int + 1).drop_last() =~= s@.take(i as int));
            }
            let c: char = s.get_char(i);
            self.put_char(c);
            i = i + 1;
        }
        assert(s@.take(n as int) =~= s@);
    }

    /// PRINT text without a trailing semicolon: the cursor goes to the
    /// start of the next row.
    pub fn println(&mut self, s: &str)
        requires
            old(self).screen.wf(),
            print_ok(old(self).pen(), old(self).cursor(), s@),
            print_spec(old(self).pen(), old(self).cursor(), s@).row + 1 <= i32::MAX,
        ensures
            final(self).frame_same(old(self)),
            final(self).screen.pixels@ == print_spec(old(self).pen(), old(self).cursor(), s@).pixels,
            final(self).text == (TextState {
                row: (print_spec(old(self).pen(), old(self).cursor(), s@).row + 1) as i32,
                col: 1,
                ..old(self).text
            }),
            final(self).rest_same(old(self)),
    {
        self.print(s);
        self.text.row = self.text.row + 1;
        self.text.col = 1;
    }

    /// Center. GORILLAS.BAS has
    /// `LOCATE Row, MaxCol \\ 2 - (LEN(Text$) / 2 + .5)`, and LOCATE rounds
    /// its argument the way CINT does, half to even: a 30 character title
    /// lands at column 24, not 25, and a 58 character line and a 60
    /// character line both land at column 10.
    pub fn center(&mut self, row: i32, text: &str)
        requires
            old(self).screen.wf(),
            half_toward_zero(old(self).text.max_col as int) - center_half(text.len() as nat) >= i32::MIN,
            print_ok(
                old(self).pen(),
                Cursor {
                    pixels: old(self).screen.pixels@,
                    row: row as int,
                    col: half_toward_zero(old(self).text.max_col as int) - center_half(text.len() as nat),
                },
                text@,
            ),
        ensures
            final(self).frame_same(old(self)),
            final(self).cursor() == print_spec(
                old(self).pen(),
                Cursor {
                    pixels: old(self).screen.pixels@,
                    row: row as int,
                    col: half_toward_zero(old(self).text.max_col as int) - center_half(text.len() as nat),
                },
                text@,
            ),
            final(self).text == moved_to(old(self).text, final(self).cursor()),
            final(self).rest_same(old(self)),
    {
        let n: usize = text.len();
        let v: u64 = if n % 2 == 1 {
            (n / 2) as u64 + 1
        } else if (n / 2) % 2 == 0 {
            (n / 2) as u64
        } else {
            (n / 2) as u64 + 1
        };
        let half: i32 = if v > 0x7FFF_FFFF {
            0x7FFF_FFFF
        } else {
            v as i32
        };
        let m: i64 = self.text.max_col as i64;
        let half_m: i64 = if m >= 0 {
            m / 2
        } else {
            -((-m) / 2)
        };
        let col: i32 = (half_m - half as i64) as i32;
        self.locate(row, col);
        self.print(text);
    }
}

/// A text that prints without overflow has every prefix that does.
pub proof fn lemma_print_ok_prefix(pen: Pen, cur: Cursor, s: Seq<char>, k: int)
    requires
        print_ok(pen, cur, s),
        0 <= k <= s.len(),
    ensures
        print_ok(pen, cur, s.take(k)),
        k < s.len() ==> put_char_ok(pen, print_spec(pen, cur, s.take(k))),
    decreases s.len(),
{
    if k == s.len() {
        assert(s.take(k) =~= s);
    } else {
        let t = s.drop_last();
        assert(t.take(k) =~= s.take(k));
        lemma_print_ok_prefix(pen, cur, t, k);
        if k == t.len() {
            assert(t.take(k) =~= t);
        }
    }
}

/// Printing `s` with the cursor at (row, col).
pub open spec fn print_at(pen: Pen, pixels: Seq<u8>, row: int, col: int, s: Seq<char>) -> Cursor {
    print_spec(pen, Cursor { pixels, row, col }, s)
}

/// The column CENTER prints a text `n` bytes long at.
pub open spec fn center_col(max_col: int, n: nat) -> int {
    half_toward_zero(max_col) - center_half(n)
}

/// The pen keeps the cursor arithmetic small: cells at most 256 pixels
/// tall and lines at most 65536 columns either way.
pub open spec fn pen_small(pen: Pen) -> bool {
    &&& 0 <= pen.cell_h <= 256
    &&& -0x1_0000 <= pen.max_col <= 0x1_0000
}

/// With a small pen, a cursor within 65536 of the origin and a text of at
/// most 65536 characters, printing never overflows, and the cursor ends no
/// further off than the text is long.
pub proof fn lemma_print_ok_small(pen: Pen, cur: Cursor, s: Seq<char>)
    requires
        pen_small(pen),
        -0x1_0000 <= cur.row <= 0x1_0000,
        -0x1_0000 <= cur.col <= 0x1_0000,
        s.len() <= 0x1_0000,
    ensures
        print_ok(pen, cur, s),
        cur.row <= print_spec(pen, cur, s).row <= cur.row + s.len(),
        -0x1_0000 <= print_spec(pen, cur, s).col <= 0x1_0000 + s.len(),
        print_spec(pen, cur, s).pixels.len() == cur.pixels.len(),
    decreases s.len(),
{
    if s.len() > 0 {
        lemma_print_ok_small(pen, cur, s.drop_last());
        let p = print_spec(pen, cur, s.drop_last());
        assert((p.row - 1) * pen.cell_h <= 0x3_0000 * 256) by (nonlinear_arith)
            requires
                p.row <= 0x2_0000,
                0 <= pen.cell_h <= 256,
        ;
        assert((p.row - 1) * pen.cell_h >= -0x3_0000 * 256) by (nonlinear_arith)
            requires
                p.row >= -0x1_0000,
                0 <= pen.cell_h <= 256,
        ;
    }
}

/// A literal's bytes are its characters when it is ASCII.
pub proof fn lemma_ascii_len(s: &str)
    requires
        vstd::string::is_ascii(s),
        s@.len() <= 0x1_0000,
    ensures
        s.len() == s@.len(),
{
    vstd::string::is_ascii_spec_bytes(s);
}

/// CENTER's requirements hold for an ASCII text of at most 65536
/// characters on a row within 65536 of the top, with a small pen.
pub proof fn lemma_center_ok(pen: Pen, pixels: Seq<u8>, row: int, text: &str)
    requires
        pen_small(pen),
        -0x1_0000 <= row <= 0x1_0000,
        vstd::string::is_ascii(text),
        text@.len() <= 0x1_0000,
    ensures
        text.len() == text@.len(),
        center_col(pen.max_col, text.len() as nat) >= i32::MIN,
        print_ok(pen, Cursor { pixels, row, col: center_col(pen.max_col, text.len() as nat) }, text@),
        -0x1_0000 <= center_col(pen.max_col, text.len() as nat) <= 0x1_0000,
{
    lemma_ascii_len(text);
    lemma_print_ok_small(pen, Cursor { pixels, row, col: center_col(pen.max_col, text.len() as nat) }, text@);
}

/// A glyph row's high bit is its leftmost pixel: drawing a cell at
/// (x0, y0) sets the pixel `dx` across and `dy` down to the foreground
/// colour exactly when row `dy` has the bit `0x80 >> dx`, and to the
/// background colour otherwise. So a glyph of rows 0x80 is a bar down the
/// cell's left edge.
pub proof fn law_glyph_high_bit_is_leftmost(
    pixels: Seq<u8>,
    w: int,
    h: int,
    x0: int,
    y0: int,
    rows: Seq<u8>,
    fg: u8,
    bg: u8,
    dx: int,
    dy: int,
)
    requires
        pixels.len() == w * h,
        0 <= dx < 8,
        0 <= dy < rows.len(),
        on_screen(w, h, x0 + dx, y0 + dy),
    ensures
        draw_cell(pixels, w, x0, y0, rows, fg, bg)[offset(w, x0 + dx, y0 + dy)] == if rows[dy] & (
        0x80u8 >> (dx as u8)) != 0u8 {
            fg
        } else {
            bg
        },
{
    lemma_offset(w, h, x0 + dx, y0 + dy);
    let i = offset(w, x0 + dx, y0 + dy);
    assert(i % w - x0 == dx && i / w - y0 == dy);
    let r: u8 = rows[dy];
    let s: u8 = dx as u8;
    let t: u8 = (7 - dx) as u8;
    assert(t + s == 7);
    assert(((r >> t) & 1u8 == 1u8) == (r & (0x80u8 >> s) != 0u8)) by (bit_vector)
        requires
            s < 8,
            t + s == 7,
    ;
}

/// The rows of a glyph are as many as the cell is tall.
pub proof fn lemma_glyph_rows_len(font: Seq<u8>, cell_h: int, code: u8)
    requires
        0 <= cell_h,
    ensures
        glyph_rows(font, cell_h, code).len() == cell_h,
{
    if (code + 1) * cell_h <= font.len() {
        assert((code + 1) * cell_h - code * cell_h == cell_h) by (nonlinear_arith);
        assert(0 <= code * cell_h) by (nonlinear_arith)
            requires
                0 <= cell_h,
        ;
    }
}

/// Printing never moves the cursor up, and keeps the framebuffer's size.
pub proof fn lemma_print_moves_down(pen: Pen, cur: Cursor, s: Seq<char>)
    ensures
        print_spec(pen, cur, s).row >= cur.row,
        print_spec(pen, cur, s).pixels.len() == cur.pixels.len(),
    decreases s.len(),
{
    if s.len() > 0 {
        lemma_print_moves_down(pen, cur, s.drop_last());
    }
}

/// Printing leaves every pixel above the cursor's row as it was.
pub proof fn lemma_print_keeps_above(pen: Pen, cur: Cursor, s: Seq<char>, i: int)
    requires
        pen.w > 0,
        0 <= pen.cell_h,
        0 <= i < cur.pixels.len(),
        i / pen.w < (cur.row - 1) * pen.cell_h,
    ensures
        print_spec(pen, cur, s).pixels[i] == cur.pixels[i],
    decreases s.len(),
{
    if s.len() > 0 {
        let t = s.drop_last();
        lemma_print_keeps_above(pen, cur, t, i);
        lemma_print_moves_down(pen, cur, t);
        let inner = print_spec(pen, cur, t);
        assert((inner.row - 1) * pen.cell_h >= (cur.row - 1) * pen.cell_h) by (nonlinear_arith)
            requires
                inner.row >= cur.row,
                0 <= pen.cell_h,
        ;
    }
}

/// Text that fits before the end of the line stays on the cursor's row,
/// and the cursor ends just after it.
pub proof fn lemma_print_one_row_cursor(pen: Pen, cur: Cursor, s: Seq<char>)
    requires
        cur.col + s.len() <= pen.max_col,
    ensures
        print_spec(pen, cur, s).row == cur.row,
        print_spec(pen, cur, s).col == cur.col + s.len(),
        print_spec(pen, cur, s).pixels.len() == cur.pixels.len(),
    decreases s.len(),
{
    if s.len() > 0 {
        lemma_print_one_row_cursor(pen, cur, s.drop_last());
    }
}

/// Text that fits before the end of the line shows character `j` in the
/// `j`-th cell from the cursor: the pixel `dx` across and `dy` down in that
/// cell has the colour the character's glyph gives it.
pub proof fn lemma_print_one_row(pen: Pen, cur: Cursor, s: Seq<char>, h: int, j: int, dx: int, dy: int)
    requires
        pen.w > 0,
        0 <= pen.cell_h,
        cur.pixels.len() == pen.w * h,
        cur.col + s.len() <= pen.max_col,
        0 <= j < s.len(),
        0 <= dx < 8,
        0 <= dy < pen.cell_h,
        on_screen(pen.w, h, (cur.col - 1 + j) * 8 + dx, (cur.row - 1) * pen.cell_h + dy),
    ensures
        print_spec(pen, cur, s).pixels[offset(
            pen.w,
            (cur.col - 1 + j) * 8 + dx,
            (cur.row - 1) * pen.cell_h + dy,
        )] == cell_colour(glyph_rows(pen.font, pen.cell_h, char_code(s[j])), pen.fg, pen.bg, dx, dy),
    decreases s.len(),
{
    let t = s.drop_last();
    let x = (cur.col - 1 + j) * 8 + dx;
    let y = (cur.row - 1) * pen.cell_h + dy;
    let i = offset(pen.w, x, y);
    lemma_offset(pen.w, h, x, y);
    lemma_print_one_row_cursor(pen, cur, t);
    let inner = print_spec(pen, cur, t);
    let rows = glyph_rows(pen.font, pen.cell_h, char_code(s.last()));
    lemma_glyph_rows_len(pen.font, pen.cell_h, char_code(s.last()));
    let x0 = (inner.col - 1) * 8;
    let y0 = (inner.row - 1) * pen.cell_h;
    if j == s.len() - 1 {
        assert(x0 == (cur.col - 1 + j) * 8);
        assert(i % pen.w - x0 == dx && i / pen.w - y0 == dy);
        assert(s[j] == s.last());
    } else {
        lemma_print_one_row(pen, cur, t, h, j, dx, dy);
        assert(t[j] == s[j]);
        assert(x < x0) by (nonlinear_arith)
            requires
                x == (cur.col - 1 + j) * 8 + dx,
                x0 == (cur.col + t.len() - 1) * 8,
                j < t.len(),
                dx < 8,
        ;
    }
}

/// Text that fits before the end of the line leaves every pixel left of
/// the cursor's cell as it was.
pub proof fn lemma_print_keeps_left(pen: Pen, cur: Cursor, s: Seq<char>, i: int)
    requires
        pen.w > 0,
        cur.col + s.len() <= pen.max_col,
        0 <= i < cur.pixels.len(),
        i % pen.w < (cur.col - 1) * 8,
    ensures
        print_spec(pen, cur, s).pixels[i] == cur.pixels[i],
    decreases s.len(),
{
    if s.len() > 0 {
        let t = s.drop_last();
        lemma_print_keeps_left(pen, cur, t, i);
        lemma_print_one_row_cursor(pen, cur, t);
    }
}

} // verus!

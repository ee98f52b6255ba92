//! The title screen and the border that sparkles round it.

use vstd::prelude::*;
use crate::game::Game;
use crate::qb::sound::{digits_end, run_value};
use crate::qb::val::{chars_of, lemma_val_span, val_span, val_text, val_text_spec};
use vstd::string::StrSliceExecFns;
use crate::qb::text::{center_col, lemma_center_ok, lemma_print_ok_small, pen_small, print_at, Cursor, Pen, TextState};

verus! {

/// The pen with a new foreground colour.
pub open spec fn with_fg(pen: Pen, fg: u8) -> Pen {
    Pen { fg, ..pen }
}

/// CENTER of an ASCII text: printed from the column that centres it.
pub open spec fn centered(pen: Pen, pixels: Seq<u8>, row: int, text: Seq<char>) -> Cursor {
    print_at(pen, pixels, row, center_col(pen.max_col, text.len()), text)
}

/// The static part of Intro, on the screen `pixels`: the title in the pen's
/// colour, then the rest in colour 7.
pub open spec fn intro_text_spec(pen: Pen, pixels: Seq<u8>) -> Cursor {
    let p7 = with_fg(pen, 7);
    let c1 = centered(pen, pixels, 4, "Q B a s i c    G O R I L L A S"@);
    let c2 = centered(p7, c1.pixels, 6, "Copyright (C) Microsoft Corporation 1990"@);
    let c3 = centered(p7, c2.pixels, 8, "Your mission is to hit your opponent with the exploding"@);
    let c4 = centered(p7, c3.pixels, 9, "banana by varying the angle and power of your throw, taking"@);
    let c5 = centered(p7, c4.pixels, 10, "into account wind speed, gravity, and the city skyline."@);
    let c6 = centered(p7, c5.pixels, 11, "The wind speed is shown by a directional arrow at the bottom"@);
    let c7 = centered(p7, c6.pixels, 12, "of the playing field, its length relative to its strength."@);
    centered(p7, c7.pixels, 24, "Press any key to continue"@)
}

impl Game {
    /// The static part of Intro, drawn on its own so it can be
    /// compared without the tune or the animated border.
    pub fn draw_intro_text(&mut self)
        requires
            old(self).qb.screen.wf(),
            pen_small(old(self).qb.pen()),
        ensures
            final(self).qb.frame_same(&old(self).qb),
            final(self).qb.rest_same(&old(self).qb),
            final(self).qb.cursor() == intro_text_spec(old(self).qb.pen(), old(self).qb.screen.pixels@),
            final(self).qb.text == (TextState {
                fg: 7,
                row: final(self).qb.text.row,
                col: final(self).qb.text.col,
                ..old(self).qb.text
            }),
            final(self).only_drawn_text(old(self)),
    {
        let ghost pen = self.qb.pen();
        proof {
            reveal_strlit("Q B a s i c    G O R I L L A S");
            lemma_center_ok(pen, self.qb.screen.pixels@, 4, "Q B a s i c    G O R I L L A S");
        }
        self.qb.center(4, "Q B a s i c    G O R I L L A S");
        self.qb.color(7, None);
        let ghost p7 = self.qb.pen();
        proof {
            reveal_strlit("Copyright (C) Microsoft Corporation 1990");
            lemma_center_ok(p7, self.qb.screen.pixels@, 6, "Copyright (C) Microsoft Corporation 1990");
        }
        self.qb.center(6, "Copyright (C) Microsoft Corporation 1990");
        proof {
            reveal_strlit("Your mission is to hit your opponent with the exploding");
            lemma_center_ok(p7, self.qb.screen.pixels@, 8, "Your mission is to hit your opponent with the exploding");
        }
        self.qb.center(8, "Your mission is to hit your opponent with the exploding");
        proof {
            reveal_strlit("banana by varying the angle and power of your throw, taking");
            lemma_center_ok(p7, self.qb.screen.pixels@, 9, "banana by varying the angle and power of your throw, taking");
        }
        self.qb.center(9, "banana by varying the angle and power of your throw, taking");
        proof {
            reveal_strlit("into account wind speed, gravity, and the city skyline.");
            lemma_center_ok(p7, self.qb.screen.pixels@, 10, "into account wind speed, gravity, and the city skyline.");
        }
        self.qb.center(10, "into account wind speed, gravity, and the city skyline.");
        proof {
            reveal_strlit("The wind speed is shown by a directional arrow at the bottom");
            lemma_center_ok(p7, self.qb.screen.pixels@, 11, "The wind speed is shown by a directional arrow at the bottom");
        }
        self.qb.center(11, "The wind speed is shown by a directional arrow at the bottom");
        proof {
            reveal_strlit("of the playing field, its length relative to its strength.");
            lemma_center_ok(p7, self.qb.screen.pixels@, 12, "of the playing field, its length relative to its strength.");
        }
        self.qb.center(12, "of the playing field, its length relative to its strength.");
        proof {
            reveal_strlit("Press any key to continue");
            lemma_center_ok(p7, self.qb.screen.pixels@, 24, "Press any key to continue");
        }
        self.qb.center(24, "Press any key to continue");
    }
}

/// The border pattern: `"*    "` repeated, ninety characters of it.
pub open spec fn sparkle_pattern() -> Seq<char> {
    Seq::new(90, |i: int| if i % 5 == 0 { '*' } else { ' ' })
}

/// The two horizontal border rows at one phase of the sparkle animation.
///
/// SparklePause prints `MID$(A$, A, 80)` on row 1 and `MID$(A$, 6 - A, 80)` on
/// row 22, with `A` running 1 to 5. `MID$` is one based, so with `phase` at
/// `A - 1` the starts are `phase` and `4 - phase`. Writing the second as
/// `5 - phase` shifts the whole bottom row by one cell.
pub fn sparkle_rows(pattern: &[char], phase: usize) -> (rows: (String, String))
    requires
        phase <= 4,
        phase + 80 <= pattern@.len(),
        84 - phase <= pattern@.len(),
    ensures
        rows.0@ == pattern@.subrange(phase as int, phase + 80),
        rows.1@ == pattern@.subrange(4 - phase, 84 - phase),
{
    let top: String = collect_chars(pattern, phase, phase + 80);
    let bottom: String = collect_chars(pattern, 4 - phase, 4 - phase + 80);
    (top, bottom)
}

/// The characters `chars[from..to]` as a string.
fn collect_chars(chars: &[char], from: usize, to: usize) -> (s: String)
    requires
        from <= to <= chars@.len(),
        to - from <= 0x1000,
    ensures
        s@ == chars@.subrange(from as int, to as int),
{
    let mut s: String = String::new();
    let mut i: usize = from;
    while i < to
        invariant
            from <= i <= to,
            to <= chars@.len(),
            to - from <= 0x1000,
            s@ == chars@.subrange(from as int, i as int),
        decreases to - i,
    {
        s.push(chars[i]);
        i = i + 1;
        assert(s@ =~= chars@.subrange(from as int, i as int));
    }
    s
}

/// Whether the vertical sparkle at row `b` is lit at one phase.
///
/// SparklePause has `c = (A + b) MOD 5` lit when `c = 1`, with `A` one based.
/// With `phase` at `A - 1` that becomes `(phase + b) MOD 5 == 0`. Writing it
/// as `== 1` disagrees on 40 of every 100 row and phase combinations.
pub fn sparkle_lit(phase: usize, b: i32) -> (lit: bool)
    requires
        i32::MIN <= (phase as i32) + b <= i32::MAX,
    ensures
        lit == (((phase as i32) + b) % 5 == 0),
{
    ((phase as i32) + b) % 5 == 0
}

/// The vertical sparkles from row `b` down to row 21: each row's mark at
/// column 80, then the same mark mirrored at column 1 of row `23 - b`.
pub open spec fn sparkle_marks(pen: Pen, cur: Cursor, phase: int, b: int) -> Cursor
    decreases 22 - b,
{
    if b > 21 {
        cur
    } else {
        let mark = if (phase + b) % 5 == 0 {
            "*"@
        } else {
            " "@
        };
        let c1 = print_at(pen, cur.pixels, b, 80, mark);
        let c2 = print_at(pen, c1.pixels, 23 - b, 1, mark);
        sparkle_marks(pen, c2, phase, b + 1)
    }
}

/// One frame of the border at `phase`: the two rows, then the columns.
pub open spec fn sparkle_spec(pen: Pen, pixels: Seq<u8>, phase: int) -> Cursor {
    let c1 = print_at(pen, pixels, 1, 1, sparkle_pattern().subrange(phase, phase + 80));
    let c2 = print_at(pen, c1.pixels, 22, 1, sparkle_pattern().subrange(4 - phase, 84 - phase));
    sparkle_marks(pen, c2, phase, 2)
}

impl Game {
    /// One frame of the sparkling border, at phase 0 to 4, which is `A - 1`
    /// in SparklePause. It does not set the colour, because SparklePause sets
    /// it once outside the loop.
    pub fn sparkle_frame(&mut self, phase: usize)
        requires
            old(self).qb.screen.wf(),
            pen_small(old(self).qb.pen()),
            phase <= 4,
        ensures
            final(self).qb.frame_same(&old(self).qb),
            final(self).qb.rest_same(&old(self).qb),
            final(self).qb.cursor() == sparkle_spec(old(self).qb.pen(), old(self).qb.screen.pixels@, phase as int),
            final(self).qb.text == (TextState {
                row: final(self).qb.text.row,
                col: final(self).qb.text.col,
                ..old(self).qb.text
            }),
            final(self).only_drawn_text(old(self)),
    {
        let ghost pen = self.qb.pen();
        let mut pattern: Vec<char> = Vec::new();
        let mut k: usize = 0;
        while k < 90
            invariant
                k <= 90,
                pattern@ == sparkle_pattern().take(k as int),
            decreases 90 - k,
        {
            if k % 5 == 0 {
                pattern.push('*');
            } else {
                pattern.push(' ');
            }
            k = k + 1;
            assert(pattern@ =~= sparkle_pattern().take(k as int));
        }
        assert(pattern@ =~= sparkle_pattern());
        let (top, bottom) = sparkle_rows(pattern.as_slice(), phase);
        proof {
            lemma_print_ok_small(pen, Cursor { pixels: self.qb.screen.pixels@, row: 1, col: 1 }, top@);
        }
        self.qb.locate(1, 1);
        self.qb.print(&top);
        proof {
            lemma_print_ok_small(pen, Cursor { pixels: self.qb.screen.pixels@, row: 22, col: 1 }, bottom@);
        }
        self.qb.locate(22, 1);
        self.qb.print(&bottom);
        let ghost whole = sparkle_spec(pen, old(self).qb.screen.pixels@, phase as int);
        proof {
            reveal_strlit("*");
            reveal_strlit(" ");
        }
        let mut b: i32 = 2;
        while b <= 21
            invariant
                2 <= b <= 22,
                phase <= 4,
                self.qb.frame_same(&old(self).qb),
                self.qb.rest_same(&old(self).qb),
                self.qb.pen() == pen,
                pen_small(pen),
                self.qb.text == (TextState { row: self.qb.text.row, col: self.qb.text.col, ..old(self).qb.text }),
                self.only_drawn_text(old(self)),
                "*"@.len() == 1,
                " "@.len() == 1,
                sparkle_marks(pen, self.qb.cursor(), phase as int, b as int) == whole,
            decreases 22 - b,
        {
            let mark: &str = if sparkle_lit(phase, b) {
                "*"
            } else {
                " "
            };
            proof {
                lemma_print_ok_small(pen, Cursor { pixels: self.qb.screen.pixels@, row: b as int, col: 80 }, mark@);
            }
            self.qb.locate(b, 80);
            self.qb.print(mark);
            proof {
                lemma_print_ok_small(pen, Cursor { pixels: self.qb.screen.pixels@, row: 23 - b, col: 1 }, mark@);
            }
            self.qb.locate(23 - b, 1);
            self.qb.print(mark);
            b = b + 1;
        }
    }
}

/// The name a player typed, cut to ten characters, or the default when
/// nothing was typed.
pub fn player_name(typed: &str, default: &str) -> (name: String)
    ensures
        name@ == (if typed@.len() == 0 {
            default@
        } else if typed@.len() <= 10 {
            typed@
        } else {
            typed@.take(10)
        }),
{
    let n: usize = typed.unicode_len();
    if n == 0 {
        return default.to_owned();
    }
    let m: usize = if n <= 10 {
        n
    } else {
        10
    };
    let mut name: String = String::new();
    let mut i: usize = 0;
    while i < m
        invariant
            i <= m <= 10,
            m <= n,
            n == typed@.len(),
            name@ == typed@.take(i as int),
        decreases m - i,
    {
        name.push(typed.get_char(i));
        i = i + 1;
        assert(name@ =~= typed@.take(i as int));
    }
    if n <= 10 {
        assert(typed@.take(n as int) =~= typed@);
    }
    name
}

/// The whole part of a number VAL reads from `t`, which holds no
/// exponent: its sign and the digits before any point.
pub open spec fn whole_part(t: Seq<char>) -> int {
    let k: nat = if t.len() > 0 && (t[0] == '+' || t[0] == '-') {
        1
    } else {
        0
    };
    let v = run_value(t, k, digits_end(t, k)) as int;
    if t.len() > 0 && t[0] == '-' {
        -v
    } else {
        v
    }
}

/// The answer to "Play to how many total points": nothing typed is the
/// default of 3, and otherwise `VAL(LEFT$(game$, 2))` taken as an integer
/// is accepted when it is positive and the answer is under three bytes
/// long. `None` asks again.
pub open spec fn points_spec(s: Seq<char>, bytes: nat) -> Option<i32> {
    if s.len() == 0 {
        Some(3i32)
    } else {
        let n = whole_part(val_text_spec(s.take(if s.len() < 2 { s.len() as int } else { 2 })));
        if n > 0 && bytes < 3 {
            Some(n as i32)
        } else {
            None
        }
    }
}

/// The number of points to play to, from what was typed, or `None` when
/// the question has to be asked again.
pub fn points_answer(s: &str) -> (points: Option<i32>)
    ensures
        points == points_spec(s@, s.len() as nat),
{
    let n: usize = s.unicode_len();
    if n == 0 {
        return Some(3);
    }
    let m: usize = if n < 2 {
        n
    } else {
        2
    };
    let mut first: String = String::new();
    let mut i: usize = 0;
    while i < m
        invariant
            i <= m <= 2,
            m <= n,
            n == s@.len(),
            first@ == s@.take(i as int),
        decreases m - i,
    {
        first.push(s.get_char(i));
        i = i + 1;
        assert(first@ =~= s@.take(i as int));
    }
    let t: String = val_text(first.as_str());
    let cs: Vec<char> = chars_of(t.as_str());
    proof {
        lemma_val_span(first@);
    }
    let signed: bool = cs.len() > 0 && (cs[0] == '+' || cs[0] == '-');
    let k: usize = if signed {
        1
    } else {
        0
    };
    let mut j: usize = k;
    let mut v: i32 = 0;
    while j < cs.len() && '0' <= cs[j] && cs[j] <= '9'
        invariant
            k <= j <= cs@.len(),
            cs@.len() <= 2,
            v == run_value(cs@, k as nat, j as nat),
            v <= 99,
            0 <= v,
            j - k == 0 ==> v == 0,
            j - k == 1 ==> v <= 9,
            digits_end(cs@, j as nat) == digits_end(cs@, k as nat),
        decreases cs@.len() - j,
    {
        v = v * 10 + ((cs[j] as u32) - 48) as i32;
        j = j + 1;
    }
    let whole: i32 = if cs.len() > 0 && cs[0] == '-' {
        -v
    } else {
        v
    };
    if whole > 0 && s.len() < 3 {
        Some(whole)
    } else {
        None
    }
}

/// The points to play to are the number typed: an answer whose first two
/// characters are digits d1 and d2 reads as 10 * d1 + d2, taken when it is
/// positive and the answer is under three bytes long.
pub proof fn law_points_are_the_two_digits_typed(s: Seq<char>, bytes: nat)
    requires
        s.len() >= 2,
        '0' <= s[0] <= '9',
        '0' <= s[1] <= '9',
    ensures
        ({
            let n = 10 * ((s[0] as u32) - 48) + ((s[1] as u32) - 48);
            points_spec(s, bytes) == if n > 0 && bytes < 3 {
                Some(n as i32)
            } else {
                None
            }
        }),
{
    let t = s.take(2);
    assert(t[0] == s[0] && t[1] == s[1]);
    assert(!crate::qb::val::is_space(t[0]));
    assert(crate::qb::val::space_end(t, 0) == 0);
    assert(digits_end(t, 2) == 2);
    assert(digits_end(t, 1) == 2);
    assert(digits_end(t, 0) == 2);
    assert(val_span(t) == (0nat, 2nat));
    let u = val_text_spec(t);
    assert(u =~= t);
    assert(run_value(t, 0, 0) == 0);
    assert(run_value(t, 0, 1) == (s[0] as u32) - 48);
    assert(run_value(t, 0, 2) == 10 * ((s[0] as u32) - 48) + ((s[1] as u32) - 48));
}

/// A one-digit answer d plays to d points, when d is not 0.
pub proof fn law_points_one_digit(s: Seq<char>, bytes: nat)
    requires
        s.len() == 1,
        '0' <= s[0] <= '9',
    ensures
        ({
            let n = (s[0] as u32) - 48;
            points_spec(s, bytes) == if n > 0 && bytes < 3 {
                Some(n as i32)
            } else {
                None
            }
        }),
{
    let t = s.take(1);
    assert(t =~= s);
    assert(!crate::qb::val::is_space(t[0]));
    assert(crate::qb::val::space_end(t, 0) == 0);
    assert(digits_end(t, 1) == 1);
    assert(digits_end(t, 0) == 1);
    assert(val_span(t) == (0nat, 1nat));
    let u = val_text_spec(t);
    assert(u =~= t);
    assert(run_value(t, 0, 0) == 0);
    assert(run_value(t, 0, 1) == (s[0] as u32) - 48);
}

} // verus!

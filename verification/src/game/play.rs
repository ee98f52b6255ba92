//! The scoring, the menu and the game over screen.

use vstd::prelude::*;
use crate::game::decimal::pow10;
use crate::game::intro::centered;
use crate::game::shot::survivor_spec;
use crate::game::{Game, ARMSDOWN, LEFTUP, RIGHTUP};
use crate::qb::screen::{PutMode, Screen, Sprite};
use crate::qb::sprite::{get_spec, put_spec};
use crate::qb::screen::{lemma_offset, offset};
use crate::qb::text::{
    cell_colour, center_col, char_code, glyph_rows, lemma_center_ok, lemma_print_keeps_above,
    lemma_print_keeps_left, lemma_print_moves_down, lemma_print_ok_small, lemma_print_one_row, pen_small, print_at, Cursor,
    Pen, TextState,
};

verus! {

/// `sp` is what GET (x - 15, y - 1)-(x + 14, y + 28) takes from the screen:
/// the 30 by 30 block of the gorilla, off-screen pixels as background.
pub open spec fn pose_capture(s: &Screen, x: int, y: int, sp: Sprite) -> bool {
    &&& sp.wf()
    &&& sp.w == 30
    &&& sp.h == 30
    &&& sp.pixels@ == get_spec(s.pixels@, s.width as int, s.height as int, x - 15, y - 1, 30, 30)
}

/// The four frames of the intro dance, as (left gorilla, right gorilla),
/// where 1 is left arm up and 2 is right arm up.
///
/// The arms down pair is the pose held during the `Rest 1` *before* the
/// dance, not its first frame.
pub const DANCE_POSES: [(i32, i32); 4] = [(1, 2), (2, 1), (1, 2), (2, 1)];

/// Who takes the point: the thrower, or the other player when the thrower
/// hit himself.
pub open spec fn winner_spec(player: int, hit_self: bool) -> int {
    if hit_self {
        3 - player
    } else {
        player
    }
}

/// The decimal digits of `n`, most significant first.
pub open spec fn decimal(n: nat) -> Seq<char>
    decreases n,
{
    if n < 10 {
        seq![(n + 48) as char]
    } else {
        decimal(n / 10).push(((n % 10) + 48) as char)
    }
}

/// How BASIC prints a number after TAB: a leading space where the sign of
/// a positive number would go, or the minus sign, the digits, and a
/// trailing space.
pub open spec fn score_spec(n: int) -> Seq<char> {
    if n < 0 {
        seq!['-'] + decimal((-n) as nat) + seq![' ']
    } else {
        seq![' '] + decimal(n as nat) + seq![' ']
    }
}

proof fn lemma_decimal_len(n: nat, k: nat)
    requires
        1 <= k,
        n < pow10(k),
    ensures
        decimal(n).len() <= k,
    decreases k,
{
    if n >= 10 {
        assert(k >= 2) by {
            if k == 1 {
                assert(pow10(1) == 10 * pow10(0));
            }
        }
        assert(pow10(k) == 10 * pow10((k - 1) as nat));
        lemma_decimal_len(n / 10, (k - 1) as nat);
    }
}

fn push_decimal(s: &mut String, v: u64)
    requires
        4 * (old(s)@.len() + 21) <= isize::MAX,
    ensures
        final(s)@ == old(s)@ + decimal(v as nat),
        decimal(v as nat).len() <= 20,
    decreases v,
{
    proof {
        reveal_with_fuel(pow10, 21);
        lemma_decimal_len(v as nat, 20);
    }
    if v >= 10 {
        push_decimal(s, v / 10);
    }
    let d: u8 = (v % 10) as u8;
    let c: char = (d + 48) as char;
    let ghost mid = s@;
    s.push(c);
    proof {
        if v >= 10 {
            assert(s@ =~= old(s)@ + decimal(v as nat));
        } else {
            assert(s@ =~= old(s)@ + decimal(v as nat));
        }
    }
}

/// The text PRINT gives a score after TAB, as `score_spec` says.
pub fn score_text(wins: i32) -> (s: String)
    ensures
        s@ == score_spec(wins as int),
        s@.len() <= 22,
{
    let mut s: String = String::new();
    if wins < 0 {
        s.push('-');
    } else {
        s.push(' ');
    }
    let v: u64 = if wins < 0 {
        (-(wins as i64)) as u64
    } else {
        wins as u64
    };
    push_decimal(&mut s, v);
    s.push(' ');
    proof {
        assert(s@ =~= score_spec(wins as int));
    }
    s
}

impl Game {
    /// UpdateScores. The point goes to whoever is left standing: the
    /// thrower, or the other player when the thrower hit himself.
    pub fn update_scores(scores: &mut [i32; 2], player: usize, hit_self: bool)
        requires
            1 <= winner_spec(player as int, hit_self) <= 2,
            old(scores)@[winner_spec(player as int, hit_self) - 1] < i32::MAX,
        ensures
            final(scores)@ == old(scores)@.update(
                winner_spec(player as int, hit_self) - 1,
                (old(scores)@[winner_spec(player as int, hit_self) - 1] + 1) as i32,
            ),
    {
        let winner: usize = if hit_self {
            3 - player
        } else {
            player
        };
        scores[winner - 1] = scores[winner - 1] + 1;
    }
}

/// A self hit scores for the opponent: the point goes to the gorilla left
/// standing, whoever was hit.
pub proof fn law_point_goes_to_survivor(tosser: int, player_hit: int)
    requires
        tosser == 1 || tosser == 2,
        player_hit == 1 || player_hit == 2,
    ensures
        winner_spec(tosser, player_hit == tosser) == survivor_spec(tosser, player_hit),
{
}

/// The View Intro / Play Game menu, printed with `pen` over `pixels`.
pub open spec fn choice_menu_spec(pen: Pen, pixels: Seq<u8>) -> Cursor {
    let c1 = print_at(pen, pixels, 16, 34, "--------------"@);
    let c2 = print_at(pen, c1.pixels, 18, 34, "V = View Intro"@);
    let c3 = print_at(pen, c2.pixels, 19, 34, "P = Play Game"@);
    print_at(pen, c3.pixels, 21, 35, "Your Choice?"@)
}

/// The pen of the text mode after `COLOR 7, 0`.
pub open spec fn text_mode_pen(font16: Seq<u8>) -> Pen {
    Pen { w: 640, fg: 7, bg: 0, cell_h: 16, max_col: 80, font: font16 }
}

/// The final screen on a cleared text mode screen: the heading, each
/// player's name at column 30 and score at column 50 on rows 11 and 12,
/// and the prompt.
pub open spec fn game_over_spec(font16: Seq<u8>, p1: Seq<char>, p2: Seq<char>, wins: [i32; 2]) -> Cursor {
    let pen = text_mode_pen(font16);
    let blank = Seq::new(640 * 400, |i: int| 0u8);
    let c1 = centered(pen, blank, 8, "GAME OVER!"@);
    let c2 = centered(pen, c1.pixels, 10, "Score:"@);
    let c3 = print_at(pen, c2.pixels, 11, 30, p1);
    let c4 = print_at(pen, c3.pixels, 11, 50, score_spec(wins[0] as int));
    let c5 = print_at(pen, c4.pixels, 12, 30, p2);
    let c6 = print_at(pen, c5.pixels, 12, 50, score_spec(wins[1] as int));
    centered(pen, c6.pixels, 24, "Press any key to continue"@)
}

/// A 32-bit score prints as at most twelve characters.
proof fn lemma_score_len(n: i32)
    ensures
        score_spec(n as int).len() <= 12,
{
    assert(pow10(10) == 10000000000nat) by {
        reveal_with_fuel(pow10, 11);
    }
    let a: nat = if n < 0 { (-(n as int)) as nat } else { n as nat };
    lemma_decimal_len(a, 10);
}

/// Each player's own total is printed on that player's row of the game
/// over screen: whatever the names, the cells from column 50 of row 11
/// show the score of `wins[0]`, player 1's, and those of row 12 the score
/// of `wins[1]`, character by character in the text mode font.
pub proof fn law_game_over_shows_each_players_own_score(
    font16: Seq<u8>,
    p1: Seq<char>,
    p2: Seq<char>,
    wins: [i32; 2],
    player: int,
    j: int,
    dx: int,
    dy: int,
)
    requires
        player == 0 || player == 1,
        0 <= j < score_spec(wins[player] as int).len(),
        0 <= dx < 8,
        0 <= dy < 16,
    ensures
        game_over_spec(font16, p1, p2, wins).pixels[offset(640, (49 + j) * 8 + dx, (10 + player) * 16 + dy)]
            == cell_colour(
            glyph_rows(font16, 16, char_code(score_spec(wins[player] as int)[j])),
            7,
            0,
            dx,
            dy,
        ),
{
    let pen = text_mode_pen(font16);
    let cleared = Seq::new(640 * 400, |i: int| 0u8);
    let st1 = centered(pen, cleared, 8, "GAME OVER!"@);
    let st2 = centered(pen, st1.pixels, 10, "Score:"@);
    let st3 = print_at(pen, st2.pixels, 11, 30, p1);
    let st4 = print_at(pen, st3.pixels, 11, 50, score_spec(wins[0] as int));
    let st5 = print_at(pen, st4.pixels, 12, 30, p2);
    let st6 = print_at(pen, st5.pixels, 12, 50, score_spec(wins[1] as int));
    let st7 = centered(pen, st6.pixels, 24, "Press any key to continue"@);
    lemma_score_len(wins[0]);
    lemma_score_len(wins[1]);
    let x = (49 + j) * 8 + dx;
    let y = (10 + player) * 16 + dy;
    let i = offset(640, x, y);
    lemma_offset(640, 400, x, y);
    let c1c = Cursor { pixels: cleared, row: 8, col: center_col(80, "GAME OVER!"@.len()) };
    lemma_print_moves_down(pen, c1c, "GAME OVER!"@);
    lemma_print_moves_down(pen, Cursor { pixels: st1.pixels, row: 10, col: center_col(80, "Score:"@.len()) }, "Score:"@);
    lemma_print_moves_down(pen, Cursor { pixels: st2.pixels, row: 11, col: 30 }, p1);
    lemma_print_moves_down(pen, Cursor { pixels: st3.pixels, row: 11, col: 50 }, score_spec(wins[0] as int));
    lemma_print_moves_down(pen, Cursor { pixels: st4.pixels, row: 12, col: 30 }, p2);
    lemma_print_moves_down(pen, Cursor { pixels: st5.pixels, row: 12, col: 50 }, score_spec(wins[1] as int));
    let last = Cursor {
        pixels: st6.pixels,
        row: 24,
        col: center_col(80, "Press any key to continue"@.len()),
    };
    lemma_print_keeps_above(pen, last, "Press any key to continue"@, i);
    if player == 0 {
        lemma_print_one_row(
            pen,
            Cursor { pixels: st3.pixels, row: 11, col: 50 },
            score_spec(wins[0] as int),
            400,
            j,
            dx,
            dy,
        );
        lemma_print_keeps_above(pen, Cursor { pixels: st5.pixels, row: 12, col: 50 }, score_spec(wins[1] as int), i);
        lemma_print_keeps_above(pen, Cursor { pixels: st4.pixels, row: 12, col: 30 }, p2, i);
    } else {
        lemma_print_one_row(
            pen,
            Cursor { pixels: st5.pixels, row: 12, col: 50 },
            score_spec(wins[1] as int),
            400,
            j,
            dx,
            dy,
        );
    }
}

/// Each player's name is printed on that player's row: with names of at
/// most twenty characters, the cells from column 30 of row 11 show player
/// 1's name and those of row 12 player 2's, character by character.
pub proof fn law_game_over_shows_each_players_name(
    font16: Seq<u8>,
    p1: Seq<char>,
    p2: Seq<char>,
    wins: [i32; 2],
    player: int,
    j: int,
    dx: int,
    dy: int,
)
    requires
        p1.len() <= 20,
        p2.len() <= 20,
        player == 0 || player == 1,
        0 <= j < (if player == 0 { p1 } else { p2 }).len(),
        0 <= dx < 8,
        0 <= dy < 16,
    ensures
        game_over_spec(font16, p1, p2, wins).pixels[offset(640, (29 + j) * 8 + dx, (10 + player) * 16 + dy)]
            == cell_colour(
            glyph_rows(font16, 16, char_code((if player == 0 { p1 } else { p2 })[j])),
            7,
            0,
            dx,
            dy,
        ),
{
    let pen = text_mode_pen(font16);
    let cleared = Seq::new(640 * 400, |i: int| 0u8);
    let m1 = centered(pen, cleared, 8, "GAME OVER!"@);
    let m2 = centered(pen, m1.pixels, 10, "Score:"@);
    let m3 = print_at(pen, m2.pixels, 11, 30, p1);
    let m4 = print_at(pen, m3.pixels, 11, 50, score_spec(wins[0] as int));
    let m5 = print_at(pen, m4.pixels, 12, 30, p2);
    let m6 = print_at(pen, m5.pixels, 12, 50, score_spec(wins[1] as int));
    lemma_score_len(wins[0]);
    lemma_score_len(wins[1]);
    let x = (29 + j) * 8 + dx;
    let y = (10 + player) * 16 + dy;
    let i = offset(640, x, y);
    lemma_offset(640, 400, x, y);
    lemma_print_moves_down(pen, Cursor { pixels: cleared, row: 8, col: center_col(80, "GAME OVER!"@.len()) }, "GAME OVER!"@);
    lemma_print_moves_down(pen, Cursor { pixels: m1.pixels, row: 10, col: center_col(80, "Score:"@.len()) }, "Score:"@);
    lemma_print_moves_down(pen, Cursor { pixels: m2.pixels, row: 11, col: 30 }, p1);
    lemma_print_moves_down(pen, Cursor { pixels: m3.pixels, row: 11, col: 50 }, score_spec(wins[0] as int));
    lemma_print_moves_down(pen, Cursor { pixels: m4.pixels, row: 12, col: 30 }, p2);
    lemma_print_moves_down(pen, Cursor { pixels: m5.pixels, row: 12, col: 50 }, score_spec(wins[1] as int));
    lemma_print_keeps_above(
        pen,
        Cursor { pixels: m6.pixels, row: 24, col: center_col(80, "Press any key to continue"@.len()) },
        "Press any key to continue"@,
        i,
    );
    if player == 0 {
        lemma_print_one_row(pen, Cursor { pixels: m2.pixels, row: 11, col: 30 }, p1, 400, j, dx, dy);
        lemma_print_keeps_left(pen, Cursor { pixels: m3.pixels, row: 11, col: 50 }, score_spec(wins[0] as int), i);
        lemma_print_keeps_above(pen, Cursor { pixels: m4.pixels, row: 12, col: 30 }, p2, i);
        lemma_print_keeps_above(pen, Cursor { pixels: m5.pixels, row: 12, col: 50 }, score_spec(wins[1] as int), i);
    } else {
        lemma_print_one_row(pen, Cursor { pixels: m4.pixels, row: 12, col: 30 }, p2, 400, j, dx, dy);
        lemma_print_keeps_left(pen, Cursor { pixels: m5.pixels, row: 12, col: 50 }, score_spec(wins[1] as int), i);
    }
}

/// The sprite for pose `pose`: 1 is left arm up, 2 is right arm up, and
/// anything else arms down.
pub open spec fn pose_sprite(g: Game, pose: i32) -> crate::qb::screen::Sprite {
    if pose == 1 {
        g.gor_l
    } else if pose == 2 {
        g.gor_r
    } else {
        g.gor_d
    }
}

impl Game {
    /// The View Intro / Play Game menu, printed under the answered prompts
    /// that `get_inputs` leaves on the text screen.
    pub fn draw_choice_menu(&mut self)
        requires
            old(self).qb.screen.wf(),
            pen_small(old(self).qb.pen()),
        ensures
            final(self).qb.frame_same(&old(self).qb),
            final(self).qb.rest_same(&old(self).qb),
            final(self).qb.cursor() == choice_menu_spec(old(self).qb.pen(), old(self).qb.screen.pixels@),
            final(self).qb.text == (TextState {
                row: final(self).qb.text.row,
                col: final(self).qb.text.col,
                ..old(self).qb.text
            }),
            final(self).only_drawn_text(old(self)),
    {
        let ghost pen = self.qb.pen();
        proof {
            reveal_strlit("--------------");
            reveal_strlit("V = View Intro");
            reveal_strlit("P = Play Game");
            reveal_strlit("Your Choice?");
            lemma_print_ok_small(pen, Cursor { pixels: self.qb.screen.pixels@, row: 16, col: 34 }, "--------------"@);
        }
        self.qb.locate(16, 34);
        self.qb.print("--------------");
        proof {
            lemma_print_ok_small(pen, Cursor { pixels: self.qb.screen.pixels@, row: 18, col: 34 }, "V = View Intro"@);
        }
        self.qb.locate(18, 34);
        self.qb.print("V = View Intro");
        proof {
            lemma_print_ok_small(pen, Cursor { pixels: self.qb.screen.pixels@, row: 19, col: 34 }, "P = Play Game"@);
        }
        self.qb.locate(19, 34);
        self.qb.print("P = Play Game");
        proof {
            lemma_print_ok_small(pen, Cursor { pixels: self.qb.screen.pixels@, row: 21, col: 35 }, "Your Choice?"@);
        }
        self.qb.locate(21, 35);
        self.qb.print("Your Choice?");
    }

    /// The capture that ends DrawGorilla: GET (x - 15, y - 1)-(x + 14, y + 28)
    /// into the pose that `arms` names, RIGHTUP, LEFTUP or ARMSDOWN. Any other
    /// value captures nothing. The screen and everything else stay as they
    /// are.
    pub fn capture_pose(&mut self, x: i32, y: i32, arms: i32)
        requires
            old(self).qb.screen.wf(),
            i32::MIN + 15 <= x <= i32::MAX - 14,
            i32::MIN + 1 <= y <= i32::MAX - 28,
        ensures
            arms == RIGHTUP ==> pose_capture(&old(self).qb.screen, x as int, y as int, final(self).gor_r),
            arms == LEFTUP ==> pose_capture(&old(self).qb.screen, x as int, y as int, final(self).gor_l),
            arms == ARMSDOWN ==> pose_capture(&old(self).qb.screen, x as int, y as int, final(self).gor_d),
            arms != RIGHTUP ==> final(self).gor_r == old(self).gor_r,
            arms != LEFTUP ==> final(self).gor_l == old(self).gor_l,
            arms != ARMSDOWN ==> final(self).gor_d == old(self).gor_d,
            final(self).qb == old(self).qb,
            final(self).rng == old(self).rng,
            final(self).gorilla_x == old(self).gorilla_x,
            final(self).gorilla_y == old(self).gorilla_y,
            final(self).wind == old(self).wind,
            final(self).sun_hit == old(self).sun_hit,
            final(self).last_building == old(self).last_building,
            final(self).ban == old(self).ban,
            final(self).explosion_color == old(self).explosion_color,
            final(self).back_color == old(self).back_color,
    {
        if arms == RIGHTUP || arms == LEFTUP || arms == ARMSDOWN {
            assert(((x + 14) - (x - 15) + 1) * ((y + 28) - (y - 1) + 1) == 900) by (nonlinear_arith);
            let captured = self.qb.screen.get(x - 15, y - 1, x + 14, y + 28);
            if arms == RIGHTUP {
                self.gor_r = captured;
            } else if arms == LEFTUP {
                self.gor_l = captured;
            } else {
                self.gor_d = captured;
            }
        }
    }

    /// Stamp pose `pose` with its corner at (x, y): 1 is left arm up, 2 is
    /// right arm up, and anything else arms down.
    pub fn put_pose(&mut self, x: i32, y: i32, pose: i32)
        requires
            old(self).qb.screen.wf(),
            pose_sprite(*old(self), pose).wf(),
            pose_sprite(*old(self), pose).w == 0 || pose_sprite(*old(self), pose).h == 0 || (x
                + pose_sprite(*old(self), pose).w - 1 <= i32::MAX && y + pose_sprite(*old(self), pose).h - 1
                <= i32::MAX),
        ensures
            final(self).only_drawn(old(self)),
            final(self).rng == old(self).rng,
            final(self).qb.screen.pixels@ == put_spec(
                old(self).qb.screen.pixels@,
                old(self).qb.screen.width as int,
                x as int,
                y as int,
                pose_sprite(*old(self), pose).w as int,
                pose_sprite(*old(self), pose).h as int,
                pose_sprite(*old(self), pose).pixels@,
                PutMode::Pset,
            ),
    {
        if pose == 1 {
            self.qb.screen.put(x, y, &self.gor_l, PutMode::Pset);
        } else if pose == 2 {
            self.qb.screen.put(x, y, &self.gor_r, PutMode::Pset);
        } else {
            self.qb.screen.put(x, y, &self.gor_d, PutMode::Pset);
        }
    }

    /// The final screen, drawn up to the point where the game waits for
    /// a key: SCREEN 0, COLOR 7, 0, CLS, the heading, the names and scores,
    /// and the prompt. PRINT Player1$; TAB(50); TotalWins(1) puts the score
    /// at column 50 with a leading space, so the digits land on column 51.
    pub fn draw_game_over(&mut self, p1: &str, p2: &str, total_wins: [i32; 2])
        requires
            p1@.len() <= 0x1_0000,
            p2@.len() <= 0x1_0000,
        ensures
            final(self).qb.screen.wf(),
            final(self).qb.screen.width == 640,
            final(self).qb.screen.height == 400,
            final(self).qb.screen.regs@ == crate::qb::screen::DEFAULT_REGS@,
            final(self).qb.cursor() == game_over_spec(old(self).font16_view(), p1@, p2@, total_wins),
            final(self).qb.text == (TextState {
                row: final(self).qb.text.row,
                col: final(self).qb.text.col,
                cell_h: 16,
                fg: 7,
                bg: 0,
                ..TextState::default_state()
            }),
            final(self).qb.rest_same(&old(self).qb),
            final(self).only_drawn_text(old(self)),
    {
        self.qb.screen_mode(0);
        self.qb.color(7, Some(0));
        self.qb.cls();
        let ghost pen = self.qb.pen();
        assert(pen == text_mode_pen(old(self).qb.font16@));
        assert(self.qb.screen.pixels@ =~= Seq::new(640 * 400, |i: int| 0u8));
        proof {
            reveal_strlit("GAME OVER!");
            lemma_center_ok(pen, self.qb.screen.pixels@, 8, "GAME OVER!");
        }
        self.qb.center(8, "GAME OVER!");
        proof {
            reveal_strlit("Score:");
            lemma_center_ok(pen, self.qb.screen.pixels@, 10, "Score:");
        }
        self.qb.center(10, "Score:");
        let s0: String = score_text(total_wins[0]);
        let s1: String = score_text(total_wins[1]);
        proof {
            lemma_print_ok_small(pen, Cursor { pixels: self.qb.screen.pixels@, row: 11, col: 30 }, p1@);
        }
        self.qb.locate(11, 30);
        self.qb.print(p1);
        proof {
            lemma_print_ok_small(pen, Cursor { pixels: self.qb.screen.pixels@, row: 11, col: 50 }, s0@);
        }
        self.qb.locate(11, 50);
        self.qb.print(s0.as_str());
        proof {
            lemma_print_ok_small(pen, Cursor { pixels: self.qb.screen.pixels@, row: 12, col: 30 }, p2@);
        }
        self.qb.locate(12, 30);
        self.qb.print(p2);
        proof {
            lemma_print_ok_small(pen, Cursor { pixels: self.qb.screen.pixels@, row: 12, col: 50 }, s1@);
        }
        self.qb.locate(12, 50);
        self.qb.print(s1.as_str());
        proof {
            reveal_strlit("Press any key to continue");
            lemma_center_ok(pen, self.qb.screen.pixels@, 24, "Press any key to continue");
        }
        self.qb.center(24, "Press any key to continue");
    }

    /// The text mode font the machine holds.
    pub open spec fn font16_view(&self) -> Seq<u8> {
        self.qb.font16@
    }
}

} // verus!

use gorillas::game::intro::{player_name, points_answer, sparkle_lit, sparkle_rows};
use gorillas::game::Game;
use gorillas::qb::input::{line_input_key, shift_char};
use gorillas::qb::text::{glyph, TextState};
use gorillas::qb::val::val_text;
use gorillas::qb::Qb;

#[test]
fn center_rounds_the_column_the_way_cint_does() {
    let cases = [
        (30usize, 24i32),
        (40, 20),
        (55, 12),
        (59, 10),
        (60, 10),
        (58, 10),
        (25, 27),
    ];
    for (len, want) in cases {
        let mut q = Qb::headless(640, 400);
        q.text.cell_h = 16;
        q.center(4, &"x".repeat(len));
        assert_eq!(q.text.col - len as i32, want, "length {len}");
    }
}

#[test]
fn cls_view_clears_exactly_the_viewport() {
    let mut q = Qb::headless(640, 350);
    q.screen.cls(7);
    q.view_print(9, 24);
    q.cls_view();
    let h = q.text.cell_h;
    let row_is_clear = |q: &Qb, row: i32| {
        ((row - 1) * h..row * h).all(|y| (0..640).all(|x| q.screen.pixel_at(x, y) == 0))
    };
    assert!(row_is_clear(&q, 9), "the first row of the viewport");
    assert!(row_is_clear(&q, 24), "the last row of the viewport");
    assert!(!row_is_clear(&q, 8), "the row above should survive");
    assert_ne!(
        q.screen.pixel_at(0, 24 * h),
        0,
        "the row below should survive"
    );
    assert_eq!(q.text.row, 9, "the cursor goes to the top of the viewport");
    assert_eq!(q.text.col, 1);
}

#[test]
fn inkey_drains_the_queue_then_returns_none() {
    let mut q = Qb::headless(64, 32);
    q.push_key('a');
    q.push_key('b');
    assert_eq!(q.inkey().unwrap(), Some('a'));
    assert_eq!(q.inkey().unwrap(), Some('b'));
    assert_eq!(q.inkey().unwrap(), None);
}

#[test]
fn inkey_fails_once_the_window_is_closed() {
    let mut q = Qb::headless(64, 32);
    q.push_key('a');
    q.quit = true;
    assert!(q.inkey().is_err());
    q.quit = false;
    assert_eq!(q.inkey().unwrap(), Some('a'));
}

#[test]
fn clear_keys_empties_the_queue() {
    let mut q = Qb::headless(640, 350);
    q.push_key('a');
    q.push_key('b');
    q.clear_keys();
    assert_eq!(q.inkey().unwrap(), None);
}

#[test]
fn resize_reallocates_the_framebuffer() {
    let mut q = Qb::headless(640, 350);
    q.resize(640, 400);
    assert_eq!(q.screen.height, 400);
    assert_eq!(q.screen.pixels.len(), 640 * 400);
}

#[test]
fn the_default_text_state_is_white_on_black_at_the_top_left() {
    let t = TextState::default();
    assert_eq!((t.row, t.col, t.fg, t.bg), (1, 1, 15, 0));
    assert_eq!((t.view_top, t.view_bottom, t.cell_h, t.max_col), (1, 25, 14, 80));
}

#[test]
fn printing_fills_the_whole_cell_not_just_the_lit_pixels() {
    // A font where every glyph is a vertical bar in the leftmost column.
    let font14: Vec<u8> = vec![0x80; 256 * 14];
    let mut q = Qb::new(640, 350, font14, Vec::new());
    q.screen.cls(7);
    q.color(15, Some(0));
    q.locate(2, 3);
    q.print("A");
    let (mut fg, mut bg, mut untouched) = (0, 0, 0);
    for y in 14..28 {
        for x in 16..24 {
            match q.screen.point(x, y) {
                15 => fg += 1,
                0 => bg += 1,
                _ => untouched += 1,
            }
        }
    }
    assert_eq!(untouched, 0, "the cell still shows what was underneath");
    assert!(fg > 0, "the glyph should have lit pixels");
    assert!(
        bg > 0,
        "the glyph's unlit pixels should be blanked to the background"
    );
    assert_eq!(fg + bg, 8 * 14, "every pixel of the cell should be written");
    assert_eq!(fg, 14, "one lit column of fourteen rows");
    assert_eq!(bg, 7 * 14);
    for (x, y) in [(15, 14), (24, 14), (16, 13), (16, 28)] {
        assert_eq!(q.screen.point(x, y), 7, "({x},{y}) outside the cell was overwritten");
    }
    assert_eq!((q.text.row, q.text.col), (2, 4));
}

#[test]
fn printing_past_the_last_column_wraps_to_the_next_row() {
    let mut q = Qb::headless(640, 350);
    q.locate(3, 79);
    q.print("abc");
    assert_eq!((q.text.row, q.text.col), (4, 2));
    q.println("z");
    assert_eq!((q.text.row, q.text.col), (5, 1));
}

#[test]
fn glyph_reads_the_rows_of_one_character() {
    let font: Vec<u8> = (0..=255u8).flat_map(|c| [c, c ^ 0xFF]).collect();
    assert_eq!(glyph(&font, 2, b'A'), &[b'A', b'A' ^ 0xFF]);
    assert_eq!(glyph(&font, 2, 0), &[0, 0xFF]);
}

#[test]
fn the_sparkle_border_matches_the_listing() {
    let pattern: Vec<char> = "*    ".repeat(18).chars().collect();

    let (top, bottom) = sparkle_rows(&pattern, 0);
    assert_eq!(top.len(), 80);
    assert_eq!(bottom.len(), 80);
    assert_eq!(&top[..6], "*    *");
    assert_eq!(&bottom[..6], " *    ");

    let (top, bottom) = sparkle_rows(&pattern, 1);
    assert_eq!(&top[..6], "    * ");
    assert_eq!(&bottom[..6], "  *   ");

    for phase in 0..5 {
        let (top, bottom) = sparkle_rows(&pattern, phase);
        let row = |start: usize| -> String {
            (0..80)
                .map(|i| {
                    if (i + start).is_multiple_of(5) {
                        '*'
                    } else {
                        ' '
                    }
                })
                .collect()
        };
        assert_eq!(top, row(phase), "top row at phase {phase}");
        assert_eq!(bottom, row(4 - phase), "bottom row at phase {phase}");
    }

    for b in 2..=21 {
        assert_eq!(sparkle_lit(0, b), b % 5 == 0, "phase 0 row {b}");
    }
    for b in 2..=21 {
        assert_eq!(sparkle_lit(1, b), (b + 1) % 5 == 0, "phase 1 row {b}");
    }
}

#[test]
fn a_sparkle_frame_leaves_the_cursor_after_the_last_mark() {
    let mut g = Game::new(Qb::headless(640, 400), 1);
    g.qb.screen_mode(0);
    g.sparkle_frame(0);
    assert_eq!((g.qb.text.row, g.qb.text.col), (2, 2));
}

fn val(s: &str) -> f64 {
    val_text(s).parse().unwrap_or(0.0)
}

#[test]
fn val_reads_the_longest_numeric_prefix() {
    assert_eq!(val("5x"), 5.0, "VAL takes this as five games");
    assert_eq!(val("9.8m"), 9.8);
    assert_eq!(val("12"), 12.0);
    assert_eq!(val("-3.5abc"), -3.5);
    assert_eq!(val("  7 "), 7.0, "leading space is skipped");
    assert_eq!(val(".5"), 0.5);
    assert_eq!(val("1e3"), 1000.0);
    assert_eq!(val("1e"), 1.0, "a bare exponent marker is not part of it");
    assert_eq!(val("abc"), 0.0, "no numeric prefix at all");
    assert_eq!(val(""), 0.0);
    assert_eq!(val("-"), 0.0, "a sign with no digits");
    assert_eq!(val("."), 0.0);
}

#[test]
fn val_text_keeps_exactly_the_prefix() {
    assert_eq!(val_text("  -12.5e+3xyz"), "-12.5e+3");
    assert_eq!(val_text("2D2"), "2e2");
    assert_eq!(val_text("4.e"), "4.");
    assert_eq!(val_text("+.e5"), "");
    assert_eq!(val_text("\u{3000}8"), "8");
}

#[test]
fn empty_names_fall_back_to_the_defaults() {
    assert_eq!(player_name("", "Player 1"), "Player 1");
    assert_eq!(player_name("", "Player 2"), "Player 2");
}

#[test]
fn names_are_cut_to_ten_characters() {
    assert_eq!(player_name("Bartholomew", "Player 1"), "Bartholome");
    assert_eq!(player_name("Archibald", "Player 2"), "Archibald");
}

#[test]
fn the_point_total_and_gravity_are_read() {
    assert_eq!(points_answer("5"), Some(5));
    assert!((val("15") - 15.0).abs() < 1e-9);
}

#[test]
fn zero_points_or_three_digits_are_asked_again() {
    for bad in ["0", "123"] {
        assert_eq!(points_answer(bad), None, "{bad} should have been asked again");
    }
    assert_eq!(points_answer("4"), Some(4));
    assert_eq!(points_answer("99"), Some(99), "two digits is the most it takes");
}

#[test]
fn a_trailing_letter_does_not_reject_the_answer() {
    assert_eq!(points_answer("5x"), Some(5));
    assert!((val("9.8m") - 9.8).abs() < 1e-9);
}

#[test]
fn the_default_point_total_is_three_and_other_answers_are_asked_again() {
    assert_eq!(points_answer(""), Some(3));
    assert_eq!(points_answer("abcdefghij"), None);
    assert_eq!(points_answer("-5"), None);
    assert_eq!(points_answer(" 4"), Some(4));
    assert_eq!(points_answer(".5"), None, "half a point is no point");
}

#[test]
fn line_input_collects_until_enter() {
    let mut buf = String::new();
    for c in "Jon".chars() {
        assert!(!line_input_key(&mut buf, Some(c)));
    }
    assert!(line_input_key(&mut buf, Some('\r')));
    assert_eq!(buf, "Jon");
}

#[test]
fn line_input_handles_backspace() {
    let mut buf = String::new();
    for c in "Jonx\u{8}".chars() {
        assert!(!line_input_key(&mut buf, Some(c)));
    }
    assert!(line_input_key(&mut buf, Some('\r')));
    assert_eq!(buf, "Jon");
}

#[test]
fn line_input_ignores_control_keys_and_no_key() {
    let mut buf = String::from("Jo");
    assert!(!line_input_key(&mut buf, None));
    assert!(!line_input_key(&mut buf, Some('\u{7}')), "a control key is ignored");
    assert!(!line_input_key(&mut buf, Some('\u{9f}')));
    assert_eq!(buf, "Jo");
    assert!(!line_input_key(&mut buf, Some('é')));
    assert_eq!(buf, "Joé");
}

#[test]
fn backspace_on_an_empty_line_does_nothing() {
    let mut buf = String::new();
    line_input_key(&mut buf, Some('\u{8}'));
    line_input_key(&mut buf, Some('\u{8}'));
    line_input_key(&mut buf, Some('A'));
    assert_eq!(buf, "A");
}

#[test]
fn shift_gives_capitals_and_underscore() {
    assert_eq!(shift_char('a'), 'A');
    assert_eq!(shift_char('z'), 'Z');
    assert_eq!(shift_char('-'), '_');
    assert_eq!(shift_char('5'), '5');
    assert_eq!(shift_char('Q'), 'Q');
}

#[test]
fn the_intro_text_and_menus_draw_in_their_places() {
    let mut g = Game::new(Qb::headless(640, 400), 1);
    g.qb.screen_mode(0);
    g.qb.color(15, Some(0));
    g.qb.cls();
    g.draw_intro_text();
    assert_eq!(g.qb.text.fg, 7, "the text after the title is grey");
    assert_eq!((g.qb.text.row, g.qb.text.col), (24, 52));
    g.draw_choice_menu();
    assert_eq!((g.qb.text.row, g.qb.text.col), (21, 47));
    g.draw_game_over("Ann", "Bob", [3, 1]);
    assert_eq!((g.qb.screen.width, g.qb.screen.height), (640, 400));
    assert_eq!((g.qb.text.row, g.qb.text.col), (24, 52));
    assert_eq!(g.qb.text.fg, 7);
}

use gorillas::game::banana;
use gorillas::qb::circle::{bresenham_circle, try_bresenham_circle};
use gorillas::qb::screen::{ega_rgb, PutMode, Screen, DEFAULT_REGS};
use gorillas::qb::Qb;

#[test]
fn ega_colours_decode_to_the_measured_values() {
    assert_eq!(ega_rgb(0x00), 0xFF00_0000);
    assert_eq!(ega_rgb(0x01), 0xFF00_00AA);
    assert_eq!(ega_rgb(0x14), 0xFFAA_5500);
    assert_eq!(ega_rgb(0x3F), 0xFFFF_FFFF);
    assert_eq!(ega_rgb(46), 0xFFFF_AA55);
    assert_eq!(ega_rgb(44), 0xFFFF_0055);
    assert_eq!(ega_rgb(54), 0xFFFF_FF00);
}

#[test]
fn pset_and_point_round_trip_and_clip() {
    let mut s = Screen::new(640, 350);
    assert_eq!(s.point(10, 10), 0);
    s.pset(10, 10, 7);
    assert_eq!(s.point(10, 10), 7);
    s.pset(-1, 10, 5);
    s.pset(640, 10, 5);
    s.pset(10, 350, 5);
    assert_eq!(s.point(-1, 10), -1);
    assert_eq!(s.point(640, 10), -1);
    assert_eq!(s.point(10, 350), -1);
    assert_eq!(s.pixel_at(-1, 10), 0);
    assert_eq!(s.pixel_at(10, 350), 0);
}

#[test]
fn cls_fills_every_pixel() {
    let mut s = Screen::new(64, 32);
    s.cls(3);
    assert!(s.pixels.iter().all(|&p| p == 3));
    assert_eq!(s.pixels.len(), 64 * 32);
}

#[test]
fn palette_changes_what_to_argb_produces() {
    let mut s = Screen::new(4, 1);
    s.pset(0, 0, 1);
    let mut out = Vec::new();
    s.to_argb(&mut out);
    assert_eq!(out[0], 0xFF00_00AA);
    s.palette(1, 46);
    s.to_argb(&mut out);
    assert_eq!(out[0], 0xFFFF_AA55);
}

#[test]
fn to_rgba_matches_to_argb_byte_for_byte() {
    let mut s = Screen::new(4, 1);
    s.pixels = vec![0, 1, 14, 15];
    let (mut argb, mut rgba) = (Vec::new(), Vec::new());
    s.to_argb(&mut argb);
    s.to_rgba(&mut rgba);
    assert_eq!(rgba.len(), 16);
    for (i, c) in argb.iter().enumerate() {
        let want = [(c >> 16) as u8, (c >> 8) as u8, *c as u8, 0xFF];
        assert_eq!(&rgba[i * 4..i * 4 + 4], &want, "pixel {i}");
    }
}

#[test]
fn to_rgba_puts_red_first() {
    let mut s = Screen::new(1, 1);
    s.pixels = vec![4];
    let mut rgba = Vec::new();
    s.to_rgba(&mut rgba);
    assert_eq!(rgba, vec![170, 0, 0, 255]);
}

#[test]
fn paint_stops_at_the_border_and_does_not_leak() {
    let mut s = Screen::new(64, 64);
    s.line_box(10, 10, 40, 40, 5);
    s.paint(25, 25, 7, 5);
    assert_eq!(s.point(25, 25), 7, "inside should be filled");
    assert_eq!(s.point(10, 10), 5, "the border should be left alone");
    assert_eq!(s.point(5, 5), 0, "outside should be untouched");
    assert_eq!(s.point(50, 50), 0, "outside should be untouched");
}

#[test]
fn paint_terminates_when_the_fill_differs_from_the_border() {
    let mut s = Screen::new(320, 200);
    s.line_box(10, 10, 300, 190, 5);
    s.paint(150, 100, 7, 5);
    assert_eq!(s.point(150, 100), 7);
    assert_eq!(s.point(11, 11), 7, "the whole interior should be filled");
    assert_eq!(s.point(5, 5), 0, "nothing outside the box");
}

#[test]
fn paint_on_a_pixel_already_the_border_colour_does_nothing() {
    let mut s = Screen::new(32, 32);
    s.cls(0);
    s.pset(16, 16, 4);
    s.paint(16, 16, 7, 4);
    assert_eq!(s.point(16, 16), 4);
    assert_eq!(s.point(0, 0), 0);
}

#[test]
fn xor_twice_restores_what_was_underneath() {
    let mut s = Screen::new(64, 64);
    s.line_fill(0, 0, 63, 63, 6);
    let before = s.pixels.clone();
    let sprite = banana::sprites()[0].clone();
    s.put(20, 20, &sprite, PutMode::Xor);
    assert_ne!(s.pixels, before, "the first XOR should change something");
    s.put(20, 20, &sprite, PutMode::Xor);
    assert_eq!(s.pixels, before, "the second XOR should undo the first");
}

fn art_of(s: &gorillas::qb::screen::Sprite) -> Vec<String> {
    (0..s.h)
        .map(|y| {
            (0..s.w)
                .map(|x| {
                    if s.pixels[(y * s.w + x) as usize] == 0 {
                        '.'
                    } else {
                        '#'
                    }
                })
                .collect()
        })
        .collect()
}

#[test]
fn all_four_banana_rotations_decode_correctly() {
    let expected: [(i32, i32, &[&str]); 4] = [
        (
            6,
            7,
            &[
                "....##", "...###", "..###.", "..###.", "..###.", "...###", "....##",
            ],
        ),
        (9, 4, &["..#####..", ".#######.", "#########", "##.....##"]),
        (9, 4, &["##.....##", "#########", ".#######.", "..#####.."]),
        (
            6,
            7,
            &[
                "##....", "###...", ".###..", ".###..", ".###..", "###...", "##....",
            ],
        ),
    ];
    let sprites = banana::sprites();
    for (i, (w, h, art)) in expected.iter().enumerate() {
        let s = &sprites[i];
        assert_eq!((s.w, s.h), (*w, *h), "rotation {i} has the wrong size");
        assert_eq!(art_of(s), *art, "rotation {i} decodes to the wrong shape");
        assert!(
            s.pixels.iter().all(|&p| p == 0 || p == 14),
            "rotation {i} has a lit pixel that is not colour 14"
        );
    }
}

#[test]
fn the_left_banana_decodes_to_the_expected_crescent() {
    let s = &banana::sprites()[0];
    assert_eq!((s.w, s.h), (6, 7));
    assert_eq!(
        art_of(s),
        vec!["....##", "...###", "..###.", "..###.", "..###.", "...###", "....##"]
    );
    assert!(s.pixels.iter().all(|&p| p == 0 || p == 14));
}

#[test]
fn switching_modes_resizes_the_framebuffer_and_the_cell_height() {
    let mut q = Qb::headless(640, 350);
    assert_eq!(q.text.cell_h, 14);
    q.screen_mode(0);
    assert_eq!((q.screen.width, q.screen.height), (640, 400));
    assert_eq!(q.text.cell_h, 16);
    q.screen_mode(9);
    assert_eq!((q.screen.width, q.screen.height), (640, 350));
    assert_eq!(q.text.cell_h, 14);
}

#[test]
fn a_line_reaches_both_of_its_ends() {
    let mut s = Screen::new(64, 64);
    s.line(3, 5, 40, 17, 9);
    assert_eq!(s.point(3, 5), 9);
    assert_eq!(s.point(40, 17), 9);
    // A shallow line has exactly one pixel in each column it spans.
    for x in 3..=40 {
        let lit = (0..64).filter(|&y| s.point(x, y) == 9).count();
        assert_eq!(lit, 1, "column {x}");
    }
}

#[test]
fn a_line_off_the_screen_draws_nothing() {
    let mut s = Screen::new(64, 64);
    s.line(-50, -10, -5, -40, 9);
    assert!(s.pixels.iter().all(|&p| p == 0));
}

#[test]
fn a_clipped_line_keeps_only_its_on_screen_part() {
    let mut s = Screen::new(64, 64);
    s.line(-10, 10, 100, 10, 2);
    for x in 0..64 {
        assert_eq!(s.point(x, 10), 2, "x {x}");
    }
    assert_eq!(s.pixels.iter().filter(|&&p| p == 2).count(), 64);
}

#[test]
fn a_filled_box_covers_its_corners_in_either_order() {
    let mut s = Screen::new(32, 32);
    s.line_fill(20, 25, 5, 3, 8);
    assert_eq!(s.point(5, 3), 8);
    assert_eq!(s.point(20, 25), 8);
    assert_eq!(s.point(4, 3), 0);
    assert_eq!(s.point(21, 25), 0);
    assert_eq!(s.pixels.iter().filter(|&&p| p == 8).count(), 16 * 23);
}

#[test]
fn a_box_outline_leaves_its_inside_alone() {
    let mut s = Screen::new(32, 32);
    s.line_box(2, 2, 10, 8, 3);
    assert_eq!(s.point(2, 2), 3);
    assert_eq!(s.point(10, 8), 3);
    assert_eq!(s.point(6, 2), 3);
    assert_eq!(s.point(6, 5), 0);
    assert_eq!(s.pixels.iter().filter(|&&p| p == 3).count(), 2 * 9 + 2 * 5);
}

#[test]
fn get_then_put_puts_back_what_was_there() {
    let mut s = Screen::new(64, 64);
    s.line_fill(5, 5, 20, 20, 12);
    s.pset(7, 9, 3);
    let grabbed = s.get(4, 4, 12, 14);
    assert_eq!((grabbed.w, grabbed.h), (9, 11));
    let before = s.pixels.clone();
    s.line_fill(0, 0, 63, 63, 1);
    s.put(4, 4, &grabbed, PutMode::Pset);
    for y in 4..=14 {
        for x in 4..=12 {
            assert_eq!(s.pixels[(y * 64 + x) as usize], before[(y * 64 + x) as usize]);
        }
    }
    assert_eq!(s.point(30, 30), 1);
}

#[test]
fn get_reads_background_off_the_screen() {
    let mut s = Screen::new(8, 8);
    s.cls(5);
    let g = s.get(-2, -2, 1, 1);
    assert_eq!((g.w, g.h), (4, 4));
    assert_eq!(g.pixels[0], 0);
    assert_eq!(g.pixels[15], 5);
}

#[test]
fn paint_fills_only_the_enclosed_region() {
    let mut s = Screen::new(40, 20);
    s.line_box(2, 2, 12, 12, 4);
    s.line_box(20, 2, 30, 12, 4);
    s.paint(6, 6, 9, 4);
    assert_eq!(s.point(6, 6), 9);
    assert_eq!(s.point(11, 11), 9);
    assert_eq!(s.point(25, 6), 0, "the other box is not reached");
    assert_eq!(s.point(15, 15), 0);
    assert_eq!(s.pixels.iter().filter(|&&p| p == 9).count(), 9 * 9);
    assert_eq!(s.pixels.iter().filter(|&&p| p == 4).count(), 2 * 40);
}

#[test]
fn paint_twice_changes_nothing_the_second_time() {
    let mut s = Screen::new(40, 20);
    s.line_box(2, 2, 12, 12, 4);
    s.paint(6, 6, 9, 4);
    let once = s.pixels.clone();
    s.paint(6, 6, 9, 4);
    assert_eq!(s.pixels, once);
}

#[test]
fn the_circle_offsets_lie_within_the_radius_and_are_symmetric() {
    for r in 1..20 {
        let pts = bresenham_circle(r);
        assert!(!pts.is_empty());
        for &(dx, dy) in &pts {
            assert!(dx.abs() <= r && dy.abs() <= r, "radius {r} offset ({dx},{dy})");
            assert!(pts.contains(&(-dx, dy)) && pts.contains(&(dx, -dy)) && pts.contains(&(dy, dx)));
        }
        assert!(pts.contains(&(r, 0)) && pts.contains(&(0, -r)));
    }
    assert_eq!(bresenham_circle(0), vec![(0, 0); 8]);
}

#[test]
fn a_new_screen_has_the_default_palette() {
    let s = Screen::new(10, 10);
    assert_eq!(s.regs, DEFAULT_REGS);
    assert!(s.in_bounds(9, 9));
    assert!(!s.in_bounds(10, 0));
    assert!(!s.in_bounds(0, -1));
}

/// The pixels of a screen set to `c`, as (x, y) pairs.
fn lit(s: &Screen, c: u8) -> Vec<(i32, i32)> {
    let mut v = Vec::new();
    for y in 0..s.height {
        for x in 0..s.width {
            if s.pixel_at(x, y) == c {
                v.push((x, y));
            }
        }
    }
    v
}

#[test]
fn a_line_is_drawn_from_its_end_with_the_smaller_x() {
    let mut a = Screen::new(640, 350);
    a.line(4, 1, 0, 0, 9);
    assert_eq!(lit(&a, 9), vec![(0, 0), (1, 1), (2, 1), (3, 1), (4, 1)]);
    let mut b = Screen::new(640, 350);
    b.line(0, 0, 4, 1, 9);
    assert_eq!(a.pixels, b.pixels);
}

#[test]
fn a_line_is_clipped_one_edge_at_a_time_with_the_rounding_carried() {
    // The right edge first moves the far end to (639, 363), so the clipped
    // line ends at (616, 349), not at (615, 349) where the whole line
    // crosses the bottom row.
    let mut s = Screen::new(640, 350);
    s.line(-50, -50, 700, 400, 9);
    let mut want = Screen::new(640, 350);
    want.line(33, 0, 616, 349, 9);
    assert_eq!(s.pixels, want.pixels);
    assert_eq!(s.point(616, 349), 9);
    assert_eq!(s.point(617, 349), 0);
}

#[test]
fn an_off_screen_line_is_the_rasterisation_of_its_clipped_part() {
    let mut s = Screen::new(640, 350);
    s.line(-50, 330, 700, 340, 4);
    let mut want = Screen::new(640, 350);
    want.line(0, 331, 639, 339, 4);
    assert_eq!(s.pixels, want.pixels);
}

#[test]
fn a_line_that_misses_the_screen_draws_nothing() {
    let mut s = Screen::new(640, 350);
    s.line(-10, -10, 700, -1, 4);
    assert!(lit(&s, 4).is_empty());
    s.line(-5, 100, -5, 200, 4);
    assert!(lit(&s, 4).is_empty());
}

#[test]
fn a_circle_whose_arithmetic_overflows_is_refused() {
    assert!(try_bresenham_circle(i32::MAX).is_none());
    assert!(try_bresenham_circle(-1_073_741_823).is_none());
    assert_eq!(try_bresenham_circle(-1_073_741_822), Some(vec![]));
    assert_eq!(try_bresenham_circle(5), Some(bresenham_circle(5)));
}

#[test]
fn differences_lists_each_differing_pixel_in_row_order() {
    let mut s = Screen::new(4, 3);
    let want = s.pixels.clone();
    assert!(s.differences(&want).is_empty());
    s.pset(3, 0, 5);
    s.pset(1, 2, 7);
    assert_eq!(s.differences(&want), vec![(3, 0, 0, 5), (1, 2, 0, 7)]);
}

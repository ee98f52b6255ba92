use gorillas::game::banana;
use gorillas::game::city::{Building, WindowColour};
use gorillas::game::play::{score_text, DANCE_POSES};
use gorillas::game::rng::Rng;
use gorillas::game::{Game, SCR_HEIGHT, SCR_WIDTH};
use gorillas::qb::screen::DEFAULT_REGS;
use gorillas::qb::Qb;

#[test]
fn fn_ran_stays_in_range() {
    let mut r = Rng::new(1);
    for _ in 0..2000 {
        let v = r.fn_ran(6);
        assert!((1..=6).contains(&v), "got {v}");
    }
}

#[test]
fn the_same_seed_gives_the_same_sequence() {
    let a: Vec<i32> = {
        let mut r = Rng::new(42);
        (0..50).map(|_| r.fn_ran(100)).collect()
    };
    let b: Vec<i32> = {
        let mut r = Rng::new(42);
        (0..50).map(|_| r.fn_ran(100)).collect()
    };
    assert_eq!(a, b);
    let c: Vec<i32> = {
        let mut r = Rng::new(43);
        (0..50).map(|_| r.fn_ran(100)).collect()
    };
    assert_ne!(a, c);
}

#[test]
fn fn_ran_of_one_is_always_one_and_negative_ranges_mirror() {
    let mut r = Rng::new(9);
    for _ in 0..100 {
        assert_eq!(r.fn_ran(1), 1);
    }
    let mut a = Rng::new(5);
    let mut b = Rng::new(5);
    for _ in 0..100 {
        let p = a.fn_ran(7);
        let n = b.fn_ran(-7);
        assert_eq!(n, 2 - p);
    }
}

#[test]
fn the_dance_never_shows_both_arms_down_and_always_alternates() {
    for (i, &(l, r)) in DANCE_POSES.iter().enumerate() {
        assert_ne!((l, r), (0, 0), "frame {i} is the pre dance pose");
        assert!(l == 1 || l == 2, "frame {i} left pose {l}");
        assert_eq!(r, 3 - l, "frame {i}: the gorillas mirror each other");
        if i > 0 {
            assert_ne!(DANCE_POSES[i - 1], (l, r), "frame {i} repeats {}", i - 1);
        }
    }
}

#[test]
fn a_normal_hit_scores_for_the_thrower() {
    let mut scores = [0, 0];
    Game::update_scores(&mut scores, 1, false);
    assert_eq!(scores, [1, 0]);
    Game::update_scores(&mut scores, 2, false);
    assert_eq!(scores, [1, 1]);
}

#[test]
fn hitting_yourself_scores_for_the_opponent() {
    let mut scores = [0, 0];
    Game::update_scores(&mut scores, 1, true);
    assert_eq!(scores, [0, 1]);
    Game::update_scores(&mut scores, 2, true);
    assert_eq!(scores, [1, 1]);
}

#[test]
fn set_screen_installs_the_measured_palette() {
    let mut g = Game::new(Qb::headless(640, 350), 1);
    g.set_screen();
    assert_eq!(g.qb.screen.regs[0], 1);
    assert_eq!(g.qb.screen.regs[1], 46);
    assert_eq!(g.qb.screen.regs[2], 44);
    assert_eq!(g.qb.screen.regs[3], 54);
    assert_eq!(g.qb.screen.regs[5], 7);
    assert_eq!(g.qb.screen.regs[6], 4);
    assert_eq!(g.qb.screen.regs[7], 3);
    assert_eq!(g.qb.screen.regs[9], 63);
    assert_eq!(g.qb.screen.regs[8], 0x38);
    assert_eq!(g.qb.screen.regs[14], 0x3E);
    assert_eq!(g.explosion_color, 2);
    assert_eq!(g.back_color, 1);
}

#[test]
fn a_mode_switch_resets_the_palette_and_set_screen_reinstalls_it() {
    let mut g = Game::new(Qb::headless(640, 350), 1);
    g.set_screen();
    assert_eq!(
        g.qb.screen.regs[1], 46,
        "the game palette should be installed"
    );
    g.qb.screen_mode(0);
    assert_eq!(
        g.qb.screen.regs, DEFAULT_REGS,
        "a mode switch should reset every palette register"
    );
    g.qb.screen_mode(9);
    assert_eq!(g.qb.screen.regs, DEFAULT_REGS);
    g.set_screen();
    assert_eq!(g.qb.screen.regs[1], 46);
    assert_eq!(g.qb.screen.regs[3], 54);
}

#[test]
fn the_four_banana_rotations_are_loaded() {
    let g = Game::new(Qb::headless(640, 350), 1);
    assert_eq!(g.ban.len(), 4);
    for s in &g.ban {
        assert!(s.w > 0 && s.h > 0);
        assert!(s.pixels.iter().any(|&p| p != 0), "a rotation is blank");
    }
    assert_eq!(g.ban, banana::sprites());
}

fn built(seed: u64) -> (Game, Vec<Building>) {
    let mut g = Game::new(Qb::headless(640, 350), seed);
    g.set_screen();
    let b = g.make_city_scape();
    (g, b)
}

#[test]
fn the_skyline_spans_the_screen_without_leaving_it() {
    for seed in 1..40u64 {
        let (_, b) = built(seed);
        assert!(b.len() >= 8, "seed {seed} made only {} buildings", b.len());
        assert!(b[0].x >= 0, "seed {seed} starts off screen");
        for w in b.windows(2) {
            assert!(w[1].x > w[0].x, "seed {seed} has buildings out of order");
        }
        let last = b.last().unwrap();
        assert!(last.x < SCR_WIDTH, "seed {seed} ends off screen");
        for one in &b {
            assert!(
                (0..SCR_HEIGHT).contains(&one.y),
                "seed {seed} has a roof at y {}",
                one.y
            );
        }
    }
}

#[test]
fn no_building_reaches_above_the_sun() {
    for seed in 1..40u64 {
        let (_, b) = built(seed);
        for one in &b {
            assert!(one.y >= 25, "seed {seed} has a roof at y {}", one.y);
        }
    }
}

#[test]
fn wind_lands_in_the_range_the_listing_allows() {
    for seed in 1..200u64 {
        let (g, _) = built(seed);
        assert!(
            (-14..=15).contains(&g.wind),
            "seed {seed} gave wind {}",
            g.wind
        );
    }
}

#[test]
fn gorillas_sit_on_buildings_near_each_end() {
    for seed in 1..40u64 {
        let (mut g, b) = built(seed);
        g.place_gorillas(&b);
        assert!(
            g.gorilla_x[0] < SCR_WIDTH / 2,
            "seed {seed} player 1 is not on the left"
        );
        assert!(
            g.gorilla_x[1] > SCR_WIDTH / 2,
            "seed {seed} player 2 is not on the right"
        );
        for i in 0..2 {
            assert!(g.gorilla_y[i] > 0, "seed {seed} gorilla {i} is off the top");
            assert!(
                g.gorilla_y[i] < SCR_HEIGHT,
                "seed {seed} gorilla {i} is off the bottom"
            );
        }
    }
}

#[test]
fn the_gorilla_x_position_rounds_the_bwidth_the_way_basic_does() {
    let seed = 1;
    let b_num = Rng::new(seed).fn_ran(2) as usize;
    let mut xs: Vec<i32> = (0..6).map(|i| i * 1000).collect();
    xs[b_num] = 20;
    xs[b_num + 1] = 71;
    let buildings: Vec<Building> = xs.iter().map(|&x| Building { x, y: 100 }).collect();
    let mut g = Game::new(Qb::headless(640, 350), seed);
    g.last_building = buildings.len();
    g.place_gorillas(&buildings);
    assert_eq!(g.gorilla_x[0], 32);
    assert_eq!(g.gorilla_y[0], 70);
}

#[test]
fn the_same_seed_builds_the_same_city() {
    let (_, a) = built(7);
    let (_, b) = built(7);
    assert_eq!(a, b);
    let (_, c) = built(8);
    assert_ne!(a, c);
}

fn screen_hash(g: &Game) -> u64 {
    g.qb.screen
        .pixels
        .iter()
        .fold(0xcbf2_9ce4_8422_2325, |h, &p| {
            (h ^ p as u64).wrapping_mul(0x0100_0000_01b3)
        })
}

#[test]
fn known_seeds_still_build_the_same_cities() {
    type Case = (u64, i32, u64, &'static [(i32, i32)]);
    let cases: [Case; 7] = [
        (1, 10, 0x74ca_015a_9e5d_e4ad, &[(2, 231), (54, 282), (96, 187), (160, 196), (202, 238), (261, 255), (319, 223), (394, 234), (450, 215), (491, 151), (536, 107), (601, 109)]),
        (16, 4, 0xf02e_68bd_3b02_2833, &[(2, 96), (77, 125), (122, 198), (177, 145), (239, 237), (311, 185), (355, 236), (426, 284), (469, 179), (515, 285), (557, 286), (607, 261)]),
        (7, -1, 0x99c4_946d_3ac5_da83, &[(2, 229), (57, 208), (128, 186), (168, 154), (225, 141), (292, 159), (340, 202), (406, 235), (463, 208), (510, 202), (580, 262)]),
        (19, -2, 0xbf94_3a51_5841_0abf, &[(2, 204), (63, 175), (131, 255), (204, 127), (253, 187), (326, 122), (389, 142), (460, 231), (531, 282), (579, 311)]),
        (10, 3, 0x308e_ac7d_b4ae_c771, &[(2, 252), (44, 214), (93, 174), (133, 229), (191, 137), (267, 144), (314, 68), (375, 183), (416, 142), (471, 168), (526, 151), (586, 186)]),
        (5, 5, 0xeefe_f4c4_973b_6820, &[(2, 161), (72, 160), (129, 127), (187, 148), (249, 161), (296, 167), (347, 154), (407, 109), (454, 201), (498, 155), (547, 111), (597, 195)]),
        (17, -9, 0x34fd_4fbc_1e9e_bcfc, &[(2, 233), (61, 245), (132, 236), (185, 126), (261, 154), (324, 175), (387, 186), (461, 234), (520, 287), (574, 248), (615, 300)]),
    ];
    for (seed, wind, hash, roofs) in cases {
        let (g, b) = built(seed);
        let got: Vec<(i32, i32)> = b.iter().map(|b| (b.x, b.y)).collect();
        assert_eq!(got, roofs, "seed {seed} roofs");
        assert_eq!(g.wind, wind, "seed {seed} wind");
        assert_eq!(screen_hash(&g), hash, "seed {seed} picture");
    }
}

#[test]
fn a_building_is_never_lower_than_ht_inc() {
    let (_, b) = built(694);
    assert_eq!(b.last().unwrap().y, 325);
}

#[test]
fn two_hundred_seeds_still_build_the_same_cities() {
    let digest = (1..=200u64).fold(0u64, |d, seed| {
        let (g, _) = built(seed);
        (d ^ screen_hash(&g) ^ g.wind as u64).wrapping_mul(0x0100_0000_01b3)
    });
    assert_eq!(digest, 0x7dea_d10d_a88f_e8e5);
}

#[test]
fn a_building_with_fixed_windows_is_outlined_filled_and_lit() {
    let mut g = Game::new(Qb::headless(640, 350), 1);
    g.qb.screen.cls(9);
    g.draw_building(100, 40, 60, 5, WindowColour::Fixed(14));
    // The outline is colour 0 one pixel outside the body.
    assert_eq!(g.qb.screen.point(99, 300), 0);
    assert_eq!(g.qb.screen.point(141, 300), 0);
    assert_eq!(g.qb.screen.point(120, 274), 0);
    // The body.
    assert_eq!(g.qb.screen.point(101, 330), 5);
    // The first window column starts at x + 3, its first window at
    // BOTTOM_LINE - (height - 3).
    assert_eq!(g.qb.screen.point(103, 278), 14);
    assert_eq!(g.qb.screen.point(106, 284), 14);
    assert_eq!(g.qb.screen.point(107, 278), 5);
    // Outside is untouched.
    assert_eq!(g.qb.screen.point(50, 300), 9);
    // Fixed windows draw nothing from the generator.
    let mut fresh = Rng::new(1);
    assert_eq!(g.rng.fn_ran(1000), fresh.fn_ran(1000));
}

#[test]
fn no_wind_draws_no_arrow_and_a_wind_draws_one_the_right_length() {
    let mut g = Game::new(Qb::headless(640, 350), 1);
    g.wind = 0;
    g.draw_wind_arrow();
    assert!(g.qb.screen.pixels.iter().all(|&p| p == 0));
    g.wind = 4;
    g.draw_wind_arrow();
    assert_eq!(g.qb.screen.point(320, 345), 2);
    assert_eq!(g.qb.screen.point(344, 345), 2);
    assert_eq!(g.qb.screen.point(345, 345), 0);
    assert_eq!(g.qb.screen.point(342, 343), 2);
    assert_eq!(g.qb.screen.point(342, 347), 2);
}

#[test]
fn a_score_prints_with_a_space_each_side() {
    assert_eq!(score_text(3), " 3 ");
    assert_eq!(score_text(0), " 0 ");
    assert_eq!(score_text(12), " 12 ");
    assert_eq!(score_text(-4), "-4 ");
    assert_eq!(score_text(i32::MIN), "-2147483648 ");
}

#[test]
fn capture_pose_gets_the_gorilla_block_into_its_slot() {
    let mut g = Game::new(Qb::headless(640, 350), 1);
    g.qb.screen.pset(100, 50, 7);
    g.capture_pose(110, 60, gorillas::game::LEFTUP);
    assert_eq!((g.gor_l.w, g.gor_l.h), (30, 30));
    assert_eq!(g.gor_l.pixels.len(), 900);
    // The block starts at (110 - 15, 60 - 1) = (95, 59), so (100, 50) lies
    // above it and the block holds only background.
    assert!(g.gor_l.pixels.iter().all(|&p| p == 0));
    // (100, 60) is column 5, row 1 of the block.
    g.qb.screen.pset(100, 60, 7);
    g.capture_pose(110, 60, gorillas::game::RIGHTUP);
    assert_eq!(g.gor_r.pixels[30 + 5], 7);
    assert_eq!(g.gor_d.w, 0);
    assert!(g.gor_l.pixels.iter().all(|&p| p == 0));
}

#[test]
fn the_same_seed_gives_the_same_mixed_sequence() {
    let args = [3, 100, -7, 1, 6, 2, 50];
    let run = |seed: u64| -> Vec<i32> {
        let mut r = Rng::new(seed);
        args.iter().map(|&x| r.fn_ran(x)).collect()
    };
    assert_eq!(run(7), run(7));
    for (v, &x) in run(7).iter().zip(args.iter()) {
        if x >= 1 {
            assert!(1 <= *v && *v <= x);
        }
    }
}

use gorillas::game::icon::{icon_rgba, BLOCK, ICON_SIZE};
use gorillas::game::{Game, OBJECTCOLOR};
use gorillas::qb::screen::ega_rgb;
use gorillas::qb::Qb;

/// The game's screen with a gorilla-coloured figure in the tile at
/// (304, 98): the GET box of a gorilla drawn at (320, 100), one pixel of
/// sky round it.
fn drawn() -> Game {
    let mut g = Game::new(Qb::headless(640, 350), 0);
    g.qb.screen_mode(9);
    g.set_screen();
    g.qb.screen.cls(0);
    g.qb.screen.line_fill(316, 100, 323, 106, OBJECTCOLOR);
    g.qb.screen.line_fill(312, 108, 327, 120, OBJECTCOLOR);
    g.qb.screen.line_fill(314, 121, 325, 128, OBJECTCOLOR);
    g
}

fn colour(g: &Game, index: usize) -> [u8; 4] {
    let c = ega_rgb(g.qb.screen.regs[index]);
    [(c >> 16) as u8, (c >> 8) as u8, c as u8, 0xFF]
}

fn pixels(icon: &[u8]) -> Vec<[u8; 4]> {
    icon.chunks(4).map(|c| [c[0], c[1], c[2], c[3]]).collect()
}

#[test]
fn the_icon_is_the_full_size() {
    let g = drawn();
    assert_eq!(icon_rgba(&g.qb.screen, 304, 98).len(), ICON_SIZE * ICON_SIZE * 4);
}

#[test]
fn each_screen_pixel_is_one_whole_block() {
    let g = drawn();
    let px = pixels(&icon_rgba(&g.qb.screen, 304, 98));
    for y in 0..ICON_SIZE {
        for x in 0..ICON_SIZE {
            let corner = (y / BLOCK * BLOCK) * ICON_SIZE + x / BLOCK * BLOCK;
            assert_eq!(
                px[y * ICON_SIZE + x],
                px[corner],
                "({x}, {y}) differs from its block"
            );
        }
    }
}

#[test]
fn a_border_of_sky_goes_all_the_way_round() {
    let g = drawn();
    let sky = colour(&g, 0);
    let px = pixels(&icon_rgba(&g.qb.screen, 304, 98));
    for y in 0..ICON_SIZE {
        for x in 0..ICON_SIZE {
            let edge = x < BLOCK || y < BLOCK || x >= ICON_SIZE - BLOCK || y >= ICON_SIZE - BLOCK;
            if edge {
                assert_eq!(px[y * ICON_SIZE + x], sky, "({x}, {y}) is not sky");
            }
        }
    }
}

#[test]
fn the_gorilla_fills_a_good_part_of_it() {
    let g = drawn();
    let gorilla = colour(&g, OBJECTCOLOR as usize);
    let px = pixels(&icon_rgba(&g.qb.screen, 304, 98));
    let count = px.iter().filter(|&&p| p == gorilla).count();
    assert!(
        count > ICON_SIZE * ICON_SIZE / 10,
        "only {count} gorilla pixels"
    );
    assert_eq!(count, (8 * 7 + 16 * 13 + 12 * 8) * BLOCK * BLOCK);
    // Screen pixel (316, 100) is tile pixel (12, 2).
    assert_eq!(px[(2 * BLOCK) * ICON_SIZE + 12 * BLOCK], gorilla);
}

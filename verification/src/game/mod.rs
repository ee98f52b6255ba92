//! GORILLAS.BAS itself: the constants of the game, the skyline, the
//! throws and the scoring.

pub mod banana;
pub mod city;
pub mod decimal;
pub mod icon;
pub mod intro;
pub mod play;
pub mod rng;
pub mod shot;

use vstd::prelude::*;
use crate::game::banana::{decodes, sprites, DOWN, LEFT, RIGHT, UP};
use crate::game::rng::{seeded, Rng};
use crate::qb::screen::Sprite;
use crate::qb::Qb;

verus! {

// The constants of GORILLAS.BAS, with the names it uses.
pub const HITSELF: i32 = 1;

pub const BACKATTR: u8 = 0;

pub const OBJECTCOLOR: u8 = 1;

pub const WINDOWCOLOR: u8 = 14;

pub const SUNATTR: u8 = 3;

pub const RIGHTUP: i32 = 1;

pub const LEFTUP: i32 = 2;

pub const ARMSDOWN: i32 = 3;

/// Mode 9 values from InitVars. Kept as constants rather than fields so the
/// code reads like GORILLAS.BAS, where they are set once at startup.
pub const SCR_WIDTH: i32 = 640;

pub const SCR_HEIGHT: i32 = 350;

pub const GHEIGHT: i32 = 25;

pub const SUN_HT: i32 = 39;

pub const MAX_COL: i32 = 80;

pub const MODE: i32 = 9;

/// The whole game: the QBasic machine it runs on, the generator, where the
/// gorillas stand, the wind, the captured sprites and the two colours the
/// game keeps in variables.
pub struct Game {
    pub qb: Qb,
    pub rng: Rng,
    /// Locations of the two gorillas. Index 0 is player 1.
    pub gorilla_x: [i32; 2],
    pub gorilla_y: [i32; 2],
    pub wind: i32,
    pub sun_hit: bool,
    pub last_building: usize,
    pub gor_d: Sprite,
    pub gor_l: Sprite,
    pub gor_r: Sprite,
    pub ban: [Sprite; 4],
    pub explosion_color: u8,
    pub back_color: u8,
}

/// The palette SetScreen installs over `regs`.
pub open spec fn game_palette(regs: Seq<u8>) -> Seq<u8> {
    regs.update(0, 1).update(1, 46).update(2, 44).update(3, 54).update(5, 7).update(6, 4).update(
        7,
        3,
    ).update(9, 63)
}

impl Game {
    /// A game on `qb` with the generator seeded from `seed`, nobody placed
    /// yet, no gorilla captured, and the banana decoded.
    pub fn new(qb: Qb, seed: u64) -> (g: Game)
        ensures
            g.qb == qb,
            g.rng@ == seeded(seed),
            g.gorilla_x == [0i32, 0i32],
            g.gorilla_y == [0i32, 0i32],
            g.wind == 0,
            !g.sun_hit,
            g.last_building == 0,
            g.gor_d.w == 0 && g.gor_d.h == 0 && g.gor_d.pixels@.len() == 0,
            g.gor_l.w == 0 && g.gor_l.h == 0 && g.gor_l.pixels@.len() == 0,
            g.gor_r.w == 0 && g.gor_r.h == 0 && g.gor_r.pixels@.len() == 0,
            decodes(LEFT@, g.ban[0]),
            decodes(UP@, g.ban[1]),
            decodes(DOWN@, g.ban[2]),
            decodes(RIGHT@, g.ban[3]),
            g.explosion_color == 2,
            g.back_color == 1,
    {
        Game {
            qb,
            rng: Rng::new(seed),
            gorilla_x: [0, 0],
            gorilla_y: [0, 0],
            wind: 0,
            sun_hit: false,
            last_building: 0,
            gor_d: Sprite { w: 0, h: 0, pixels: Vec::new() },
            gor_l: Sprite { w: 0, h: 0, pixels: Vec::new() },
            gor_r: Sprite { w: 0, h: 0, pixels: Vec::new() },
            ban: sprites(),
            explosion_color: 2,
            back_color: 1,
        }
    }

    /// SetScreen: the game's palette registers.
    pub fn set_screen(&mut self)
        ensures
            final(self).qb.screen.regs@ == game_palette(old(self).qb.screen.regs@),
            final(self).qb.screen.pixels == old(self).qb.screen.pixels,
            final(self).qb.screen.width == old(self).qb.screen.width,
            final(self).qb.screen.height == old(self).qb.screen.height,
            final(self).qb.text == old(self).qb.text,
            final(self).qb.rest_same(&old(self).qb),
            final(self).explosion_color == 2,
            final(self).back_color == 1,
            final(self).rng == old(self).rng,
            final(self).gorilla_x == old(self).gorilla_x,
            final(self).gorilla_y == old(self).gorilla_y,
            final(self).wind == old(self).wind,
    {
        self.explosion_color = 2;
        self.back_color = 1;
        self.qb.screen.palette(0, 1);
        self.qb.screen.palette(1, 46);
        self.qb.screen.palette(2, 44);
        self.qb.screen.palette(3, 54);
        self.qb.screen.palette(5, 7);
        self.qb.screen.palette(6, 4);
        self.qb.screen.palette(7, 3);
        self.qb.screen.palette(9, 63);
    }
}

} // verus!

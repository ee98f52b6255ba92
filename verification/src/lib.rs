//! QBasic GORILLAS: a small QBasic runtime (`qb`) and the game built on it
//! (`game`), with the drawing primitives, the random numbers and the game
//! rules stated and proved.

pub mod game;
pub mod qb;

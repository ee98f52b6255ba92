//! The app icon: the game's own gorilla with each EGA pixel scaled up to a
//! square block.

use vstd::prelude::*;
use crate::qb::screen::{lemma_offset, reg_of, rgba_spec, Screen};

verus! {

/// The icon's width and height in pixels, the largest size an `.icns` holds.
pub const ICON_SIZE: usize = 1024;

/// The gorilla's GET box is 30 pixels square. One pixel of sky on each side
/// makes a 32 pixel tile, which scales to the icon exactly.
pub const TILE: usize = 32;

/// How many icon pixels one screen pixel becomes, each way.
pub const BLOCK: usize = 32;

/// Byte `k` of the icon cut from the tile whose top left corner is
/// (left, top): icon pixel `k / 4`, at column `p % 1024` and row
/// `p / 1024`, shows screen pixel (left + column / 32, top + row / 32) in
/// its palette colour, as RGBA.
pub open spec fn icon_byte(s: Screen, left: int, top: int, k: int) -> u8 {
    let p = k / 4;
    let x = left + (p % 1024) / 32;
    let y = top + (p / 1024) / 32;
    rgba_spec(reg_of(s.regs@, s.pixel(x, y)), k % 4)
}

/// The icon as RGBA bytes, row by row: the 32 pixel tile of `screen`
/// whose top left corner is (left, top), each pixel a 32 by 32 block.
pub fn icon_rgba(screen: &Screen, left: usize, top: usize) -> (icon: Vec<u8>)
    requires
        screen.wf(),
        left + 32 <= screen.width,
        top + 32 <= screen.height,
        screen.pixels@.len() * 4 <= usize::MAX,
    ensures
        icon@.len() == ICON_SIZE * ICON_SIZE * 4,
        forall|k: int| 0 <= k < icon@.len() ==> #[trigger] icon@[k] == icon_byte(*screen, left as int, top as int, k),
{
    let mut frame: Vec<u8> = Vec::new();
    screen.to_rgba(&mut frame);
    let width: usize = screen.width as usize;
    let mut icon: Vec<u8> = Vec::new();
    let mut row: usize = 0;
    while row < ICON_SIZE
        invariant
            row <= ICON_SIZE,
            screen.wf(),
            width == screen.width,
            left + 32 <= screen.width,
            top + 32 <= screen.height,
            frame@.len() == 4 * screen.pixels@.len(),
            screen.pixels@.len() * 4 <= usize::MAX,
            forall|k: int|
                0 <= k < frame@.len() ==> #[trigger] frame@[k] == rgba_spec(reg_of(screen.regs@, screen.pixels@[k / 4]), k % 4),
            icon@.len() == 4096 * row,
            forall|k: int| 0 <= k < icon@.len() ==> #[trigger] icon@[k] == icon_byte(*screen, left as int, top as int, k),
        decreases ICON_SIZE - row,
    {
        let sy: usize = top + row / BLOCK;
        let mut col: usize = 0;
        while col < ICON_SIZE
            invariant
                row < ICON_SIZE,
                col <= ICON_SIZE,
                sy == top + row / 32,
                screen.wf(),
                width == screen.width,
                left + 32 <= screen.width,
                top + 32 <= screen.height,
                frame@.len() == 4 * screen.pixels@.len(),
                screen.pixels@.len() * 4 <= usize::MAX,
                forall|k: int|
                    0 <= k < frame@.len() ==> #[trigger] frame@[k] == rgba_spec(reg_of(screen.regs@, screen.pixels@[k / 4]), k % 4),
                icon@.len() == 4096 * row + 4 * col,
                forall|k: int| 0 <= k < icon@.len() ==> #[trigger] icon@[k] == icon_byte(*screen, left as int, top as int, k),
            decreases ICON_SIZE - col,
        {
            let sx: usize = left + col / BLOCK;
            proof {
                lemma_offset(screen.width as int, screen.height as int, sx as int, sy as int);
            }
            let i: usize = (sy * width + sx) * 4;
            let ghost p: int = 1024 * row + col;
            assert(4 * p == 4096 * row + 4 * col);
            let ghost before = icon@;
            proof {
                assert(p % 1024 == col && p / 1024 == row) by {
                    vstd::arithmetic::div_mod::lemma_fundamental_div_mod_converse(p, 1024, row as int, col as int);
                }
            }
            icon.push(frame[i]);
            icon.push(frame[i + 1]);
            icon.push(frame[i + 2]);
            icon.push(frame[i + 3]);
            proof {
                assert forall|k: int| 0 <= k < icon@.len() implies #[trigger] icon@[k] == icon_byte(*screen, left as int, top as int, k) by {
                    if k < before.len() {
                        assert(icon@[k] == before[k]);
                    } else {
                        let j = k - 4 * p;
                        assert(0 <= j < 4);
                        assert(k / 4 == p && k % 4 == j);
                        assert(icon@[k] == frame@[i + j]);
                        assert((i + j) / 4 == sy * width + sx && (i + j) % 4 == j);
                    }
                }
            }
            col = col + 1;
        }
        row = row + 1;
    }
    icon
}

/// Each screen pixel is one whole block of the icon: every icon pixel
/// shows what the top left pixel of its 32 by 32 block shows.
pub proof fn law_icon_pixel_is_its_block(s: Screen, left: int, top: int, x: int, y: int, j: int)
    requires
        0 <= x < 1024,
        0 <= y < 1024,
        0 <= j < 4,
    ensures
        icon_byte(s, left, top, 4 * (1024 * y + x) + j) == icon_byte(
            s,
            left,
            top,
            4 * (1024 * (y / 32 * 32) + x / 32 * 32) + j,
        ),
{
    let p = 1024 * y + x;
    let q = 1024 * (y / 32 * 32) + x / 32 * 32;
    assert(0 <= x / 32 * 32 <= x);
    assert(0 <= y / 32 * 32 <= y);
    vstd::arithmetic::div_mod::lemma_fundamental_div_mod_converse(p, 1024, y, x);
    vstd::arithmetic::div_mod::lemma_fundamental_div_mod_converse(q, 1024, y / 32 * 32, x / 32 * 32);
    assert((4 * p + j) / 4 == p && (4 * p + j) % 4 == j);
    assert((4 * q + j) / 4 == q && (4 * q + j) % 4 == j);
    assert((x / 32 * 32) / 32 == x / 32);
    assert((y / 32 * 32) / 32 == y / 32);
}

} // verus!

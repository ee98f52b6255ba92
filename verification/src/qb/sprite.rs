//! GET and PUT: copying a block of the screen out, and stamping it back.

use vstd::prelude::*;
use crate::qb::screen::{
    lemma_offset, lemma_plot_at, lemma_same_pixels, offset, on_screen, pixel_spec, plot, PutMode,
    Screen, Sprite,
};

verus! {

/// The pixels GET captures from the `sw` by `sh` block whose top left
/// corner is (x0, y0), row by row; off-screen pixels read as background.
pub open spec fn get_spec(
    pixels: Seq<u8>,
    w: int,
    h: int,
    x0: int,
    y0: int,
    sw: int,
    sh: int,
) -> Seq<u8> {
    Seq::new((sw * sh) as nat, |i: int| pixel_spec(pixels, w, h, x0 + i % sw, y0 + i / sw))
}

/// The pixel PUT leaves at on-screen (px, py) when the sprite's corner is
/// at (x, y): the sprite's pixel, or the old one exclusive-or'd with it,
/// inside the sprite; the old one outside it.
pub open spec fn put_pixel(
    pixels: Seq<u8>,
    w: int,
    x: int,
    y: int,
    sw: int,
    sh: int,
    src: Seq<u8>,
    mode: PutMode,
    px: int,
    py: int,
) -> u8 {
    let old = pixels[offset(w, px, py)];
    if x <= px < x + sw && y <= py < y + sh {
        let s = src[offset(sw, px - x, py - y)];
        match mode {
            PutMode::Pset => s,
            PutMode::Xor => old ^ s,
        }
    } else {
        old
    }
}

/// The framebuffer after PUT (x, y), sprite, mode.
pub open spec fn put_spec(
    pixels: Seq<u8>,
    w: int,
    x: int,
    y: int,
    sw: int,
    sh: int,
    src: Seq<u8>,
    mode: PutMode,
) -> Seq<u8> {
    Seq::new(pixels.len(), |i: int| put_pixel(pixels, w, x, y, sw, sh, src, mode, i % w, i / w))
}

proof fn lemma_put_spec_at(
    pixels: Seq<u8>,
    w: int,
    h: int,
    x: int,
    y: int,
    sw: int,
    sh: int,
    src: Seq<u8>,
    mode: PutMode,
    px: int,
    py: int,
)
    requires
        pixels.len() == w * h,
        on_screen(w, h, px, py),
    ensures
        put_spec(pixels, w, x, y, sw, sh, src, mode)[offset(w, px, py)] == put_pixel(
            pixels,
            w,
            x,
            y,
            sw,
            sh,
            src,
            mode,
            px,
            py,
        ),
{
    lemma_offset(w, h, px, py);
}

/// A sprite lies inside the sprite's own pixel buffer at each of its
/// positions.
proof fn lemma_sprite_offset(sw: int, sh: int, sx: int, sy: int)
    requires
        0 <= sx < sw,
        0 <= sy < sh,
    ensures
        0 <= offset(sw, sx, sy) < sw * sh,
        offset(sw, sx, sy) % sw == sx,
        offset(sw, sx, sy) / sw == sy,
{
    lemma_offset(sw, sh, sx, sy);
}


impl Screen {
    /// GET (x1,y1)-(x2,y2): the block with those corners, taken in either
    /// order, row by row; off-screen pixels read as background.
    pub fn get(&self, x1: i32, y1: i32, x2: i32, y2: i32) -> (s: Sprite)
        requires
            self.wf(),
            (if x1 <= x2 { x2 - x1 } else { x1 - x2 }) + 1 <= i32::MAX,
            ((if x1 <= x2 { x2 - x1 } else { x1 - x2 }) + 1) * ((if y1 <= y2 {
                y2 - y1
            } else {
                y1 - y2
            }) + 1) <= i32::MAX,
        ensures
            s.wf(),
            s.w == (if x1 <= x2 { x2 - x1 } else { x1 - x2 }) + 1,
            s.h == (if y1 <= y2 { y2 - y1 } else { y1 - y2 }) + 1,
            s.pixels@ == get_spec(
                self.pixels@,
                self.width as int,
                self.height as int,
                if x1 <= x2 { x1 as int } else { x2 as int },
                if y1 <= y2 { y1 as int } else { y2 as int },
                s.w as int,
                s.h as int,
            ),
    {
        let lo_x: i32 = if x1 <= x2 { x1 } else { x2 };
        let lo_y: i32 = if y1 <= y2 { y1 } else { y2 };
        let ghost ghx: int = if x1 >= x2 { x1 as int } else { x2 as int };
        let ghost ghy: int = if y1 >= y2 { y1 as int } else { y2 as int };
        assert((ghy - lo_y + 1) <= (ghx - lo_x + 1) * (ghy - lo_y + 1)) by (nonlinear_arith)
            requires
                ghx - lo_x + 1 >= 1,
                ghy - lo_y + 1 >= 1,
        ;
        let w: i32 = (if x1 <= x2 { x2 - x1 } else { x1 - x2 }) + 1;
        let h: i32 = (if y1 <= y2 { y2 - y1 } else { y1 - y2 }) + 1;
        let ghost target = get_spec(
            self.pixels@,
            self.width as int,
            self.height as int,
            lo_x as int,
            lo_y as int,
            w as int,
            h as int,
        );
        let mut pixels: Vec<u8> = Vec::with_capacity((w * h) as usize);
        let mut row: i32 = 0;
        while row < h
            invariant
                self.wf(),
                0 <= row <= h,
                1 <= w,
                1 <= h,
                w * h <= i32::MAX,
                lo_x + w - 1 <= i32::MAX,
                lo_y + h - 1 <= i32::MAX,
                target == get_spec(
                    self.pixels@,
                    self.width as int,
                    self.height as int,
                    lo_x as int,
                    lo_y as int,
                    w as int,
                    h as int,
                ),
                pixels@ == target.subrange(0, row * w),
            decreases h - row,
        {
            assert((row + 1) * w <= h * w) by (nonlinear_arith)
                requires
                    row + 1 <= h,
                    w >= 1,
            ;
            assert((row + 1) * w == row * w + w) by (nonlinear_arith);
            let mut col: i32 = 0;
            while col < w
                invariant
                    self.wf(),
                    0 <= row < h,
                    0 <= col <= w,
                    1 <= w,
                    w * h <= i32::MAX,
                    (row + 1) * w <= h * w,
                    (row + 1) * w == row * w + w,
                    lo_x + w - 1 <= i32::MAX,
                    lo_y + h - 1 <= i32::MAX,
                    target == get_spec(
                        self.pixels@,
                        self.width as int,
                        self.height as int,
                        lo_x as int,
                        lo_y as int,
                        w as int,
                        h as int,
                    ),
                    pixels@ == target.subrange(0, row * w + col),
                decreases w - col,
            {
                proof {
                    lemma_sprite_offset(w as int, h as int, col as int, row as int);
                    assert(offset(w as int, col as int, row as int) == row * w + col);
                }
                let v: u8 = self.pixel_at(lo_x + col, lo_y + row);
                pixels.push(v);
                assert(pixels@ =~= target.subrange(0, row * w + col + 1));
                col = col + 1;
            }
            row = row + 1;
        }
        assert(row * w == w * h) by (nonlinear_arith)
            requires
                row == h,
        ;
        assert(pixels@ =~= target);
        Sprite { w, h, pixels }
    }

    /// PUT (x, y), sprite, PSET or XOR: stamp the sprite with its top left
    /// corner at (x, y), clipped to the screen. The banana is erased by
    /// drawing it a second time with XOR, so the exclusive or is on the
    /// palette index rather than the colour.
    pub fn put(&mut self, x: i32, y: i32, s: &Sprite, mode: PutMode)
        requires
            old(self).wf(),
            s.wf(),
            s.w == 0 || s.h == 0 || (x + s.w - 1 <= i32::MAX && y + s.h - 1 <= i32::MAX),
        ensures
            final(self).wf(),
            final(self).width == old(self).width,
            final(self).height == old(self).height,
            final(self).regs == old(self).regs,
            final(self).pixels@ == put_spec(
                old(self).pixels@,
                old(self).width as int,
                x as int,
                y as int,
                s.w as int,
                s.h as int,
                s.pixels@,
                mode,
            ),
    {
        let ghost ww = self.width as int;
        let ghost hh = self.height as int;
        let ghost old_pixels = self.pixels@;
        let mut sy: i32 = 0;
        while sy < s.h
            invariant
                self.wf(),
                self.width == ww,
                self.height == hh,
                self.regs == old(self).regs,
                old_pixels.len() == ww * hh,
                s.wf(),
                0 <= sy <= s.h,
                s.w == 0 || s.h == 0 || (x + s.w - 1 <= i32::MAX && y + s.h - 1 <= i32::MAX),
                forall|px: int, py: int|
                    on_screen(ww, hh, px, py) ==> #[trigger] self.pixels@[offset(ww, px, py)] == if py
                        < y + sy {
                        put_pixel(old_pixels, ww, x as int, y as int, s.w as int, s.h as int, s.pixels@, mode, px, py)
                    } else {
                        old_pixels[offset(ww, px, py)]
                    },
            decreases s.h - sy,
        {
            let mut sx: i32 = 0;
            while sx < s.w
                invariant
                    self.wf(),
                    self.width == ww,
                    self.height == hh,
                    self.regs == old(self).regs,
                    old_pixels.len() == ww * hh,
                    s.wf(),
                    0 <= sy < s.h,
                    0 <= sx <= s.w,
                    s.w == 0 || (x + s.w - 1 <= i32::MAX && y + s.h - 1 <= i32::MAX),
                    forall|px: int, py: int|
                        on_screen(ww, hh, px, py) ==> #[trigger] self.pixels@[offset(ww, px, py)]
                            == if py < y + sy || (py == y + sy && px < x + sx) {
                            put_pixel(old_pixels, ww, x as int, y as int, s.w as int, s.h as int, s.pixels@, mode, px, py)
                        } else {
                            old_pixels[offset(ww, px, py)]
                        },
                decreases s.w - sx,
            {
                let dx: i32 = x + sx;
                let dy: i32 = y + sy;
                let ghost before = self.pixels@;
                if self.in_bounds(dx, dy) {
                    proof {
                        lemma_sprite_offset(s.w as int, s.h as int, sx as int, sy as int);
                        lemma_offset(ww, hh, dx as int, dy as int);
                    }
                    let src: u8 = s.pixels[(sy * s.w + sx) as usize];
                    let i: i32 = dy * self.width + dx;
                    let v: u8 = match mode {
                        PutMode::Pset => src,
                        PutMode::Xor => self.pixels[i as usize] ^ src,
                    };
                    proof {
                        lemma_plot_at(before, ww, hh, dx as int, dy as int, v);
                    }
                    self.pixels[i as usize] = v;
                    assert(self.pixels@ == plot(before, ww, hh, dx as int, dy as int, v));
                }
                sx = sx + 1;
            }
            sy = sy + 1;
        }
        let ghost target = put_spec(
            old_pixels,
            ww,
            x as int,
            y as int,
            s.w as int,
            s.h as int,
            s.pixels@,
            mode,
        );
        assert forall|px: int, py: int| on_screen(ww, hh, px, py) implies #[trigger] self.pixels@[offset(
            ww,
            px,
            py,
        )] == target[offset(ww, px, py)] by {
            lemma_put_spec_at(old_pixels, ww, hh, x as int, y as int, s.w as int, s.h as int, s.pixels@, mode, px, py);
        }
        proof {
            lemma_same_pixels(self.pixels@, target, ww, hh);
        }
    }
}

/// Exclusive-or'ing the same sprite onto the same place twice restores
/// what was underneath: how the banana is erased as it flies.
pub proof fn law_xor_put_twice_restores(
    pixels: Seq<u8>,
    w: int,
    h: int,
    x: int,
    y: int,
    sw: int,
    sh: int,
    src: Seq<u8>,
)
    requires
        pixels.len() == w * h,
        0 <= w,
        0 <= h,
    ensures
        put_spec(
            put_spec(pixels, w, x, y, sw, sh, src, PutMode::Xor),
            w,
            x,
            y,
            sw,
            sh,
            src,
            PutMode::Xor,
        ) == pixels,
{
    let once = put_spec(pixels, w, x, y, sw, sh, src, PutMode::Xor);
    let twice = put_spec(once, w, x, y, sw, sh, src, PutMode::Xor);
    assert forall|px: int, py: int| on_screen(w, h, px, py) implies #[trigger] twice[offset(
        w,
        px,
        py,
    )] == pixels[offset(w, px, py)] by {
        lemma_put_spec_at(pixels, w, h, x, y, sw, sh, src, PutMode::Xor, px, py);
        lemma_put_spec_at(once, w, h, x, y, sw, sh, src, PutMode::Xor, px, py);
        let a = pixels[offset(w, px, py)];
        if x <= px < x + sw && y <= py < y + sh {
            let b = src[offset(sw, px - x, py - y)];
            assert((a ^ b) ^ b == a) by (bit_vector);
        }
    }
    lemma_same_pixels(twice, pixels, w, h);
}

/// PUT with PSET of what GET captured, at the same place, changes nothing
/// when the block lies on the screen.
pub proof fn law_get_then_put_restores(
    pixels: Seq<u8>,
    w: int,
    h: int,
    x0: int,
    y0: int,
    sw: int,
    sh: int,
)
    requires
        pixels.len() == w * h,
        0 <= w,
        0 <= h,
        0 < sw,
        0 < sh,
        0 <= x0,
        0 <= y0,
        x0 + sw <= w,
        y0 + sh <= h,
    ensures
        put_spec(
            pixels,
            w,
            x0,
            y0,
            sw,
            sh,
            get_spec(pixels, w, h, x0, y0, sw, sh),
            PutMode::Pset,
        ) == pixels,
{
    let g = get_spec(pixels, w, h, x0, y0, sw, sh);
    let p = put_spec(pixels, w, x0, y0, sw, sh, g, PutMode::Pset);
    assert forall|px: int, py: int| on_screen(w, h, px, py) implies #[trigger] p[offset(w, px, py)]
        == pixels[offset(w, px, py)] by {
        lemma_put_spec_at(pixels, w, h, x0, y0, sw, sh, g, PutMode::Pset, px, py);
        if x0 <= px < x0 + sw && y0 <= py < y0 + sh {
            lemma_sprite_offset(sw, sh, px - x0, py - y0);
        }
    }
    lemma_same_pixels(p, pixels, w, h);
}

} // verus!

//! The framebuffer and the drawing primitives.

use vstd::prelude::*;

verus! {

/// The palette registers an EGA holds after a mode set, in index order.
pub const DEFAULT_REGS: [u8; 16] = [
    0x00u8, 0x01u8, 0x02u8, 0x03u8, 0x04u8, 0x05u8, 0x14u8, 0x07u8, 0x38u8, 0x39u8, 0x3Au8,
    0x3Bu8, 0x3Cu8, 0x3Du8, 0x3Eu8, 0x3Fu8,
];

/// Bit `k` of `v`.
pub open spec fn bit(v: u8, k: nat) -> int {
    ((v as int) / (vstd::arithmetic::power2::pow2(k) as int)) % 2
}

/// One channel of an EGA colour: (primary * 2 + secondary) * 85.
pub open spec fn channel(primary: int, secondary: int) -> int {
    (primary * 2 + secondary) * 85
}

/// The opaque ARGB colour of EGA colour number `reg`. The six bits are
/// r g b R G B from bit 5 down to bit 0, where the capitals are primary.
pub open spec fn ega_rgb_spec(reg: u8) -> u32 {
    (0xFF00_0000int
        + channel(bit(reg, 2), bit(reg, 5)) * 0x1_0000
        + channel(bit(reg, 1), bit(reg, 4)) * 0x100
        + channel(bit(reg, 0), bit(reg, 3))) as u32
}

/// An EGA colour number as an opaque ARGB value.
pub fn ega_rgb(reg: u8) -> (c: u32)
    ensures
        c == ega_rgb_spec(reg),
{
    proof {
        lemma_bits_of_u8(reg);
    }
    let r: u8 = ((reg >> 2u8) & 1) * 2 + ((reg >> 5u8) & 1);
    let g: u8 = ((reg >> 1u8) & 1) * 2 + ((reg >> 4u8) & 1);
    let b: u8 = (reg & 1) * 2 + ((reg >> 3u8) & 1);
    let rr: u32 = r as u32 * 85;
    let gg: u32 = g as u32 * 85;
    let bb: u32 = b as u32 * 85;
    assert(rr <= 255 && gg <= 255 && bb <= 255);
    let c: u32 = 0xFF00_0000u32 | (rr << 16u32) | (gg << 8u32) | bb;
    assert(c == 0xFF00_0000u32 + rr * 0x1_0000 + gg * 0x100 + bb) by (bit_vector)
        requires
            c == 0xFF00_0000u32 | (rr << 16u32) | (gg << 8u32) | bb,
            rr <= 255,
            gg <= 255,
            bb <= 255,
    ;
    c
}

proof fn lemma_bits_of_u8(reg: u8)
    ensures

        (reg >> 1u8) & 1 == bit(reg, 1),
        (reg >> 2u8) & 1 == bit(reg, 2),
        (reg >> 3u8) & 1 == bit(reg, 3),
        (reg >> 4u8) & 1 == bit(reg, 4),
        (reg >> 5u8) & 1 == bit(reg, 5),
        reg & 1 <= 1,
        reg & 1 == bit(reg, 0),
        (reg >> 1u8) & 1 <= 1,
        (reg >> 2u8) & 1 <= 1,
        (reg >> 3u8) & 1 <= 1,
        (reg >> 4u8) & 1 <= 1,
        (reg >> 5u8) & 1 <= 1,
{
    vstd::arithmetic::power2::lemma2_to64();
    assert(reg & 1 == (reg / 1) % 2) by (bit_vector);
    assert((reg >> 1u8) & 1 == (reg / 2) % 2) by (bit_vector);
    assert((reg >> 2u8) & 1 == (reg / 4) % 2) by (bit_vector);
    assert((reg >> 3u8) & 1 == (reg / 8) % 2) by (bit_vector);
    assert((reg >> 4u8) & 1 == (reg / 16) % 2) by (bit_vector);
    assert((reg >> 5u8) & 1 == (reg / 32) % 2) by (bit_vector);
    assert(reg & 1 <= 1 && (reg >> 1u8) & 1 <= 1 && (reg >> 2u8) & 1 <= 1) by (bit_vector);
    assert((reg >> 3u8) & 1 <= 1 && (reg >> 4u8) & 1 <= 1 && (reg >> 5u8) & 1 <= 1) by (bit_vector);
}

} // verus!

verus! {

/// Whether (x, y) lies on a `w` by `h` framebuffer.
pub open spec fn on_screen(w: int, h: int, x: int, y: int) -> bool {
    0 <= x < w && 0 <= y < h
}

/// Where pixel (x, y) sits in a row-major framebuffer `w` wide.
pub open spec fn offset(w: int, x: int, y: int) -> int {
    y * w + x
}

/// The framebuffer after one pixel write, which is dropped off the screen.
pub open spec fn plot(pixels: Seq<u8>, w: int, h: int, x: int, y: int, c: u8) -> Seq<u8> {
    if on_screen(w, h, x, y) {
        pixels.update(offset(w, x, y), c)
    } else {
        pixels
    }
}

/// A raw read that treats everything off the screen as background.
pub open spec fn pixel_spec(pixels: Seq<u8>, w: int, h: int, x: int, y: int) -> u8 {
    if on_screen(w, h, x, y) {
        pixels[offset(w, x, y)]
    } else {
        0
    }
}

/// POINT: the palette index on the screen, and -1 off it.
pub open spec fn point_spec(pixels: Seq<u8>, w: int, h: int, x: int, y: int) -> i32 {
    if on_screen(w, h, x, y) {
        pixels[offset(w, x, y)] as i32
    } else {
        -1i32
    }
}

/// Every on-screen pixel has its own offset, inside the buffer.
pub proof fn lemma_offset(w: int, h: int, x: int, y: int)
    requires
        on_screen(w, h, x, y),
    ensures
        0 <= offset(w, x, y) < w * h,
        offset(w, x, y) % w == x,
        offset(w, x, y) / w == y,
{
    assert(0 <= y * w <= (h - 1) * w) by (nonlinear_arith)
        requires
            0 <= y < h,
            0 < w,
    ;
    assert((h - 1) * w + w == w * h) by (nonlinear_arith);
    vstd::arithmetic::div_mod::lemma_fundamental_div_mod_converse(y * w + x, w, y, x);
}

/// Two on-screen pixels share an offset only when they are the same pixel.
pub proof fn lemma_offset_injective(w: int, h: int, x1: int, y1: int, x2: int, y2: int)
    requires
        on_screen(w, h, x1, y1),
        on_screen(w, h, x2, y2),
        offset(w, x1, y1) == offset(w, x2, y2),
    ensures
        x1 == x2 && y1 == y2,
{
    lemma_offset(w, h, x1, y1);
    lemma_offset(w, h, x2, y2);
}

/// Every offset of the buffer is some on-screen pixel.
pub proof fn lemma_offset_onto(w: int, h: int, i: int)
    requires
        0 <= i < w * h,
        0 < w,
    ensures
        on_screen(w, h, i % w, i / w),
        offset(w, i % w, i / w) == i,
{
    vstd::arithmetic::div_mod::lemma_fundamental_div_mod(i, w);
    vstd::arithmetic::mul::lemma_mul_is_commutative(w, i / w);
    vstd::arithmetic::div_mod::lemma_div_pos_is_pos(i, w);
    vstd::arithmetic::div_mod::lemma_mod_pos_bound(i, w);
    if i / w >= h {
        assert(w * (i / w) >= w * h) by (nonlinear_arith)
            requires
                i / w >= h,
                w > 0,
        ;
    }
}

/// The palette indexed framebuffer: `width` by `height` pixels, one byte
/// each, row by row, and the sixteen EGA palette registers.
pub struct Screen {
    pub width: i32,
    pub height: i32,
    pub pixels: Vec<u8>,
    pub regs: [u8; 16],
}

/// A block of pixels captured by GET, `w` by `h`, row by row.
#[derive(Clone, Debug, PartialEq, Eq)]
pub struct Sprite {
    pub w: i32,
    pub h: i32,
    pub pixels: Vec<u8>,
}

/// How PUT combines a sprite with the screen.
#[derive(Clone, Copy, Debug, PartialEq, Eq)]
pub enum PutMode {
    Pset,
    Xor,
}

impl Sprite {
    /// The pixel count matches the dimensions, and fits the index type.
    pub open spec fn wf(&self) -> bool {
        &&& 0 <= self.w
        &&& 0 <= self.h
        &&& self.pixels.len() == self.w * self.h
        &&& self.w * self.h <= i32::MAX
    }
}

impl Screen {
    /// The pixel count matches the dimensions, and fits the index type.
    pub open spec fn wf(&self) -> bool {
        &&& 0 <= self.width
        &&& 0 <= self.height
        &&& self.pixels.len() == self.width * self.height
        &&& self.width * self.height <= i32::MAX
    }

    /// The pixel at (x, y), with the off-screen ones reading as background.
    pub open spec fn pixel(&self, x: int, y: int) -> u8 {
        pixel_spec(self.pixels@, self.width as int, self.height as int, x, y)
    }

    /// A blank framebuffer with the default palette.
    pub fn new(width: i32, height: i32) -> (s: Screen)
        requires
            0 <= width,
            0 <= height,
            width * height <= i32::MAX,
        ensures
            s.wf(),
            s.width == width,
            s.height == height,
            s.regs@ == DEFAULT_REGS@,
            forall|i: int| 0 <= i < s.pixels@.len() ==> s.pixels@[i] == 0,
    {
        assert(0 <= width * height) by (nonlinear_arith)
            requires
                0 <= width,
                0 <= height,
        ;
        let n: i32 = width * height;
        let pixels: Vec<u8> = vec![0u8; n as usize];
        Screen { width, height, pixels, regs: DEFAULT_REGS }
    }

    /// Whether (x, y) is on the screen.
    pub fn in_bounds(&self, x: i32, y: i32) -> (b: bool)
        ensures
            b == on_screen(self.width as int, self.height as int, x as int, y as int),
    {
        x >= 0 && y >= 0 && x < self.width && y < self.height
    }

    /// Fill every pixel with one colour.
    pub fn cls(&mut self, colour: u8)
        requires
            old(self).wf(),
        ensures
            final(self).wf(),
            final(self).width == old(self).width,
            final(self).height == old(self).height,
            final(self).regs == old(self).regs,
            final(self).pixels@ == Seq::new(old(self).pixels@.len(), |i: int| colour),
    {
        let n: usize = self.pixels.len();
        let mut i: usize = 0;
        while i < n
            invariant
                self.wf(),
                self.width == old(self).width,
                self.height == old(self).height,
                self.regs == old(self).regs,
                n == self.pixels.len(),
                i <= n,
                forall|j: int| 0 <= j < i ==> self.pixels@[j] == colour,
            decreases n - i,
        {
            self.pixels[i] = colour;
            i = i + 1;
        }
        assert(self.pixels@ =~= Seq::new(old(self).pixels@.len(), |i: int| colour));
    }

    /// PSET: one pixel, dropped when off the screen.
    pub fn pset(&mut self, x: i32, y: i32, c: u8)
        requires
            old(self).wf(),
        ensures
            final(self).wf(),
            final(self).width == old(self).width,
            final(self).height == old(self).height,
            final(self).regs == old(self).regs,
            final(self).pixels@ == plot(
                old(self).pixels@,
                old(self).width as int,
                old(self).height as int,
                x as int,
                y as int,
                c,
            ),
    {
        if self.in_bounds(x, y) {
            proof {
                lemma_offset(self.width as int, self.height as int, x as int, y as int);
            }
            let i: i32 = y * self.width + x;
            self.pixels[i as usize] = c;
        }
    }

    /// POINT(x, y): the palette index, or -1 outside the screen, the way
    /// QBasic does. The game's collision checks lean on the -1: a sample
    /// off the edge counts as an impact, not as sky.
    pub fn point(&self, x: i32, y: i32) -> (v: i32)
        requires
            self.wf(),
        ensures
            v == point_spec(self.pixels@, self.width as int, self.height as int, x as int, y as int),
    {
        if self.in_bounds(x, y) {
            proof {
                lemma_offset(self.width as int, self.height as int, x as int, y as int);
            }
            let i: i32 = y * self.width + x;
            self.pixels[i as usize] as i32
        } else {
            -1
        }
    }

    /// A raw framebuffer read that treats everything off the screen as the
    /// background. This is what the drawing primitives want; `point` is what
    /// the game's collision checks want.
    pub fn pixel_at(&self, x: i32, y: i32) -> (v: u8)
        requires
            self.wf(),
        ensures
            v == self.pixel(x as int, y as int),
    {
        if self.in_bounds(x, y) {
            proof {
                lemma_offset(self.width as int, self.height as int, x as int, y as int);
            }
            let i: i32 = y * self.width + x;
            self.pixels[i as usize]
        } else {
            0
        }
    }

    /// PALETTE index, reg.
    pub fn palette(&mut self, index: usize, reg: u8)
        requires
            index < 16,
        ensures
            final(self).width == old(self).width,
            final(self).height == old(self).height,
            final(self).pixels == old(self).pixels,
            final(self).regs@ == old(self).regs@.update(index as int, reg),
    {
        self.regs[index] = reg;
    }
}

} // verus!

verus! {

/// The framebuffer with every pixel for which `hit` holds set to `c`.
pub open spec fn fill_where(
    pixels: Seq<u8>,
    w: int,
    hit: spec_fn(int, int) -> bool,
    c: u8,
) -> Seq<u8> {
    Seq::new(pixels.len(), |i: int| if hit(i % w, i / w) { c } else { pixels[i] })
}

/// Pixels are determined by what each on-screen pixel holds.
pub proof fn lemma_same_pixels(a: Seq<u8>, b: Seq<u8>, w: int, h: int)
    requires
        a.len() == w * h,
        b.len() == w * h,
        0 <= w,
        0 <= h,
        forall|x: int, y: int|
            on_screen(w, h, x, y) ==> #[trigger] a[offset(w, x, y)] == b[offset(w, x, y)],
    ensures
        a == b,
{
    assert forall|i: int| 0 <= i < a.len() implies a[i] == b[i] by {
        if w > 0 {
            lemma_offset_onto(w, h, i);
            assert(a[offset(w, i % w, i / w)] == b[offset(w, i % w, i / w)]);
        } else {
            assert(w * h == 0) by (nonlinear_arith)
                requires
                    w == 0,
            ;
        }
    }
    assert(a =~= b);
}

/// What `fill_where` leaves at one on-screen pixel.
pub proof fn lemma_fill_where_at(
    pixels: Seq<u8>,
    w: int,
    h: int,
    hit: spec_fn(int, int) -> bool,
    c: u8,
    x: int,
    y: int,
)
    requires
        pixels.len() == w * h,
        on_screen(w, h, x, y),
    ensures
        fill_where(pixels, w, hit, c)[offset(w, x, y)] == if hit(x, y) {
            c
        } else {
            pixels[offset(w, x, y)]
        },
{
    lemma_offset(w, h, x, y);
}

/// A buffer that holds `c` exactly where `hit` holds, and `old` elsewhere,
/// is `fill_where(old, ..)`.
pub proof fn lemma_fill_where_ext(
    new: Seq<u8>,
    old: Seq<u8>,
    w: int,
    h: int,
    hit: spec_fn(int, int) -> bool,
    c: u8,
)
    requires
        new.len() == w * h,
        old.len() == w * h,
        0 <= w,
        0 <= h,
        forall|x: int, y: int|
            on_screen(w, h, x, y) ==> #[trigger] new[offset(w, x, y)] == if hit(x, y) {
                c
            } else {
                old[offset(w, x, y)]
            },
    ensures
        new == fill_where(old, w, hit, c),
{
    let f = fill_where(old, w, hit, c);
    assert forall|x: int, y: int| on_screen(w, h, x, y) implies #[trigger] new[offset(w, x, y)]
        == f[offset(w, x, y)] by {
        lemma_fill_where_at(old, w, h, hit, c, x, y);
    }
    lemma_same_pixels(new, f, w, h);
}

/// A write at one pixel leaves every other pixel alone.
pub proof fn lemma_plot_at(pixels: Seq<u8>, w: int, h: int, x0: int, y0: int, c: u8)
    requires
        pixels.len() == w * h,
    ensures
        plot(pixels, w, h, x0, y0, c).len() == pixels.len(),
        forall|x: int, y: int|
            on_screen(w, h, x, y) ==> #[trigger] plot(pixels, w, h, x0, y0, c)[offset(w, x, y)]
                == if x == x0 && y == y0 {
                c
            } else {
                pixels[offset(w, x, y)]
            },
{
    if on_screen(w, h, x0, y0) {
        lemma_offset(w, h, x0, y0);
    }
    assert forall|x: int, y: int| on_screen(w, h, x, y) implies #[trigger] plot(
        pixels,
        w,
        h,
        x0,
        y0,
        c,
    )[offset(w, x, y)] == if x == x0 && y == y0 {
        c
    } else {
        pixels[offset(w, x, y)]
    } by {
        lemma_offset(w, h, x, y);
        if on_screen(w, h, x0, y0) {
            lemma_offset(w, h, x0, y0);
            if offset(w, x, y) == offset(w, x0, y0) {
                lemma_offset_injective(w, h, x, y, x0, y0);
            }
        }
    }
}

/// The byte `j` of the RGBA quadruple for EGA colour number `reg`: red,
/// green, blue, then an opaque alpha.
pub open spec fn rgba_spec(reg: u8, j: int) -> u8 {
    if j == 0 {
        channel(bit(reg, 2), bit(reg, 5)) as u8
    } else if j == 1 {
        channel(bit(reg, 1), bit(reg, 4)) as u8
    } else if j == 2 {
        channel(bit(reg, 0), bit(reg, 3)) as u8
    } else {
        0xFF
    }
}

/// The palette register a pixel's low four bits select.
pub open spec fn reg_of(regs: Seq<u8>, p: u8) -> u8 {
    regs[(p % 16) as int]
}

/// The RGBA bytes are the red, green and blue bytes of the ARGB colour,
/// in that order, then an opaque alpha.
pub proof fn law_rgba_is_argb_bytes(reg: u8)
    ensures
        rgba_spec(reg, 0) == (ega_rgb_spec(reg) >> 16u32) as u8,
        rgba_spec(reg, 1) == (ega_rgb_spec(reg) >> 8u32) as u8,
        rgba_spec(reg, 2) == ega_rgb_spec(reg) as u8,
        rgba_spec(reg, 3) == 0xFFu8,
{
    lemma_bits_of_u8(reg);
    let r: int = channel(bit(reg, 2), bit(reg, 5));
    let g: int = channel(bit(reg, 1), bit(reg, 4));
    let b: int = channel(bit(reg, 0), bit(reg, 3));
    assert(0 <= r <= 255 && 0 <= g <= 255 && 0 <= b <= 255);
    let (r8, g8, b8) = (r as u32, g as u32, b as u32);
    let c: u32 = ega_rgb_spec(reg);
    assert(c == 0xFF00_0000u32 + r8 * 0x1_0000 + g8 * 0x100 + b8);
    assert((c >> 16u32) as u8 == r8 as u8 && (c >> 8u32) as u8 == g8 as u8 && c as u8 == b8 as u8)
        by (bit_vector)
        requires
            c == 0xFF00_0000u32 + r8 * 0x1_0000 + g8 * 0x100 + b8,
            r8 <= 255,
            g8 <= 255,
            b8 <= 255,
    ;
}

/// The ARGB words `to_argb` gives for a framebuffer under a palette.
pub open spec fn argb_image(regs: Seq<u8>, pixels: Seq<u8>) -> Seq<u32> {
    Seq::new(pixels.len(), |i: int| ega_rgb_spec(reg_of(regs, pixels[i])))
}

/// The RGBA bytes `to_rgba` gives for a framebuffer under a palette.
pub open spec fn rgba_image(regs: Seq<u8>, pixels: Seq<u8>) -> Seq<u8> {
    Seq::new(4 * pixels.len(), |k: int| rgba_spec(reg_of(regs, pixels[k / 4]), k % 4))
}

/// `to_rgba` matches `to_argb` byte for byte: four bytes per pixel, the
/// red, green and blue bytes of that pixel's ARGB word, then an opaque
/// alpha.
pub proof fn law_rgba_matches_argb(regs: Seq<u8>, pixels: Seq<u8>)
    ensures
        rgba_image(regs, pixels).len() == 4 * argb_image(regs, pixels).len(),
        forall|i: int|
            0 <= i < pixels.len() ==> {
                let a = #[trigger] argb_image(regs, pixels)[i];
                let b = rgba_image(regs, pixels);
                &&& b[4 * i] == (a >> 16u32) as u8
                &&& b[4 * i + 1] == (a >> 8u32) as u8
                &&& b[4 * i + 2] == a as u8
                &&& b[4 * i + 3] == 0xFFu8
            },
{
    assert forall|i: int| 0 <= i < pixels.len() implies {
        let a = #[trigger] argb_image(regs, pixels)[i];
        let b = rgba_image(regs, pixels);
        &&& b[4 * i] == (a >> 16u32) as u8
        &&& b[4 * i + 1] == (a >> 8u32) as u8
        &&& b[4 * i + 2] == a as u8
        &&& b[4 * i + 3] == 0xFFu8
    } by {
        let reg = reg_of(regs, pixels[i]);
        law_rgba_is_argb_bytes(reg);
        assert((4 * i) / 4 == i && (4 * i) % 4 == 0);
        assert((4 * i + 1) / 4 == i && (4 * i + 1) % 4 == 1);
        assert((4 * i + 2) / 4 == i && (4 * i + 2) % 4 == 2);
        assert((4 * i + 3) / 4 == i && (4 * i + 3) % 4 == 3);
    }
}

/// Where the first `n` pixels of `have` differ from `want`, in row-major
/// order, as (x, y, wanted index, index found) on a framebuffer `w` wide.
pub open spec fn differences_upto(w: int, want: Seq<u8>, have: Seq<u8>, n: nat) -> Seq<
    (int, int, u8, u8),
>
    decreases n,
{
    if n == 0 {
        Seq::empty()
    } else {
        let i = n - 1;
        let rest = differences_upto(w, want, have, i as nat);
        if want[i] != have[i] {
            rest.push((i % w, i / w, want[i], have[i]))
        } else {
            rest
        }
    }
}

pub open spec fn diff_ints(v: Seq<(i32, i32, u8, u8)>) -> Seq<(int, int, u8, u8)> {
    v.map_values(|d: (i32, i32, u8, u8)| (d.0 as int, d.1 as int, d.2, d.3))
}

impl Screen {
    /// Every pixel that differs from a capture of the same size, in
    /// row-major order, as (x, y, the capture's index, this screen's index).
    pub fn differences(&self, want: &[u8]) -> (d: Vec<(i32, i32, u8, u8)>)
        requires
            self.wf(),
            want@.len() == self.pixels@.len(),
        ensures
            diff_ints(d@) == differences_upto(
                self.width as int,
                want@,
                self.pixels@,
                self.pixels@.len(),
            ),
    {
        let n: usize = self.pixels.len();
        let w: i32 = self.width;
        let mut d: Vec<(i32, i32, u8, u8)> = Vec::new();
        let mut i: usize = 0;
        while i < n
            invariant
                self.wf(),
                w == self.width,
                n == self.pixels@.len(),
                want@.len() == n,
                i <= n,
                diff_ints(d@) == differences_upto(w as int, want@, self.pixels@, i as nat),
            decreases n - i,
        {
            let ghost before = d@;
            assert(w > 0) by (nonlinear_arith)
                requires
                    self.pixels@.len() == self.width * self.height,
                    i < self.pixels@.len(),
                    0 <= self.width,
                    0 <= self.height,
                    w == self.width,
            ;
            let a: u8 = want[i];
            let b: u8 = self.pixels[i];
            if a != b {
                let x: i32 = (i % (w as usize)) as i32;
                let y: i32 = (i / (w as usize)) as i32;
                proof {
                    vstd::arithmetic::div_mod::lemma_div_is_ordered_by_denominator(i as int, 1, w as int);
                }
                d.push((x, y, a, b));
                assert(diff_ints(d@) =~= diff_ints(before).push((i as int % w as int, i as int / w as int, a, b)));
            }
            i = i + 1;
        }
        d
    }
}

proof fn lemma_low_nibble(p: u8)
    ensures
        p & 15 == p % 16,
        p & 15 < 16,
{
    assert(p & 15 == p % 16) by (bit_vector);
}

impl Screen {
    /// The sixteen palette colours as ARGB, in index order.
    fn argb_palette(&self) -> (lut: Vec<u32>)
        ensures
            lut@.len() == 16,
            forall|i: int| 0 <= i < 16 ==> lut@[i] == ega_rgb_spec(self.regs@[i]),
    {
        let mut lut: Vec<u32> = Vec::new();
        let mut i: usize = 0;
        while i < 16
            invariant
                i <= 16,
                lut@.len() == i,
                forall|k: int| 0 <= k < i ==> lut@[k] == ega_rgb_spec(self.regs@[k]),
            decreases 16 - i,
        {
            lut.push(ega_rgb(self.regs[i]));
            i = i + 1;
        }
        lut
    }

    /// The framebuffer as opaque ARGB colours, one per pixel, through the
    /// palette registers.
    pub fn to_argb(&self, out: &mut Vec<u32>)
        ensures
            final(out)@ == argb_image(self.regs@, self.pixels@),
    {
        let lut: Vec<u32> = self.argb_palette();
        out.clear();
        out.reserve(self.pixels.len());
        let n: usize = self.pixels.len();
        let mut i: usize = 0;
        while i < n
            invariant
                i <= n,
                n == self.pixels@.len(),
                lut@.len() == 16,
                forall|k: int| 0 <= k < 16 ==> lut@[k] == ega_rgb_spec(self.regs@[k]),
                out@.len() == i,
                forall|k: int|
                    0 <= k < i ==> out@[k] == ega_rgb_spec(reg_of(self.regs@, self.pixels@[k])),
            decreases n - i,
        {
            let p: u8 = self.pixels[i];
            proof {
                lemma_low_nibble(p);
            }
            out.push(lut[(p & 15) as usize]);
            i = i + 1;
        }
        assert(out@ =~= Seq::new(
            self.pixels@.len(),
            |i: int| ega_rgb_spec(reg_of(self.regs@, self.pixels@[i])),
        ));
    }

    /// The framebuffer as RGBA bytes, which is the layout a browser canvas's
    /// `ImageData` takes: four bytes per pixel, red first.
    pub fn to_rgba(&self, out: &mut Vec<u8>)
        requires
            self.pixels@.len() * 4 <= usize::MAX,
        ensures
            final(out)@ == rgba_image(self.regs@, self.pixels@),
    {
        let lut: Vec<u32> = self.argb_palette();
        out.clear();
        out.reserve(self.pixels.len() * 4);
        let n: usize = self.pixels.len();
        let mut i: usize = 0;
        while i < n
            invariant
                i <= n,
                n == self.pixels@.len(),
                n * 4 <= usize::MAX,
                lut@.len() == 16,
                forall|k: int| 0 <= k < 16 ==> lut@[k] == ega_rgb_spec(self.regs@[k]),
                out@.len() == 4 * i,
                forall|k: int|
                    0 <= k < 4 * i ==> #[trigger] out@[k] == rgba_spec(
                        reg_of(self.regs@, self.pixels@[k / 4]),
                        k % 4,
                    ),
            decreases n - i,
        {
            let p: u8 = self.pixels[i];
            proof {
                lemma_low_nibble(p);
                law_rgba_is_argb_bytes(reg_of(self.regs@, p));
            }
            let c: u32 = lut[(p & 15) as usize];
            let ghost before = out@;
            out.push((c >> 16u32) as u8);
            out.push((c >> 8u32) as u8);
            out.push(c as u8);
            out.push(0xFFu8);
            proof {
                assert forall|k: int| 0 <= k < 4 * (i + 1) implies #[trigger] out@[k] == rgba_spec(
                    reg_of(self.regs@, self.pixels@[k / 4]),
                    k % 4,
                ) by {
                    if k < 4 * i {
                        assert(out@[k] == before[k]);
                    } else {
                        assert(k / 4 == i as int);
                    }
                }
            }
            i = i + 1;
        }
    }
}

/// POINT reads back what PSET wrote on the screen, and -1 off it, where
/// PSET writes nothing.
pub proof fn law_pset_point_round_trip(pixels: Seq<u8>, w: int, h: int, x: int, y: int, c: u8)
    requires
        pixels.len() == w * h,
    ensures
        on_screen(w, h, x, y) ==> point_spec(plot(pixels, w, h, x, y, c), w, h, x, y) == c as i32,
        !on_screen(w, h, x, y) ==> plot(pixels, w, h, x, y, c) == pixels && point_spec(
            plot(pixels, w, h, x, y, c),
            w,
            h,
            x,
            y,
        ) == -1,
{
    if on_screen(w, h, x, y) {
        lemma_offset(w, h, x, y);
    }
}

} // verus!

//! The banana's four rotations, decoded from the game's `DATA` block.

use vstd::prelude::*;
use crate::qb::screen::Sprite;

verus! {

// The four rotations as GORILLAS.BAS stores them, in its EGABanana DATA
// block, in the order left, down, up, right.
pub const LEFT: [i32; 9] = [
    458758i32, 202116096i32, 471604224i32, 943208448i32, 943208448i32, 943208448i32, 471604224i32,
    202116096i32, 0i32,
];

pub const DOWN: [i32; 9] = [
    262153i32, -2134835200i32, -2134802239i32, -2130771968i32, -2130738945i32, 8323072i32,
    8323199i32, 4063232i32, 4063294i32,
];

pub const UP: [i32; 9] = [
    262153i32, 4063232i32, 4063294i32, 8323072i32, 8323199i32, -2130771968i32, -2130738945i32,
    -2134835200i32, -2134802239i32,
];

pub const RIGHT: [i32; 9] = [
    458758i32, -1061109760i32, -522133504i32, 1886416896i32, 1886416896i32, 1886416896i32,
    -522133504i32, -1061109760i32, 0i32,
];

/// Byte k of the array, the words laid out little-endian one after another.
pub open spec fn data_byte(data: Seq<i32>, k: int) -> u8 {
    ((data[k / 4] as u32) >> ((8 * (k % 4)) as u32)) as u8
}

/// The width in the header: the low word, as a signed 16-bit number.
pub open spec fn header_w(data: Seq<i32>) -> int {
    ((data[0] as u32) as u16) as i16 as int
}

/// The height in the header: the high word, as a signed 16-bit number.
pub open spec fn header_h(data: Seq<i32>) -> int {
    (((data[0] as u32) >> 16u32) as u16) as i16 as int
}

/// The bytes one row of one plane takes: whole bytes, eight pixels each.
pub open spec fn row_bytes(w: int) -> int {
    (w + 7) / 8
}

/// Bit `p` of the palette index of pixel (x, y): bit (7 - x % 8) of the
/// byte that holds x in row y of plane p.
pub open spec fn plane_bit(data: Seq<i32>, w: int, x: int, y: int, p: int) -> u8 {
    let rb = row_bytes(w);
    let b = data_byte(data, 4 + (4 * y + p) * rb + x / 8);
    (b >> ((7 - x % 8) as u8)) & 1u8
}

/// The palette index of pixel (x, y): the four plane bits, plane 0 lowest.
pub open spec fn decoded_pixel(data: Seq<i32>, w: int, x: int, y: int) -> u8 {
    plane_bit(data, w, x, y, 0) | (plane_bit(data, w, x, y, 1) << 1u8) | (plane_bit(
        data,
        w,
        x,
        y,
        2,
    ) << 2u8) | (plane_bit(data, w, x, y, 3) << 3u8)
}

/// `s` is the sprite the GET array `data` holds.
pub open spec fn decodes(data: Seq<i32>, s: Sprite) -> bool {
    &&& s.wf()
    &&& s.w == header_w(data)
    &&& s.h == header_h(data)
    &&& forall|i: int|
        0 <= i < s.pixels@.len() ==> #[trigger] s.pixels@[i] == decoded_pixel(
            data,
            s.w as int,
            i % s.w as int,
            i / s.w as int,
        )
    &&& forall|i: int| 0 <= i < s.pixels@.len() ==> #[trigger] s.pixels@[i] < 16
}

proof fn lemma_banana_headers()
    by (bit_vector)
    ensures
        ((458758i32 as u32) as u16) as i16 == 6i16,
        (((458758i32 as u32) >> 16u32) as u16) as i16 == 7i16,
        ((262153i32 as u32) as u16) as i16 == 9i16,
        (((262153i32 as u32) >> 16u32) as u16) as i16 == 4i16,
{
}

/// The banana in its four rotations, indexed as DrawBan indexes them:
/// 0 left, 1 up, 2 down, 3 right.
pub fn sprites() -> (s: [Sprite; 4])
    ensures
        decodes(LEFT@, s[0]),
        decodes(UP@, s[1]),
        decodes(DOWN@, s[2]),
        decodes(RIGHT@, s[3]),
{
    proof {
        lemma_banana_headers();
        assert(LEFT@[0] == 458758i32 && RIGHT@[0] == 458758i32);
        assert(UP@[0] == 262153i32 && DOWN@[0] == 262153i32);
    }
    [decode(&LEFT), decode(&UP), decode(&DOWN), decode(&RIGHT)]
}

/// The array is long enough for the sprite its header describes.
pub open spec fn well_formed_get_array(data: Seq<i32>) -> bool {
    &&& data.len() >= 1
    &&& header_w(data) >= 0
    &&& header_h(data) >= 0
    &&& 4 + 4 * header_h(data) * row_bytes(header_w(data)) <= 4 * data.len()
}

proof fn lemma_low_bit(b: u8, s: u8)
    by (bit_vector)
    ensures
        (b >> s) & 1u8 <= 1,
{
}

proof fn lemma_plane_bit_small(data: Seq<i32>, w: int, x: int, y: int, p: int)
    ensures
        plane_bit(data, w, x, y, p) <= 1,
{
    let rb = row_bytes(w);
    lemma_low_bit(data_byte(data, 4 + (4 * y + p) * rb + x / 8), (7 - x % 8) as u8);
}

fn byte_at(data: &[i32], k: usize) -> (b: u8)
    requires
        k < 4 * data@.len(),
    ensures
        b == data_byte(data@, k as int),
{
    let word: u32 = data[k / 4] as u32;
    (word >> ((8 * (k % 4)) as u32)) as u8
}

/// Decode a QBasic GET array.
///
/// The first long is the header. Its low word is the width in pixels and its
/// high word is the height. Each row then holds one byte per plane for four
/// planes, in plane order 0 to 3, and the four bits combine into a palette
/// index. Rows are padded to a whole number of bytes.
pub fn decode(data: &[i32]) -> (s: Sprite)
    requires
        well_formed_get_array(data@),
        4 * data@.len() <= usize::MAX,
    ensures
        s.wf(),
        s.w == header_w(data@),
        s.h == header_h(data@),
        s.pixels@.len() == s.w * s.h,
        forall|i: int|
            0 <= i < s.pixels@.len() ==> #[trigger] s.pixels@[i] == decoded_pixel(
                data@,
                s.w as int,
                i % s.w as int,
                i / s.w as int,
            ),
        forall|i: int| 0 <= i < s.pixels@.len() ==> #[trigger] s.pixels@[i] < 16,
{
    let w0: u8 = byte_at(data, 0);
    let w1: u8 = byte_at(data, 1);
    let h0: u8 = byte_at(data, 2);
    let h1: u8 = byte_at(data, 3);
    let word: u32 = data[0] as u32;
    assert(word == data@[0] as u32);
    assert(((word as u16) as i16 as int) == ((w0 as u16 | ((w1 as u16) << 8u16)) as i16) as int)
        by (bit_vector)
        requires
            w0 == (word >> 0u32) as u8,
            w1 == (word >> 8u32) as u8,
    ;
    assert((((word >> 16u32) as u16) as i16 as int) == ((h0 as u16 | ((h1 as u16) << 8u16))
        as i16) as int) by (bit_vector)
        requires
            h0 == (word >> 16u32) as u8,
            h1 == (word >> 24u32) as u8,
    ;
    let w: i32 = (w0 as u16 | ((w1 as u16) << 8u16)) as i16 as i32;
    let h: i32 = (h0 as u16 | ((h1 as u16) << 8u16)) as i16 as i32;
    let rb: i32 = (w + 7) / 8;
    assert(w * h <= 0x7FFF * 0x7FFF) by (nonlinear_arith)
        requires
            0 <= w <= 0x7FFF,
            0 <= h <= 0x7FFF,
    ;
    let mut pixels: Vec<u8> = Vec::new();
    let mut y: i32 = 0;
    while y < h
        invariant
            0 <= y <= h,
            w == header_w(data@),
            h == header_h(data@),
            0 <= w <= 0x7FFF,
            0 <= h <= 0x7FFF,
            rb == row_bytes(w as int),
            well_formed_get_array(data@),
            4 * data@.len() <= usize::MAX,
            pixels@.len() == y * w,
            forall|i: int|
                0 <= i < pixels@.len() ==> #[trigger] pixels@[i] == decoded_pixel(
                    data@,
                    w as int,
                    i % w as int,
                    i / w as int,
                ) && pixels@[i] < 16,
        decreases h - y,
    {
        let mut x: i32 = 0;
        while x < w
            invariant
                0 <= y < h,
                0 <= x <= w,
                w == header_w(data@),
                h == header_h(data@),
                0 <= w <= 0x7FFF,
                0 <= h <= 0x7FFF,
                rb == row_bytes(w as int),
                well_formed_get_array(data@),
                4 * data@.len() <= usize::MAX,
                pixels@.len() == y * w + x,
                forall|i: int|
                    0 <= i < pixels@.len() ==> #[trigger] pixels@[i] == decoded_pixel(
                        data@,
                        w as int,
                        i % w as int,
                        i / w as int,
                    ) && pixels@[i] < 16,
            decreases w - x,
        {
            proof {
                assert(0 <= 4 + (4 * y + 3) * rb + x / 8 < 4 + 4 * h * rb) by (nonlinear_arith)
                    requires
                        0 <= y < h,
                        0 <= x < w,
                        rb == (w + 7) / 8,
                        0 <= w,
                ;
            }
            let mut index: u8 = 0;
            let mut p: i32 = 0;
            let ghost bits: Seq<u8> = Seq::new(4, |q: int| plane_bit(data@, w as int, x as int, y as int, q));
            while p < 4
                invariant
                    0 <= p <= 4,
                    0 <= y < h,
                    0 <= x < w,
                    0 <= w <= 0x7FFF,
                    0 <= h <= 0x7FFF,
                    4 * data@.len() <= usize::MAX,
                    rb == row_bytes(w as int),
                    0 <= 4 + (4 * y + 3) * rb + x / 8 < 4 + 4 * h * rb,
                    4 + 4 * header_h(data@) * rb <= 4 * data@.len(),
                    h == header_h(data@),
                    bits == Seq::new(4, |q: int| plane_bit(data@, w as int, x as int, y as int, q)),
                    index == if p == 0 {
                        0u8
                    } else if p == 1 {
                        bits[0]
                    } else if p == 2 {
                        bits[0] | (bits[1] << 1u8)
                    } else if p == 3 {
                        bits[0] | (bits[1] << 1u8) | (bits[2] << 2u8)
                    } else {
                        bits[0] | (bits[1] << 1u8) | (bits[2] << 2u8) | (bits[3] << 3u8)
                    },
                decreases 4 - p,
            {
                assert(4 + (4 * y + p) * rb + x / 8 <= 4 + (4 * y + 3) * rb + x / 8) by (nonlinear_arith)
                    requires
                        p <= 3,
                        rb >= 0,
                ;
                let k: usize = 4 + ((4 * y + p) as usize) * (rb as usize) + (x / 8) as usize;
                let b: u8 = byte_at(data, k);
                let bit: u8 = (b >> ((7 - x % 8) as u8)) & 1u8;
                assert(bit == bits[p as int]);
                let ghost old_index = index;
                if p == 0 {
                    index = index | bit;
                } else if p == 1 {
                    index = index | (bit << 1u8);
                } else if p == 2 {
                    index = index | (bit << 2u8);
                } else {
                    index = index | (bit << 3u8);
                }
                proof {
                    let b0 = bits[0];
                    assert(0u8 | b0 == b0) by (bit_vector);
                }
                p = p + 1;
            }
            proof {
                lemma_plane_bit_small(data@, w as int, x as int, y as int, 0);
                lemma_plane_bit_small(data@, w as int, x as int, y as int, 1);
                lemma_plane_bit_small(data@, w as int, x as int, y as int, 2);
                lemma_plane_bit_small(data@, w as int, x as int, y as int, 3);
                let (b0, b1, b2, b3) = (bits[0], bits[1], bits[2], bits[3]);
                assert(b0 | (b1 << 1u8) | (b2 << 2u8) | (b3 << 3u8) < 16) by (bit_vector)
                    requires
                        b0 <= 1,
                        b1 <= 1,
                        b2 <= 1,
                        b3 <= 1,
                ;
            }
            let ghost before = pixels@;
            pixels.push(index);
            proof {
                let i = before.len() as int;
                vstd::arithmetic::div_mod::lemma_fundamental_div_mod_converse(i, w as int, y as int, x as int);
                assert(pixels@[i] == decoded_pixel(data@, w as int, i % w as int, i / w as int));
                assert forall|j: int| 0 <= j < pixels@.len() implies #[trigger] pixels@[j] == decoded_pixel(
                    data@,
                    w as int,
                    j % w as int,
                    j / w as int,
                ) && pixels@[j] < 16 by {
                    if j < i {
                        assert(pixels@[j] == before[j]);
                    }
                }
            }
            x = x + 1;
        }
        assert(pixels@.len() == (y + 1) * w) by (nonlinear_arith)
            requires
                pixels@.len() == y * w + w,
        ;
        y = y + 1;
    }
    assert(pixels@.len() == w * h && w * h <= i32::MAX) by (nonlinear_arith)
        requires
            pixels@.len() == h * w,
            0 <= w <= 0x7FFF,
            0 <= h <= 0x7FFF,
    ;
    Sprite { w, h, pixels }
}

} // verus!

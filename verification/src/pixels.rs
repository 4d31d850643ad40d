//! Pixels: blending glyphs into an RGBA image and handing the image to the window.
//!
//! An image is a row-major array of pixels of four bytes each, red, green, blue
//! and alpha. A glyph is a small grey image whose bytes are coverage: how much
//! of the pixel the character covers, from 0 (none) to 255 (all). Drawing it
//! mixes the text colour into the pixels below by that coverage; the alpha byte
//! stays as it is, since the page below is opaque.
use vstd::prelude::*;

use crate::display_list::Color;

verus! {

/// A colour channel mixed into the one below by coverage `alpha`:
/// `fg * alpha + bg * (1 - alpha)`, in whole steps of 1/255.
pub open spec fn mix(fg: int, bg: int, alpha: int) -> int {
    (fg * alpha + bg * (255 - alpha)) / 255
}

/// Channel `c` (0 red, 1 green, 2 blue) of a colour.
pub open spec fn channel(color: Color, c: int) -> int {
    if c == 0 {
        color.r as int
    } else if c == 1 {
        color.g as int
    } else {
        color.b as int
    }
}

/// The position in the image's bytes of channel `c` of pixel (`x`, `y`).
pub open spec fn byte_index(width: int, x: int, y: int, c: int) -> int {
    (y * width + x) * 4 + c
}

/// Channel `c` of pixel (`x`, `y`) of an image.
pub open spec fn pixel_byte(data: Seq<u8>, width: int, x: int, y: int, c: int) -> u8 {
    data[byte_index(width, x, y, c)]
}

/// Channel `c` of pixel (`x`, `y`) once the glyph rows before `row`, and the
/// first `col` pixels of row `row`, have been drawn with the glyph's top-left
/// corner at (`left`, `top`).
pub open spec fn drawn_byte(
    before: Seq<u8>,
    width: int,
    left: int,
    top: int,
    glyph_w: int,
    glyph_h: int,
    coverage: Seq<u8>,
    color: Color,
    row: int,
    col: int,
    x: int,
    y: int,
    c: int,
) -> u8 {
    let gx = x - left;
    let gy = y - top;
    let b = pixel_byte(before, width, x, y, c);
    if 0 <= gx < glyph_w && 0 <= gy < glyph_h && c < 3 && (gy < row || (gy == row && gx < col)) {
        mix(channel(color, c), b as int, coverage[gy * glyph_w + gx] as int) as u8
    } else {
        b
    }
}

/// Channel `c` of pixel (`x`, `y`) once the whole glyph has been drawn.
pub open spec fn glyph_byte(
    before: Seq<u8>,
    width: int,
    left: int,
    top: int,
    glyph_w: int,
    glyph_h: int,
    coverage: Seq<u8>,
    color: Color,
    x: int,
    y: int,
    c: int,
) -> u8 {
    drawn_byte(before, width, left, top, glyph_w, glyph_h, coverage, color, glyph_h, 0, x, y, c)
}

/// Mixes a colour channel into the one below by coverage `alpha`.
pub fn blend(fg: u8, bg: u8, alpha: u8) -> (r: u8)
    ensures
        r == mix(fg as int, bg as int, alpha as int),
{
    let a = alpha as u32;
    let f = fg as u32;
    let b = bg as u32;
    assert(f * a + b * (255 - a) <= 255 * 255) by (nonlinear_arith)
        requires
            f <= 255,
            b <= 255,
            a <= 255,
    ;
    assert(0 <= f * a && 0 <= b * (255 - a)) by (nonlinear_arith)
        requires
            a <= 255,
    ;
    ((f * a + b * (255 - a)) / 255) as u8
}

proof fn lemma_mix_none(fg: int, bg: int)
    requires
        0 <= bg <= 255,
    ensures
        mix(fg, bg, 0) == bg,
{
    assert(fg * 0 == 0) by (nonlinear_arith);
    assert(bg * (255 - 0) == bg * 255);
}

/// A pixel inside the image has its bytes inside the image.
proof fn lemma_byte_index_bound(width: int, height: int, x: int, y: int, c: int)
    requires
        0 <= x < width,
        0 <= y < height,
        0 <= c < 4,
    ensures
        0 <= byte_index(width, x, y, c) < width * height * 4,
{
    assert(0 <= y * width) by (nonlinear_arith)
        requires
            0 <= y,
            0 <= width,
    ;
    assert(y * width + x < width * height) by (nonlinear_arith)
        requires
            0 <= x < width,
            0 <= y < height,
    ;
}

/// Different pixels and channels have different bytes.
proof fn lemma_byte_index_injective(width: int, x1: int, y1: int, c1: int, x2: int, y2: int, c2: int)
    requires
        0 <= x1 < width,
        0 <= x2 < width,
        0 <= y1,
        0 <= y2,
        0 <= c1 < 4,
        0 <= c2 < 4,
        byte_index(width, x1, y1, c1) == byte_index(width, x2, y2, c2),
    ensures
        x1 == x2,
        y1 == y2,
        c1 == c2,
{
    let k = byte_index(width, x1, y1, c1);
    vstd::arithmetic::div_mod::lemma_fundamental_div_mod_converse(k, 4, y1 * width + x1, c1);
    vstd::arithmetic::div_mod::lemma_fundamental_div_mod_converse(k, 4, y2 * width + x2, c2);
    let p = y1 * width + x1;
    assert(p == y2 * width + x2);
    assert(p == y1 * width + x1);
    vstd::arithmetic::div_mod::lemma_fundamental_div_mod_converse(p, width, y1, x1);
    vstd::arithmetic::div_mod::lemma_fundamental_div_mod_converse(p, width, y2, x2);
}

/// A glyph cell lies inside the coverage bytes.
proof fn lemma_cell_bound(glyph_w: int, glyph_h: int, gx: int, gy: int)
    requires
        0 <= gx < glyph_w,
        0 <= gy < glyph_h,
    ensures
        0 <= gy * glyph_w + gx < glyph_w * glyph_h,
{
    assert(0 <= gy * glyph_w) by (nonlinear_arith)
        requires
            0 <= gy,
            0 <= glyph_w,
    ;
    assert(gy * glyph_w + gx < glyph_w * glyph_h) by (nonlinear_arith)
        requires
            0 <= gx < glyph_w,
            0 <= gy < glyph_h,
    ;
}

/// Draws a glyph into an RGBA image of `width` by `height` pixels, with its
/// top-left corner at (`left`, `top`): each covered pixel gets the text colour
/// mixed in by its coverage (`coverage` holds the glyph's rows one after the
/// other). The parts outside the image are cut off.
pub fn blend_glyph(
    data: &mut [u8],
    width: i32,
    height: i32,
    left: i32,
    top: i32,
    glyph_w: usize,
    glyph_h: usize,
    coverage: &[u8],
    color: Color,
)
    requires
        0 <= width,
        0 <= height,
        old(data)@.len() == width * height * 4,
        coverage@.len() == glyph_w * glyph_h,
        glyph_w <= i32::MAX,
        glyph_h <= i32::MAX,
        left + glyph_w <= i32::MAX,
        top + glyph_h <= i32::MAX,
    ensures
        final(data)@.len() == old(data)@.len(),
        forall|x: int, y: int, c: int|
            0 <= x < width && 0 <= y < height && 0 <= c < 4 ==> #[trigger] pixel_byte(
                final(data)@,
                width as int,
                x,
                y,
                c,
            ) == glyph_byte(
                old(data)@,
                width as int,
                left as int,
                top as int,
                glyph_w as int,
                glyph_h as int,
                coverage@,
                color,
                x,
                y,
                c,
            ),
{
    let ghost before = data@;
    let ghost w = width as int;
    let ghost gw = glyph_w as int;
    let ghost gh = glyph_h as int;
    let cells = coverage.len();
    let len = data.len();
    let mut gy: usize = 0;
    while gy < glyph_h
        invariant
            0 <= width,
            0 <= height,
            before.len() == width * height * 4,
            data@.len() == before.len(),
            coverage@.len() == glyph_w * glyph_h,
            cells == coverage@.len(),
            len == data@.len(),
            glyph_w <= i32::MAX,
            glyph_h <= i32::MAX,
            left + glyph_w <= i32::MAX,
            top + glyph_h <= i32::MAX,
            w == width,
            gw == glyph_w,
            gh == glyph_h,
            gy <= glyph_h,
            forall|x: int, y: int, c: int|
                0 <= x < width && 0 <= y < height && 0 <= c < 4 ==> #[trigger] pixel_byte(
                    data@,
                    w,
                    x,
                    y,
                    c,
                ) == drawn_byte(
                    before,
                    w,
                    left as int,
                    top as int,
                    gw,
                    gh,
                    coverage@,
                    color,
                    gy as int,
                    0,
                    x,
                    y,
                    c,
                ),
        decreases glyph_h - gy,
    {
        let mut gx: usize = 0;
        while gx < glyph_w
            invariant
                0 <= width,
                0 <= height,
                before.len() == width * height * 4,
                data@.len() == before.len(),
                coverage@.len() == glyph_w * glyph_h,
                cells == coverage@.len(),
                len == data@.len(),
                glyph_w <= i32::MAX,
                glyph_h <= i32::MAX,
                left + glyph_w <= i32::MAX,
                top + glyph_h <= i32::MAX,
                w == width,
                gw == glyph_w,
                gh == glyph_h,
                gy < glyph_h,
                gx <= glyph_w,
                forall|x: int, y: int, c: int|
                    0 <= x < width && 0 <= y < height && 0 <= c < 4 ==> #[trigger] pixel_byte(
                        data@,
                        w,
                        x,
                        y,
                        c,
                    ) == drawn_byte(
                        before,
                        w,
                        left as int,
                        top as int,
                        gw,
                        gh,
                        coverage@,
                        color,
                        gy as int,
                        gx as int,
                        x,
                        y,
                        c,
                    ),
            decreases glyph_w - gx,
        {
            let ghost cur = data@;
            let px: i32 = left + gx as i32;
            let py: i32 = top + gy as i32;
            proof {
                lemma_cell_bound(gw, gh, gx as int, gy as int);
            }
            let cell: usize = gy * glyph_w + gx;
            let alpha = coverage[cell];
            if px < 0 || py < 0 || px >= width || py >= height || alpha == 0 {
                proof {
                    assert forall|x: int, y: int, c: int|
                        0 <= x < width && 0 <= y < height && 0 <= c < 4 implies #[trigger] pixel_byte(
                        data@,
                        w,
                        x,
                        y,
                        c,
                    ) == drawn_byte(
                        before,
                        w,
                        left as int,
                        top as int,
                        gw,
                        gh,
                        coverage@,
                        color,
                        gy as int,
                        gx + 1,
                        x,
                        y,
                        c,
                    ) by {
                        assert(pixel_byte(cur, w, x, y, c) == drawn_byte(
                            before,
                            w,
                            left as int,
                            top as int,
                            gw,
                            gh,
                            coverage@,
                            color,
                            gy as int,
                            gx as int,
                            x,
                            y,
                            c,
                        ));
                        if x == px && y == py && c < 3 {
                            lemma_byte_index_bound(w, height as int, x, y, c);
                            lemma_mix_none(channel(color, c), pixel_byte(before, w, x, y, c) as int);
                        }
                    }
                }
            } else {
                proof {
                    lemma_byte_index_bound(w, height as int, px as int, py as int, 0);
                    lemma_byte_index_bound(w, height as int, px as int, py as int, 3);
                    assert(0 <= py * width) by (nonlinear_arith)
                        requires
                            0 <= py,
                            0 <= width,
                    ;
                }
                let i: usize = (py as usize * width as usize + px as usize) * 4;
                assert(i == byte_index(w, px as int, py as int, 0));
                let r = blend(color.r, data[i], alpha);
                data[i] = r;
                let g = blend(color.g, data[i + 1], alpha);
                data[i + 1] = g;
                let b = blend(color.b, data[i + 2], alpha);
                data[i + 2] = b;
                proof {
                    assert forall|x: int, y: int, c: int|
                        0 <= x < width && 0 <= y < height && 0 <= c < 4 implies #[trigger] pixel_byte(
                        data@,
                        w,
                        x,
                        y,
                        c,
                    ) == drawn_byte(
                        before,
                        w,
                        left as int,
                        top as int,
                        gw,
                        gh,
                        coverage@,
                        color,
                        gy as int,
                        gx + 1,
                        x,
                        y,
                        c,
                    ) by {
                        assert(pixel_byte(cur, w, x, y, c) == drawn_byte(
                            before,
                            w,
                            left as int,
                            top as int,
                            gw,
                            gh,
                            coverage@,
                            color,
                            gy as int,
                            gx as int,
                            x,
                            y,
                            c,
                        ));
                        lemma_byte_index_bound(w, height as int, x, y, c);
                        let k = byte_index(w, x, y, c);
                        if x == px && y == py {
                            if c < 3 {
                                assert(k == i + c);
                            } else {
                                assert(k == i + 3);
                            }
                        } else {
                            if k == i || k == i + 1 || k == i + 2 {
                                let c2 = k - i;
                                assert(k == byte_index(w, px as int, py as int, c2));
                                lemma_byte_index_injective(w, x, y, c, px as int, py as int, c2);
                            }
                        }
                    }
                }
            }
            gx = gx + 1;
        }
        proof {
            assert forall|x: int, y: int, c: int|
                0 <= x < width && 0 <= y < height && 0 <= c < 4 implies #[trigger] pixel_byte(
                data@,
                w,
                x,
                y,
                c,
            ) == drawn_byte(
                before,
                w,
                left as int,
                top as int,
                gw,
                gh,
                coverage@,
                color,
                gy + 1,
                0,
                x,
                y,
                c,
            ) by {
                assert(pixel_byte(data@, w, x, y, c) == drawn_byte(
                    before,
                    w,
                    left as int,
                    top as int,
                    gw,
                    gh,
                    coverage@,
                    color,
                    gy as int,
                    gw,
                    x,
                    y,
                    c,
                ));
            }
        }
        gy = gy + 1;
    }
}

/// The colour of pixel `i` as the window takes it: `0x00RRGGBB`.
pub open spec fn packed(data: Seq<u8>, i: int) -> u32 {
    (data[4 * i] as int * 65536 + data[4 * i + 1] as int * 256 + data[4 * i + 2] as int) as u32
}

/// Hands an RGBA image to a window buffer that takes one `0x00RRGGBB` word per
/// pixel; the buffer's words past the image stay as they are.
pub fn copy_to_buffer(data: &[u8], buffer: &mut [u32])
    requires
        data@.len() / 4 <= old(buffer)@.len(),
    ensures
        final(buffer)@.len() == old(buffer)@.len(),
        forall|i: int| 0 <= i < data@.len() / 4 ==> #[trigger] final(buffer)@[i] == packed(data@, i),
        forall|i: int| data@.len() / 4 <= i < old(buffer)@.len() ==> #[trigger] final(buffer)@[i] == old(
            buffer,
        )@[i],
{
    let len = data.len();
    let n = len / 4;
    let mut i: usize = 0;
    while i < n
        invariant
            len == data@.len(),
            n == data@.len() / 4,
            n <= old(buffer)@.len(),
            i <= n,
            buffer@.len() == old(buffer)@.len(),
            forall|k: int| 0 <= k < i ==> #[trigger] buffer@[k] == packed(data@, k),
            forall|k: int| i <= k < old(buffer)@.len() ==> #[trigger] buffer@[k] == old(buffer)@[k],
        decreases n - i,
    {
        assert(4 * i + 3 < data@.len());
        let r = data[4 * i] as u32;
        let g = data[4 * i + 1] as u32;
        let b = data[4 * i + 2] as u32;
        buffer[i] = r * 65536 + g * 256 + b;
        i = i + 1;
    }
}

} // verus!

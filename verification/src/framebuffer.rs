//! Drawing a 16-bit BMP logo into the 240×240 RGB565 framebuffer of the display.
//!
//! The BMP header gives, little-endian, the offset of the pixel data (bytes 10..14), the width
//! (18..22) and the height (22..26). Pixel rows are stored bottom-up, two bytes per pixel,
//! `2 × width` bytes per row. The framebuffer is 240 rows of 480 bytes, top-down; the part of
//! the image that fits is copied to its top-left corner and the rest stays black (zero).
use vstd::prelude::*;
use vstd::arithmetic::div_mod::lemma_fundamental_div_mod_converse;
use vstd::arithmetic::mul::lemma_mul_inequality;

verus! {

/// Framebuffer width and height in pixels.
pub const FB_SIDE: usize = 240usize;

/// Bytes per framebuffer row.
pub const FB_STRIDE: usize = 480usize;

/// Bytes in the framebuffer.
pub const FB_BYTES: usize = 115200usize;

/// The little-endian `u32` at `off`.
pub open spec fn le_u32(buf: Seq<u8>, off: int) -> int {
    buf[off] + 256 * buf[off + 1] + 65536 * buf[off + 2] + 16777216 * buf[off + 3]
}

/// Offset of the pixel data.
pub open spec fn bmp_data_offset(buf: Seq<u8>) -> int {
    le_u32(buf, 10)
}

/// Image width in pixels.
pub open spec fn bmp_width(buf: Seq<u8>) -> int {
    le_u32(buf, 18)
}

/// Image height in pixels.
pub open spec fn bmp_height(buf: Seq<u8>) -> int {
    le_u32(buf, 22)
}

/// The smaller of two integers.
pub open spec fn min_int(a: int, b: int) -> int {
    if a < b {
        a
    } else {
        b
    }
}

/// Rows of the image that reach the framebuffer.
pub open spec fn shown_rows(buf: Seq<u8>) -> int {
    min_int(240, bmp_height(buf))
}

/// Columns of the image that reach the framebuffer.
pub open spec fn shown_cols(buf: Seq<u8>) -> int {
    min_int(240, bmp_width(buf))
}

/// The BMP can be drawn: its header is there, the pixel data offset lies in the file, every
/// pixel that is copied lies in the file, and a row's byte count fits in `usize`.
pub open spec fn bmp_drawable(buf: Seq<u8>) -> bool {
    &&& buf.len() >= 26
    &&& bmp_data_offset(buf) <= buf.len()
    &&& 2 * bmp_width(buf) <= usize::MAX
    &&& shown_rows(buf) > 0 && shown_cols(buf) > 0 ==> bmp_data_offset(buf) + (bmp_height(buf)
        - 1) * (2 * bmp_width(buf)) + 2 * shown_cols(buf) <= buf.len()
}

/// Where in the file the byte for framebuffer row `y`, column `x`, half `k` is read.
pub open spec fn source_index(buf: Seq<u8>, y: int, x: int, k: int) -> int {
    bmp_data_offset(buf) + (bmp_height(buf) - 1 - y) * (2 * bmp_width(buf)) + 2 * x + k
}

/// The framebuffer byte at row `y`, column `x`, half `k`: the image's pixel byte when the
/// pixel is inside the image, zero otherwise.
pub open spec fn framebuffer_byte(buf: Seq<u8>, y: int, x: int, k: int) -> u8 {
    if y < shown_rows(buf) && x < shown_cols(buf) {
        buf[source_index(buf, y, x, k)]
    } else {
        0
    }
}

/// The framebuffer byte at index `i`.
pub open spec fn framebuffer_at(buf: Seq<u8>, i: int) -> u8 {
    framebuffer_byte(buf, i / 480, (i % 480) / 2, i % 2)
}

/// Row, column and half of the byte `y * 480 + 2 * x + k`.
proof fn lemma_cell(y: int, x: int, k: int)
    requires
        0 <= y,
        0 <= x < 240,
        0 <= k < 2,
    ensures
        (y * 480 + 2 * x + k) / 480 == y,
        ((y * 480 + 2 * x + k) % 480) / 2 == x,
        (y * 480 + 2 * x + k) % 2 == k,
{
    let i = y * 480 + 2 * x + k;
    lemma_fundamental_div_mod_converse(i, 480, y, 2 * x + k);
    lemma_fundamental_div_mod_converse(2 * x + k, 2, x, k);
    lemma_fundamental_div_mod_converse(i, 2, 240 * y + x, k);
}

/// Index bounds of a byte below row `y` or left of column `x` in row `y`.
proof fn lemma_before(i: int, y: int, x: int)
    requires
        0 <= i,
        0 <= y,
        0 <= x <= 240,
        i < y * 480 + 2 * x,
    ensures
        i / 480 < y || (i / 480 == y && (i % 480) / 2 < x),
{
    let q = i / 480;
    let r = i % 480;
    lemma_fundamental_div_mod_converse(i, 480, q, r);
    assert(i == q * 480 + r && 0 <= r < 480) by {
        vstd::arithmetic::div_mod::lemma_fundamental_div_mod(i, 480);
        vstd::arithmetic::div_mod::lemma_mod_bound(i, 480);
    }
    if q >= y + 1 {
        lemma_mul_inequality(y + 1, q, 480);
    }
    if q == y {
        assert((r / 2) * 2 <= r) by {
            vstd::arithmetic::div_mod::lemma_fundamental_div_mod(r, 2);
            vstd::arithmetic::div_mod::lemma_mod_bound(r, 2);
        }
    }
    if q < y {
    } else if q == y {
        assert(r < 2 * x);
    } else {
        assert(q * 480 >= (y + 1) * 480);
    }
}

/// Draw the BMP in `buf` into a new framebuffer.
pub fn bmp_to_framebuffer(buf: &Vec<u8>) -> (res: Vec<u8>)
    requires
        bmp_drawable(buf@),
    ensures
        res@.len() == 115200,
        forall|i: int| 0 <= i < 115200 ==> res@[i] == framebuffer_at(buf@, i),
{
    let data_offset = le_u32_at(buf, 10) as usize;
    let width = le_u32_at(buf, 18) as usize;
    let height = le_u32_at(buf, 22) as usize;
    assert(data_offset == bmp_data_offset(buf@));
    assert(width == bmp_width(buf@));
    assert(height == bmp_height(buf@));
    let mut framebuffer: Vec<u8> = Vec::new();
    let mut z: usize = 0;
    while z < FB_BYTES
        invariant
            z <= FB_BYTES,
            framebuffer@.len() == z,
            forall|i: int| 0 <= i < z ==> framebuffer@[i] == 0,
        decreases FB_BYTES - z,
    {
        framebuffer.push(0u8);
        z = z + 1;
    }
    let row_size = width * 2;
    let blen = buf.len();
    let mut y: usize = 0;
    while y < FB_SIDE
        invariant
            y <= 240,
            bmp_drawable(buf@),
            data_offset == bmp_data_offset(buf@),
            width == bmp_width(buf@),
            height == bmp_height(buf@),
            row_size == 2 * width,
            y <= shown_rows(buf@),
            framebuffer@.len() == 115200,
            forall|i: int|
                0 <= i < 115200 ==> framebuffer@[i] == if i < y * 480 {
                    framebuffer_at(buf@, i)
                } else {
                    0
                },
            blen == buf@.len(),
        ensures
            y == shown_rows(buf@),
            framebuffer@.len() == 115200,
            forall|i: int|
                0 <= i < 115200 ==> framebuffer@[i] == if i < y * 480 {
                    framebuffer_at(buf@, i)
                } else {
                    0
                },
        decreases 240 - y,
    {
        if y >= height {
            break;
        }
        let mut x: usize = 0;
        while x < FB_SIDE
            invariant
                y < 240,
                y < height,
                x <= 240,
                bmp_drawable(buf@),
                data_offset == bmp_data_offset(buf@),
                width == bmp_width(buf@),
                height == bmp_height(buf@),
                row_size == 2 * width,
                x <= shown_cols(buf@),
                y < shown_rows(buf@),
                framebuffer@.len() == 115200,
                forall|i: int|
                    0 <= i < 115200 ==> framebuffer@[i] == if i < y * 480 + 2 * x {
                        framebuffer_at(buf@, i)
                    } else {
                        0
                    },
                blen == buf@.len(),
            ensures
                x == shown_cols(buf@),
                framebuffer@.len() == 115200,
                forall|i: int|
                    0 <= i < 115200 ==> framebuffer@[i] == if i < y * 480 + 2 * x {
                        framebuffer_at(buf@, i)
                    } else {
                        0
                    },
            decreases 240 - x,
        {
            if x >= width {
                break;
            }
            proof {
                lemma_mul_inequality((height - 1 - y) as int, (height - 1) as int, 2 * width);
                assert(shown_cols(buf@) > 0 && shown_rows(buf@) > 0);
                assert((height - 1 - y) * (2 * width) + 2 * x + 2 <= blen - data_offset);
            }
            let bmp_index = (height - 1 - y) * row_size + x * 2;
            let lo = buf[data_offset + bmp_index];
            let hi = buf[data_offset + bmp_index + 1];
            let fb_index = y * FB_STRIDE + x * 2;
            proof {
                lemma_cell(y as int, x as int, 0);
                lemma_cell(y as int, x as int, 1);
            }
            framebuffer.set(fb_index, lo);
            framebuffer.set(fb_index + 1, hi);
            x = x + 1;
        }
        proof {
            assert forall|i: int|
                0 <= i < 115200 implies framebuffer@[i] == if i < (y + 1) * 480 {
                framebuffer_at(buf@, i)
            } else {
                0
            } by {
                if y * 480 + 2 * x <= i < (y + 1) * 480 {
                    let c = (i - y * 480) / 2;
                    let k = (i - y * 480) % 2;
                    vstd::arithmetic::div_mod::lemma_fundamental_div_mod(i - y * 480, 2);
                    vstd::arithmetic::div_mod::lemma_mod_bound(i - y * 480, 2);
                    assert(i == y * 480 + 2 * c + k);
                    lemma_cell(y as int, c, k);
                    assert(c >= x);
                    assert(x == shown_cols(buf@));
                }
            }
        }
        y = y + 1;
    }
    proof {
        assert forall|i: int| 0 <= i < 115200 implies framebuffer@[i] == framebuffer_at(buf@, i) by {
            if i >= y * 480 {
                assert(y == shown_rows(buf@));
                let q = i / 480;
                lemma_before(i, 240, 0);
                vstd::arithmetic::div_mod::lemma_fundamental_div_mod(i, 480);
                if q < y {
                    lemma_mul_inequality(q + 1, y as int, 480);
                    vstd::arithmetic::div_mod::lemma_mod_bound(i, 480);
                }
            }
        }
    }
    framebuffer
}

/// Reading four bytes little-endian gives `le_u32`.
proof fn lemma_le_u32(b0: u8, b1: u8, b2: u8, b3: u8)
    ensures
        (b0 as u32 | (b1 as u32) << 8 | (b2 as u32) << 16 | (b3 as u32) << 24) == b0 + 256 * b1
            + 65536 * b2 + 16777216 * b3,
{
    assert((b0 as u32 | (b1 as u32) << 8 | (b2 as u32) << 16 | (b3 as u32) << 24) == b0 + 256
        * b1 + 65536 * b2 + 16777216 * b3) by (bit_vector);
}

/// The little-endian `u32` at `off`.
fn le_u32_at(buf: &Vec<u8>, off: usize) -> (res: u32)
    requires
        off + 4 <= buf.len(),
    ensures
        res == le_u32(buf@, off as int),
{
    let res = buf[off] as u32 | (buf[off + 1] as u32) << 8 | (buf[off + 2] as u32) << 16 | (buf[off
        + 3] as u32) << 24;
    proof {
        lemma_le_u32(buf@[off as int], buf@[off + 1], buf@[off + 2], buf@[off + 3]);
    }
    res
}

/// Whether the BMP in `buf` can be drawn (see `bmp_drawable`).
pub fn bmp_is_drawable(buf: &Vec<u8>) -> (res: bool)
    ensures
        res == bmp_drawable(buf@),
{
    if buf.len() < 26 {
        return false;
    }
    let off = le_u32_at(buf, 10) as u128;
    let w = le_u32_at(buf, 18) as u128;
    let h = le_u32_at(buf, 22) as u128;
    let len = buf.len() as u128;
    if off > len {
        return false;
    }
    if 2 * w > usize::MAX as u128 {
        return false;
    }
    let rows: u128 = if h < 240 {
        h
    } else {
        240
    };
    let cols: u128 = if w < 240 {
        w
    } else {
        240
    };
    if rows > 0 && cols > 0 {
        proof {
            vstd::arithmetic::mul::lemma_mul_upper_bound(
                (h - 1) as int,
                0xffff_ffff,
                (2 * w) as int,
                0x1_ffff_fffe,
            );
        }
        if off + (h - 1) * (2 * w) + 2 * cols > len {
            return false;
        }
    }
    true
}

} // verus!

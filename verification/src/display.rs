//! The rasterizer's pixel buffer and point drawing.
//!
//! The buffer is a byte sequence, row-major, three bytes (red, green, blue)
//! per pixel, `WINDOW_WIDTH` pixels per row. Drawing a pixel outside the
//! window's columns or outside the buffer's rows is silently dropped, never
//! an error.

use vstd::prelude::*;
use vstd::arithmetic::div_mod::{
    lemma_div_pos_is_pos, lemma_fundamental_div_mod, lemma_fundamental_div_mod_converse,
    lemma_mod_add_multiples_vanish, lemma_mod_bound, lemma_mod_sub_multiples_vanish,
    lemma_small_mod,
};
use vstd::arithmetic::mul::lemma_mul_inequality;

use crate::color::Rgb;

verus! {

/// The width of the application window in pixels.
pub const WINDOW_WIDTH: u32 = 800;

/// The height of the application window in pixels.
pub const WINDOW_HEIGHT: u32 = 600;

/// The target frame rate for the application.
pub const FRAMES_PER_SECOND: u32 = 30;

/// Bytes per pixel: one each for red, green and blue.
pub const BYTES_PER_PIXEL: u32 = 3;

/// How many whole pixel rows a buffer of `len` bytes holds.
pub open spec fn row_count(len: int) -> int {
    len / (WINDOW_WIDTH * BYTES_PER_PIXEL) as int
}

/// The byte offset of pixel `(x, y)` in the buffer.
pub open spec fn pixel_index(x: int, y: int) -> int {
    (y * WINDOW_WIDTH as int + x) * BYTES_PER_PIXEL as int
}

/// Whether pixel `(x, y)` falls inside a buffer of `len` bytes: the column
/// must lie inside the window and the row inside the buffer's rows.
pub open spec fn pixel_in_bounds(len: int, x: int, y: int) -> bool {
    0 <= x < WINDOW_WIDTH as int && 0 <= y < row_count(len)
}

/// The column of the pixel that byte `k` of the buffer belongs to.
pub open spec fn byte_column(k: int) -> int {
    (k / BYTES_PER_PIXEL as int) % WINDOW_WIDTH as int
}

/// The row of the pixel that byte `k` of the buffer belongs to.
pub open spec fn byte_row(k: int) -> int {
    (k / BYTES_PER_PIXEL as int) / WINDOW_WIDTH as int
}

/// The buffer after drawing one pixel: the pixel's three bytes take the
/// color's channels if `(x, y)` is in bounds, and nothing changes otherwise.
pub open spec fn draw_pixel_spec(b: Seq<u8>, x: int, y: int, c: Rgb) -> Seq<u8> {
    if pixel_in_bounds(b.len() as int, x, y) {
        b.update(pixel_index(x, y), c.r).update(pixel_index(x, y) + 1, c.g).update(
            pixel_index(x, y) + 2,
            c.b,
        )
    } else {
        b
    }
}

/// An in-bounds pixel's three bytes lie inside the buffer.
pub proof fn lemma_pixel_index_in_range(len: int, x: int, y: int)
    requires
        pixel_in_bounds(len, x, y),
    ensures
        0 <= pixel_index(x, y),
        pixel_index(x, y) + 2 < len,
{
    let w = WINDOW_WIDTH as int;
    let p = BYTES_PER_PIXEL as int;
    let row = (WINDOW_WIDTH * BYTES_PER_PIXEL) as int;
    lemma_fundamental_div_mod(len, row);
    lemma_mul_inequality(y + 1, len / row, row);
    assert(y * row + row == (y + 1) * row) by (nonlinear_arith);
    assert((y * w + x) * p == y * (w * p) + x * p) by (nonlinear_arith);
}

/// Byte `k` belongs to pixel `(x, y)` exactly when it is one of the three
/// bytes starting at that pixel's offset.
pub proof fn lemma_pixel_byte(x: int, y: int, k: int)
    requires
        0 <= x < WINDOW_WIDTH as int,
        0 <= y,
        0 <= k,
    ensures
        (pixel_index(x, y) <= k <= pixel_index(x, y) + 2) <==> (byte_column(k) == x && byte_row(k)
            == y),
        pixel_index(x, y) <= k <= pixel_index(x, y) + 2 ==> k % BYTES_PER_PIXEL as int == k
            - pixel_index(x, y),
{
    let w = WINDOW_WIDTH as int;
    let p = BYTES_PER_PIXEL as int;
    if pixel_index(x, y) <= k <= pixel_index(x, y) + 2 {
        let r = k - pixel_index(x, y);
        assert(k == p * (y * w + x) + r) by (nonlinear_arith)
            requires
                k == (y * w + x) * p + r,
        ;
        lemma_fundamental_div_mod_converse(k, p, y * w + x, r);
        lemma_fundamental_div_mod_converse(k / p, w, y, x);
    }
    if byte_column(k) == x && byte_row(k) == y {
        lemma_fundamental_div_mod(k, p);
        lemma_fundamental_div_mod(k / p, w);
        assert(k / p == y * w + x);
        assert(k == p * (y * w + x) + k % p) by (nonlinear_arith)
            requires
                k == p * (k / p) + k % p && k / p == y * w + x,
        ;
        assert((y * w + x) * p == p * (y * w + x)) by (nonlinear_arith);
    }
}

/// What one pixel draw does to each byte of the buffer: the drawn pixel's
/// bytes take the color's channels, every other byte keeps its value.
pub proof fn lemma_draw_pixel_spec_byte(b: Seq<u8>, x: int, y: int, c: Rgb, k: int)
    requires
        0 <= k < b.len(),
    ensures
        draw_pixel_spec(b, x, y, c).len() == b.len(),
        draw_pixel_spec(b, x, y, c)[k] == if pixel_in_bounds(b.len() as int, x, y)
            && byte_column(k) == x && byte_row(k) == y {
            c.channel(k % BYTES_PER_PIXEL as int)
        } else {
            b[k]
        },
{
    if pixel_in_bounds(b.len() as int, x, y) {
        lemma_pixel_index_in_range(b.len() as int, x, y);
        lemma_pixel_byte(x, y, k);
    }
}

/// Resets the color buffer to full black: afterwards it holds
/// `WINDOW_WIDTH * WINDOW_HEIGHT` pixels, every byte zero.
pub fn clear_color_buffer(color_buffer: &mut Vec<u8>)
    ensures
        final(color_buffer)@.len() == (WINDOW_WIDTH * WINDOW_HEIGHT * BYTES_PER_PIXEL) as int,
        forall|k: int|
            0 <= k < final(color_buffer)@.len() ==> final(color_buffer)@[k] == 0u8,
{
    let n: usize = (WINDOW_WIDTH as usize) * (WINDOW_HEIGHT as usize) * (BYTES_PER_PIXEL as usize);
    let mut fresh: Vec<u8> = Vec::with_capacity(n);
    let mut i: usize = 0;
    while i < n
        invariant
            i <= n,
            fresh@.len() == i as int,
            forall|k: int| 0 <= k < i as int ==> fresh@[k] == 0u8,
        decreases n - i,
    {
        fresh.push(0u8);
        i = i + 1;
    }
    *color_buffer = fresh;
}

/// Draws a single pixel into the color buffer, silently ignoring positions
/// outside the window's columns or the buffer's rows.
pub fn draw_pixel(color_buffer: &mut Vec<u8>, x: u32, y: u32, color: Rgb)
    ensures
        final(color_buffer)@ == draw_pixel_spec(old(color_buffer)@, x as int, y as int, color),
{
    let len = color_buffer.len();
    let row_bytes: usize = (WINDOW_WIDTH as usize) * (BYTES_PER_PIXEL as usize);
    assert(row_bytes == WINDOW_WIDTH as int * BYTES_PER_PIXEL as int);
    let rows = len / row_bytes;
    if x >= WINDOW_WIDTH || (y as usize) >= rows {
        return ;
    }
    proof {
        lemma_pixel_index_in_range(len as int, x as int, y as int);
    }
    let pixel_index = ((y as usize) * (WINDOW_WIDTH as usize) + (x as usize)) * (
    BYTES_PER_PIXEL as usize);
    color_buffer.set(pixel_index, color.r);
    color_buffer.set(pixel_index + 1, color.g);
    color_buffer.set(pixel_index + 2, color.b);
}

/// Every byte of the buffer belongs to a pixel in a column of the window;
/// its row is nonnegative.
pub proof fn lemma_byte_coords(k: int)
    requires
        0 <= k,
    ensures
        0 <= byte_column(k) < WINDOW_WIDTH as int,
        0 <= byte_row(k),
{
    lemma_div_pos_is_pos(k, BYTES_PER_PIXEL as int);
    lemma_mod_bound(k / BYTES_PER_PIXEL as int, WINDOW_WIDTH as int);
    lemma_div_pos_is_pos(k / BYTES_PER_PIXEL as int, WINDOW_WIDTH as int);
}

/// Whether byte `k` belongs to a pixel of the rectangle with origin
/// `(x, y)`, `w` columns wide and `h` rows high, whose row lies inside a
/// buffer of `len` bytes.
pub open spec fn rect_covers_byte(x: int, y: int, w: int, h: int, len: int, k: int) -> bool {
    x <= byte_column(k) < x + w && y <= byte_row(k) < y + h && byte_row(k) < row_count(len)
}

/// Draws a filled rectangle: a no-op when the origin lies outside the
/// window; otherwise every byte of every rectangle pixel inside the buffer
/// takes the color, pixel by pixel, so parts hanging outside are clipped.
pub fn draw_rect(color_buffer: &mut Vec<u8>, x: u32, y: u32, width: u32, height: u32, color: Rgb)
    requires
        x + width <= u32::MAX,
        y + height <= u32::MAX,
    ensures
        final(color_buffer)@.len() == old(color_buffer)@.len(),
        x >= WINDOW_WIDTH || y >= WINDOW_HEIGHT ==> final(color_buffer)@ == old(color_buffer)@,
        x < WINDOW_WIDTH && y < WINDOW_HEIGHT ==> forall|k: int|
            0 <= k < old(color_buffer)@.len() ==> final(color_buffer)@[k] == (
            if rect_covers_byte(
                x as int,
                y as int,
                width as int,
                height as int,
                old(color_buffer)@.len() as int,
                k,
            ) {
                color.channel(k % BYTES_PER_PIXEL as int)
            } else {
                old(color_buffer)@[k]
            }),
{
    if x >= WINDOW_WIDTH || y >= WINDOW_HEIGHT {
        return ;
    }
    let ghost orig = color_buffer@;
    let ghost len = color_buffer@.len() as int;
    let mut row: u32 = y;
    while row < y + height
        invariant
            y <= row <= y + height,
            x < WINDOW_WIDTH,
            x + width <= u32::MAX,
            y + height <= u32::MAX,
            color_buffer@.len() == orig.len(),
            len == orig.len() as int,
            forall|k: int|
                0 <= k < len ==> color_buffer@[k] == (if x <= byte_column(k) < x + width && y
                    <= byte_row(k) < row && byte_row(k) < row_count(len) {
                    color.channel(k % BYTES_PER_PIXEL as int)
                } else {
                    orig[k]
                }),
        decreases y + height - row,
    {
        let mut col: u32 = x;
        while col < x + width
            invariant
                x <= col <= x + width,
                y <= row < y + height,
                x < WINDOW_WIDTH,
                x + width <= u32::MAX,
                y + height <= u32::MAX,
                color_buffer@.len() == orig.len(),
                len == orig.len() as int,
                forall|k: int|
                    0 <= k < len ==> color_buffer@[k] == (if (x <= byte_column(k) < x + width && y
                        <= byte_row(k) < row && byte_row(k) < row_count(len)) || (byte_row(k)
                        == row as int && byte_row(k) < row_count(len) && x <= byte_column(k)
                        < col) {
                        color.channel(k % BYTES_PER_PIXEL as int)
                    } else {
                        orig[k]
                    }),
            decreases x + width - col,
        {
            let ghost prev = color_buffer@;
            draw_pixel(color_buffer, col, row, color);
            proof {
                assert forall|k: int| 0 <= k < len implies color_buffer@[k] == (if (x
                    <= byte_column(k) < x + width && y <= byte_row(k) < row && byte_row(k)
                    < row_count(len)) || (byte_row(k) == row as int && byte_row(k) < row_count(len)
                    && x <= byte_column(k) < col + 1) {
                    color.channel(k % BYTES_PER_PIXEL as int)
                } else {
                    orig[k]
                }) by {
                    lemma_draw_pixel_spec_byte(prev, col as int, row as int, color, k);
                    lemma_byte_coords(k);
                }
            }
            col = col + 1;
        }
        row = row + 1;
    }
}

/// Whether byte `k` belongs to a grid lattice pixel: both its column and its
/// row are multiples of the cell size, inside the window's rows and the
/// buffer's rows.
pub open spec fn grid_covers_byte(size: int, len: int, k: int) -> bool {
    byte_column(k) % size == 0 && byte_row(k) % size == 0 && byte_row(k) < WINDOW_HEIGHT as int
        && byte_row(k) < row_count(len)
}

/// Draws a lattice of single white pixels at every `size`-th row and
/// column of the window.
pub fn draw_grid(color_buffer: &mut Vec<u8>, size: usize)
    requires
        1 <= size,
        size <= usize::MAX - WINDOW_WIDTH as usize,
    ensures
        final(color_buffer)@.len() == old(color_buffer)@.len(),
        forall|k: int|
            0 <= k < old(color_buffer)@.len() ==> final(color_buffer)@[k] == (
            if grid_covers_byte(size as int, old(color_buffer)@.len() as int, k) {
                255u8
            } else {
                old(color_buffer)@[k]
            }),
{
    let white = Rgb { r: 255, g: 255, b: 255 };
    let ghost orig = color_buffer@;
    let ghost len = color_buffer@.len() as int;
    let mut row: usize = 0;
    while row < WINDOW_HEIGHT as usize
        invariant
            white == (Rgb { r: 255u8, g: 255u8, b: 255u8 }),
            1 <= size <= usize::MAX - WINDOW_WIDTH as usize,
            row as int % size as int == 0,
            row < WINDOW_HEIGHT as usize + size,
            color_buffer@.len() == orig.len(),
            len == orig.len() as int,
            forall|k: int|
                0 <= k < len ==> color_buffer@[k] == (if byte_column(k) % size as int == 0
                    && byte_row(k) % size as int == 0 && byte_row(k) < row && byte_row(k)
                    < row_count(len) {
                    255u8
                } else {
                    orig[k]
                }),
        decreases WINDOW_HEIGHT as int + size as int - row,
    {
        let mut col: usize = 0;
        while col < WINDOW_WIDTH as usize
            invariant
                white == (Rgb { r: 255u8, g: 255u8, b: 255u8 }),
                1 <= size <= usize::MAX - WINDOW_WIDTH as usize,
                row as int % size as int == 0,
                col as int % size as int == 0,
                row < WINDOW_HEIGHT as usize,
                col <= WINDOW_WIDTH as usize + size,
                color_buffer@.len() == orig.len(),
                len == orig.len() as int,
                forall|k: int|
                    0 <= k < len ==> color_buffer@[k] == (if (byte_column(k) % size as int == 0
                        && byte_row(k) % size as int == 0 && byte_row(k) < row && byte_row(k)
                        < row_count(len)) || (byte_row(k) == row as int && byte_row(k)
                        < row_count(len) && byte_column(k) % size as int == 0 && byte_column(k)
                        < col) {
                        255u8
                    } else {
                        orig[k]
                    }),
            decreases WINDOW_WIDTH as int + size as int - col,
        {
            let ghost prev = color_buffer@;
            draw_pixel(color_buffer, col as u32, row as u32, white);
            proof {
                assert forall|k: int| 0 <= k < len implies color_buffer@[k] == (if (byte_column(k)
                    % size as int == 0 && byte_row(k) % size as int == 0 && byte_row(k) < row
                    && byte_row(k) < row_count(len)) || (byte_row(k) == row as int && byte_row(k)
                    < row_count(len) && byte_column(k) % size as int == 0 && byte_column(k) < col
                    + size) {
                    255u8
                } else {
                    orig[k]
                }) by {
                    lemma_draw_pixel_spec_byte(prev, col as int, row as int, white, k);
                    lemma_byte_coords(k);
                    if byte_column(k) % size as int == 0 && (col as int) < byte_column(k)
                        && byte_column(k) < col as int + size as int {
                        lemma_mod_multiples_range(byte_column(k), col as int, size as int);
                    }
                }
            }
            proof {
                lemma_mod_add_multiples_vanish(col as int, size as int);
            }
            col = col + size;
        }
        proof {
            assert forall|k: int| 0 <= k < len implies color_buffer@[k] == (if byte_column(k)
                % size as int == 0 && byte_row(k) % size as int == 0 && byte_row(k) < row + size
                && byte_row(k) < row_count(len) {
                255u8
            } else {
                orig[k]
            }) by {
                lemma_byte_coords(k);
                if byte_row(k) % size as int == 0 && (row as int) < byte_row(k) && byte_row(k)
                    < row as int + size as int {
                    lemma_mod_multiples_range(byte_row(k), row as int, size as int);
                }
            }
            lemma_mod_add_multiples_vanish(row as int, size as int);
        }
        row = row + size;
    }
    proof {
        // At exit the row counter is the first multiple of the cell size at
        // or beyond the window's height, so for lattice rows, lying below
        // the counter and lying inside the window coincide.
        if row < size {
            lemma_small_mod(row as nat, size as nat);
        }
        lemma_mod_sub_multiples_vanish(row as int, size as int);
        assert forall|k: int| 0 <= k < len implies color_buffer@[k] == (
        if grid_covers_byte(size as int, len, k) {
            255u8
        } else {
            orig[k]
        }) by {
            lemma_byte_coords(k);
            let r = byte_row(k);
            if r % size as int == 0 && WINDOW_HEIGHT as int <= r < row as int {
                lemma_mod_multiples_range(r, row as int - size as int, size as int);
            }
        }
    }
}

/// Two distinct multiples of `size` lie at least `size` apart: there is no
/// multiple strictly between a multiple `base` and `base + size`.
proof fn lemma_mod_multiples_range(v: int, base: int, size: int)
    requires
        0 < size,
        base % size == 0,
        base < v < base + size,
    ensures
        v % size != 0,
{
    lemma_fundamental_div_mod(base, size);
    lemma_fundamental_div_mod(v, size);
    lemma_mod_bound(v, size);
    lemma_mod_bound(base, size);
    let qb = base / size;
    let qv = v / size;
    if v % size == 0 {
        assert(size * qb < size * qv < size * qb + size);
        assert(qb < qv < qb + 1) by (nonlinear_arith)
            requires
                size * qb < size * qv < size * qb + size && 0 < size,
        ;
    }
}

/// Drawing at a column or row outside the buffer leaves it unchanged; in
/// particular `x == WINDOW_WIDTH`, one past the last column, is a no-op.
pub proof fn lemma_draw_pixel_out_of_bounds(b: Seq<u8>, x: int, y: int, c: Rgb)
    requires
        !pixel_in_bounds(b.len() as int, x, y),
    ensures
        draw_pixel_spec(b, x, y, c) == b,
{
}

} // verus!

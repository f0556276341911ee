//! Bresenham's line algorithm: the integer-arithmetic rasterization of a
//! straight line between two pixel coordinates, and the wireframe triangle
//! drawn from three such lines.
//!
//! The drawn pixel set is pinned down by `line_points`, a specification-level
//! copy of the classic integer algorithm: error accumulator `err` starting at
//! `dx + dy`, and the two-threshold test (`2*err > dy` steps x, `2*err < dx`
//! steps y, both may fire in one iteration) until the end point is reached.

use vstd::prelude::*;

use crate::color::Rgb;
use crate::display::{
    draw_pixel, draw_pixel_spec, lemma_draw_pixel_spec_byte, lemma_pixel_index_in_range,
    pixel_in_bounds, byte_column, byte_row, BYTES_PER_PIXEL,
};

verus! {

/// Coordinates handed to the line and triangle drawers must lie within this
/// magnitude, so that the error accumulator arithmetic fits in `i32`.
pub const MAX_DRAW_COORD: i32 = 0x1000_0000;

/// The magnitude of an integer.
pub open spec fn int_abs(a: int) -> int {
    if a >= 0 {
        a
    } else {
        -a
    }
}

/// The pixels still to be drawn from a state of the Bresenham loop: current
/// point, end point, error accumulator and the four per-line constants. The
/// fuel only makes the recursion well-founded; the loop proof shows it never
/// runs out before the end point.
pub open spec fn line_points_from(
    cx: int,
    cy: int,
    x1: int,
    y1: int,
    err: int,
    dx: int,
    dy: int,
    sx: int,
    sy: int,
    fuel: nat,
) -> Seq<(int, int)>
    decreases fuel,
{
    if fuel == 0 {
        Seq::empty()
    } else if cx == x1 && cy == y1 {
        seq![(cx, cy)]
    } else {
        let e2 = 2 * err;
        let nx = if e2 > dy {
            cx + sx
        } else {
            cx
        };
        let ex = if e2 > dy {
            err + dy
        } else {
            err
        };
        let ny = if e2 < dx {
            cy + sy
        } else {
            cy
        };
        let ey = if e2 < dx {
            ex + dx
        } else {
            ex
        };
        seq![(cx, cy)] + line_points_from(nx, ny, x1, y1, ey, dx, dy, sx, sy, (fuel - 1) as nat)
    }
}

/// The exact pixel set of the classic integer Bresenham algorithm from
/// `(x0, y0)` to `(x1, y1)`, in drawing order.
pub open spec fn line_points(x0: int, y0: int, x1: int, y1: int) -> Seq<(int, int)> {
    let dx = int_abs(x1 - x0);
    let dy = -int_abs(y1 - y0);
    let sx: int = if x0 < x1 {
        1
    } else {
        -1
    };
    let sy: int = if y0 < y1 {
        1
    } else {
        -1
    };
    line_points_from(x0, y0, x1, y1, dx + dy, dx, dy, sx, sy, (dx - dy + 1) as nat)
}

/// The buffer after drawing each point of `pts` in order, all in one color.
pub open spec fn draw_points_spec(b: Seq<u8>, pts: Seq<(int, int)>, c: Rgb) -> Seq<u8>
    decreases pts.len(),
{
    if pts.len() == 0 {
        b
    } else {
        draw_points_spec(draw_pixel_spec(b, pts[0].0, pts[0].1, c), pts.drop_first(), c)
    }
}

/// Drawing one pixel never changes the buffer's length.
pub proof fn lemma_draw_pixel_spec_len(b: Seq<u8>, x: int, y: int, c: Rgb)
    ensures
        draw_pixel_spec(b, x, y, c).len() == b.len(),
{
    if pixel_in_bounds(b.len() as int, x, y) {
        lemma_pixel_index_in_range(b.len() as int, x, y);
    }
}

/// Drawing points never changes the buffer's length.
pub proof fn lemma_draw_points_spec_len(b: Seq<u8>, pts: Seq<(int, int)>, c: Rgb)
    ensures
        draw_points_spec(b, pts, c).len() == b.len(),
    decreases pts.len(),
{
    if pts.len() > 0 {
        lemma_draw_pixel_spec_len(b, pts[0].0, pts[0].1, c);
        lemma_draw_points_spec_len(draw_pixel_spec(b, pts[0].0, pts[0].1, c), pts.drop_first(), c);
    }
}

/// Appending a point to the list draws it last.
pub proof fn lemma_draw_points_spec_snoc(b: Seq<u8>, pts: Seq<(int, int)>, p: (int, int), c: Rgb)
    ensures
        draw_points_spec(b, pts.push(p), c) == draw_pixel_spec(
            draw_points_spec(b, pts, c),
            p.0,
            p.1,
            c,
        ),
    decreases pts.len(),
{
    lemma_draw_pixel_spec_len(b, p.0, p.1, c);
    if pts.len() == 0 {
        assert(pts.push(p)[0] == p);
        assert(pts.push(p).drop_first() =~= Seq::<(int, int)>::empty());
        let bp = draw_pixel_spec(b, p.0, p.1, c);
        assert(draw_points_spec(b, pts.push(p), c) == draw_points_spec(
            bp,
            Seq::<(int, int)>::empty(),
            c,
        ));
        assert(draw_points_spec(bp, Seq::<(int, int)>::empty(), c) == bp);
        assert(draw_points_spec(b, pts, c) == b);
    } else {
        lemma_draw_pixel_spec_len(b, pts[0].0, pts[0].1, c);
        assert(pts.push(p)[0] == pts[0]);
        assert(pts.push(p).drop_first() =~= pts.drop_first().push(p));
        let b0 = draw_pixel_spec(b, pts[0].0, pts[0].1, c);
        assert(draw_points_spec(b, pts.push(p), c) == draw_points_spec(
            b0,
            pts.drop_first().push(p),
            c,
        ));
        lemma_draw_points_spec_snoc(b0, pts.drop_first(), p, c);
        assert(draw_points_spec(b, pts, c) == draw_points_spec(b0, pts.drop_first(), c));
    }
}

/// Whether byte `k` of a buffer of length `len` belongs to the pixel at `p`
/// and that pixel lies inside the buffer.
pub open spec fn point_covers_byte(p: (int, int), len: int, k: int) -> bool {
    pixel_in_bounds(len, p.0, p.1) && byte_column(k) == p.0 && byte_row(k) == p.1
}

/// What drawing a point list does to each byte: a byte belonging to any
/// listed in-bounds pixel takes that channel of the color, every other byte
/// keeps its value.
pub proof fn lemma_draw_points_spec_byte(b: Seq<u8>, pts: Seq<(int, int)>, c: Rgb, k: int)
    requires
        0 <= k < b.len(),
    ensures
        draw_points_spec(b, pts, c)[k] == if exists|i: int|
            0 <= i < pts.len() && point_covers_byte(#[trigger] pts[i], b.len() as int, k) {
            c.channel(k % BYTES_PER_PIXEL as int)
        } else {
            b[k]
        },
    decreases pts.len(),
{
    lemma_draw_points_spec_len(b, pts, c);
    if pts.len() > 0 {
        let b1 = draw_pixel_spec(b, pts[0].0, pts[0].1, c);
        lemma_draw_pixel_spec_byte(b, pts[0].0, pts[0].1, c, k);
        lemma_draw_points_spec_byte(b1, pts.drop_first(), c, k);
        if exists|i: int|
            0 <= i < pts.len() && point_covers_byte(#[trigger] pts[i], b.len() as int, k) {
            let i = choose|i: int|
                0 <= i < pts.len() && point_covers_byte(#[trigger] pts[i], b.len() as int, k);
            if i > 0 {
                assert(pts.drop_first()[i - 1] == pts[i]);
            }
            if !(exists|j: int|
                0 <= j < pts.drop_first().len() && point_covers_byte(
                    #[trigger] pts.drop_first()[j],
                    b1.len() as int,
                    k,
                )) {
                assert(point_covers_byte(pts[0], b.len() as int, k));
            }
        } else {
            assert(forall|j: int|
                0 <= j < pts.drop_first().len() ==> #[trigger] pts.drop_first()[j] == pts[j + 1]);
        }
    }
}

/// The buffer after drawing the wireframe of a triangle: its three edges,
/// each a Bresenham line, drawn in order.
pub open spec fn draw_triangle_spec(
    b: Seq<u8>,
    p0: (int, int),
    p1: (int, int),
    p2: (int, int),
    c: Rgb,
) -> Seq<u8> {
    draw_points_spec(
        draw_points_spec(
            draw_points_spec(b, line_points(p0.0, p0.1, p1.0, p1.1), c),
            line_points(p1.0, p1.1, p2.0, p2.1),
            c,
        ),
        line_points(p2.0, p2.1, p0.0, p0.1),
        c,
    )
}

/// Whether byte `k` belongs to some in-bounds pixel of the triangle's three
/// edge lines.
pub open spec fn triangle_covers_byte(
    p0: (int, int),
    p1: (int, int),
    p2: (int, int),
    len: int,
    k: int,
) -> bool {
    (exists|i: int|
        0 <= i < line_points(p0.0, p0.1, p1.0, p1.1).len() && point_covers_byte(
            #[trigger] line_points(p0.0, p0.1, p1.0, p1.1)[i],
            len,
            k,
        )) || (exists|i: int|
        0 <= i < line_points(p1.0, p1.1, p2.0, p2.1).len() && point_covers_byte(
            #[trigger] line_points(p1.0, p1.1, p2.0, p2.1)[i],
            len,
            k,
        )) || (exists|i: int|
        0 <= i < line_points(p2.0, p2.1, p0.0, p0.1).len() && point_covers_byte(
            #[trigger] line_points(p2.0, p2.1, p0.0, p0.1)[i],
            len,
            k,
        ))
}

/// Drawing a triangle's wireframe colors exactly the union of its three edge
/// lines: a byte takes the color's channel when some edge's in-bounds pixel
/// owns it, and keeps its old value otherwise.
pub proof fn lemma_draw_triangle_is_line_union(
    b: Seq<u8>,
    p0: (int, int),
    p1: (int, int),
    p2: (int, int),
    c: Rgb,
    k: int,
)
    requires
        0 <= k < b.len(),
    ensures
        draw_triangle_spec(b, p0, p1, p2, c).len() == b.len(),
        draw_triangle_spec(b, p0, p1, p2, c)[k] == if triangle_covers_byte(p0, p1, p2, b.len() as int, k) {
            c.channel(k % BYTES_PER_PIXEL as int)
        } else {
            b[k]
        },
{
    let l01 = line_points(p0.0, p0.1, p1.0, p1.1);
    let l12 = line_points(p1.0, p1.1, p2.0, p2.1);
    let l20 = line_points(p2.0, p2.1, p0.0, p0.1);
    let b1 = draw_points_spec(b, l01, c);
    let b2 = draw_points_spec(b1, l12, c);
    lemma_draw_points_spec_len(b, l01, c);
    lemma_draw_points_spec_len(b1, l12, c);
    lemma_draw_points_spec_len(b2, l20, c);
    lemma_draw_points_spec_byte(b, l01, c, k);
    lemma_draw_points_spec_byte(b1, l12, c, k);
    lemma_draw_points_spec_byte(b2, l20, c, k);
}

/// Draws the wireframe triangle through the three points: each pair of
/// consecutive points is connected by a Bresenham line, the last point back
/// to the first.
pub fn draw_triangle(color_buffer: &mut Vec<u8>, points: [(i32, i32); 3], color: Rgb)
    requires
        forall|i: int|
            0 <= i < 3 ==> -MAX_DRAW_COORD <= (#[trigger] points@[i]).0 <= MAX_DRAW_COORD
                && -MAX_DRAW_COORD <= points@[i].1 <= MAX_DRAW_COORD,
    ensures
        final(color_buffer)@ == draw_triangle_spec(
            old(color_buffer)@,
            (points@[0].0 as int, points@[0].1 as int),
            (points@[1].0 as int, points@[1].1 as int),
            (points@[2].0 as int, points@[2].1 as int),
            color,
        ),
{
    let p0 = points[0];
    let p1 = points[1];
    let p2 = points[2];
    draw_line(color_buffer, p0.0, p0.1, p1.0, p1.1, color);
    draw_line(color_buffer, p1.0, p1.1, p2.0, p2.1, color);
    draw_line(color_buffer, p2.0, p2.1, p0.0, p0.1, color);
}

/// The buffer after drawing a list of wireframe triangles in order, all in
/// one color.
pub open spec fn draw_triangles_spec(b: Seq<u8>, ts: Seq<[(i32, i32); 3]>, c: Rgb) -> Seq<u8>
    decreases ts.len(),
{
    if ts.len() == 0 {
        b
    } else {
        let t = ts.last();
        draw_triangle_spec(
            draw_triangles_spec(b, ts.drop_last(), c),
            (t@[0].0 as int, t@[0].1 as int),
            (t@[1].0 as int, t@[1].1 as int),
            (t@[2].0 as int, t@[2].1 as int),
            c,
        )
    }
}

/// Draws each triangle of a frame's list into the buffer, in order.
pub fn draw_triangles(color_buffer: &mut Vec<u8>, triangles: &Vec<[(i32, i32); 3]>, color: Rgb)
    requires
        forall|i: int, j: int|
            0 <= i < triangles@.len() && 0 <= j < 3 ==> -MAX_DRAW_COORD <= (#[trigger] triangles@[i]@[j]).0
                <= MAX_DRAW_COORD && -MAX_DRAW_COORD <= triangles@[i]@[j].1 <= MAX_DRAW_COORD,
    ensures
        final(color_buffer)@ == draw_triangles_spec(old(color_buffer)@, triangles@, color),
{
    let ghost orig = color_buffer@;
    let n = triangles.len();
    let mut i: usize = 0;
    proof {
        assert(triangles@.take(0) =~= Seq::<[(i32, i32); 3]>::empty());
    }
    while i < n
        invariant
            0 <= i <= n == triangles@.len(),
            forall|k: int, j: int|
                0 <= k < triangles@.len() && 0 <= j < 3 ==> -MAX_DRAW_COORD <= (
                #[trigger] triangles@[k]@[j]).0 <= MAX_DRAW_COORD && -MAX_DRAW_COORD
                    <= triangles@[k]@[j].1 <= MAX_DRAW_COORD,
            color_buffer@ == draw_triangles_spec(orig, triangles@.take(i as int), color),
        decreases n - i,
    {
        draw_triangle(color_buffer, triangles[i], color);
        proof {
            assert(triangles@.take(i + 1).drop_last() =~= triangles@.take(i as int));
            assert(triangles@.take(i + 1).last() == triangles@[i as int]);
        }
        i = i + 1;
    }
    proof {
        assert(triangles@.take(n as int) =~= triangles@);
    }
}

/// Draws one pixel addressed with signed coordinates: a negative coordinate
/// is out of bounds and silently dropped, like any other out-of-range one.
fn draw_pixel_signed(color_buffer: &mut Vec<u8>, x: i32, y: i32, color: Rgb)
    ensures
        final(color_buffer)@ == draw_pixel_spec(old(color_buffer)@, x as int, y as int, color),
{
    if x < 0 || y < 0 {
        return ;
    }
    draw_pixel(color_buffer, x as u32, y as u32, color);
}

/// Draws the line from `(x0, y0)` to `(x1, y1)` with Bresenham's algorithm:
/// the buffer afterwards holds exactly the pixels of `line_points`, drawn in
/// order; pixels falling outside the buffer are dropped.
pub fn draw_line(color_buffer: &mut Vec<u8>, x0: i32, y0: i32, x1: i32, y1: i32, color: Rgb)
    requires
        -MAX_DRAW_COORD <= x0 <= MAX_DRAW_COORD,
        -MAX_DRAW_COORD <= y0 <= MAX_DRAW_COORD,
        -MAX_DRAW_COORD <= x1 <= MAX_DRAW_COORD,
        -MAX_DRAW_COORD <= y1 <= MAX_DRAW_COORD,
    ensures
        final(color_buffer)@ == draw_points_spec(
            old(color_buffer)@,
            line_points(x0 as int, y0 as int, x1 as int, y1 as int),
            color,
        ),
{
    let dx: i32 = if x1 >= x0 {
        x1 - x0
    } else {
        x0 - x1
    };
    let dy: i32 = if y1 >= y0 {
        -(y1 - y0)
    } else {
        -(y0 - y1)
    };
    let sx: i32 = if x0 < x1 {
        1
    } else {
        -1
    };
    let sy: i32 = if y0 < y1 {
        1
    } else {
        -1
    };
    let mut err: i32 = dx + dy;
    let mut cx: i32 = x0;
    let mut cy: i32 = y0;
    let ghost whole = line_points(x0 as int, y0 as int, x1 as int, y1 as int);
    let ghost orig = color_buffer@;
    let ghost mut drawn: Seq<(int, int)> = Seq::empty();
    let ghost mut fuel: nat = (dx - dy + 1) as nat;
    let ghost mut rx: int = dx as int;
    let ghost mut ry: int = -(dy as int);
    proof {
        assert(drawn + line_points_from(
            cx as int,
            cy as int,
            x1 as int,
            y1 as int,
            err as int,
            dx as int,
            dy as int,
            sx as int,
            sy as int,
            fuel,
        ) =~= whole);
        assert(dx + (-(dy as int)) * (dx as int) + (-(dx as int)) * (-(dy as int)) - (-(
        dy as int)) == dx + dy) by (nonlinear_arith);
    }
    while !(cx == x1 && cy == y1)
        invariant
            0 <= dx <= 2 * MAX_DRAW_COORD,
            0 <= -(dy as int) <= 2 * MAX_DRAW_COORD,
            dx == int_abs(x1 as int - x0 as int),
            dy == -int_abs(y1 as int - y0 as int),
            sx == (if x0 < x1 {
                1int
            } else {
                -1int
            }),
            sy == (if y0 < y1 {
                1int
            } else {
                -1int
            }),
            -MAX_DRAW_COORD <= x1 <= MAX_DRAW_COORD,
            -MAX_DRAW_COORD <= y1 <= MAX_DRAW_COORD,
            sx == 1 ==> rx == x1 - cx,
            sx == -1 ==> rx == cx - x1,
            sy == 1 ==> ry == y1 - cy,
            sy == -1 ==> ry == cy - y1,
            0 <= rx <= dx,
            0 <= ry <= -(dy as int),
            err == dx + (-(dy as int)) * rx + (-(dx as int)) * ry - (-(dy as int)),
            3 * dy <= 2 * (err as int) <= 3 * dx,
            fuel >= rx + ry + 1,
            color_buffer@ == draw_points_spec(orig, drawn, color),
            color_buffer@.len() == orig.len(),
            drawn + line_points_from(
                cx as int,
                cy as int,
                x1 as int,
                y1 as int,
                err as int,
                dx as int,
                dy as int,
                sx as int,
                sy as int,
                fuel,
            ) == whole,
        decreases rx + ry,
    {
        let ghost pre_buf = color_buffer@;
        draw_pixel_signed(color_buffer, cx, cy, color);
        proof {
            lemma_draw_points_spec_snoc(orig, drawn, (cx as int, cy as int), color);
            lemma_draw_pixel_spec_len(pre_buf, cx as int, cy as int, color);
            drawn = drawn.push((cx as int, cy as int));
        }
        let e2: i32 = 2 * err;
        let ghost old_err = err as int;
        let ghost old_cx = cx as int;
        let ghost old_cy = cy as int;
        let ghost old_fuel = fuel;
        proof {
            // The remaining-point list unfolds one step: fuel is positive and
            // the current point is not the end point.
            assert(line_points_from(
                old_cx,
                old_cy,
                x1 as int,
                y1 as int,
                old_err,
                dx as int,
                dy as int,
                sx as int,
                sy as int,
                old_fuel,
            ) == seq![(old_cx, old_cy)] + line_points_from(
                if 2 * old_err > dy {
                    old_cx + sx
                } else {
                    old_cx
                },
                if 2 * old_err < dx {
                    old_cy + sy
                } else {
                    old_cy
                },
                x1 as int,
                y1 as int,
                old_err + (if 2 * old_err > dy {
                    dy as int
                } else {
                    0
                }) + (if 2 * old_err < dx {
                    dx as int
                } else {
                    0
                }),
                dx as int,
                dy as int,
                sx as int,
                sy as int,
                (old_fuel - 1) as nat,
            ));
            // When the end point is not reached, at least one threshold
            // fires; and a step never fires once its axis is exhausted.
            if rx == 0 && ry == 0 {
                assert(cx == x1 && cy == y1);
            }
            if rx == 0 && ry >= 1 {
                assert(2 * old_err <= dy) by (nonlinear_arith)
                    requires
                        old_err == dx + (-(dy as int)) * 0int + (-(dx as int)) * ry - (-(dy as int)),
                        ry >= 1,
                        dx >= 0,
                        dy <= 0,
                        -(dy as int) >= ry,
                ;
            }
            if ry == 0 && rx >= 1 {
                assert(2 * old_err >= dx) by (nonlinear_arith)
                    requires
                        old_err == dx + (-(dy as int)) * rx + (-(dx as int)) * 0int - (-(dy as int)),
                        rx >= 1,
                        dx >= rx,
                        dy <= 0,
                ;
            }
        }
        if e2 > dy {
            err = err + dy;
            cx = cx + sx;
            proof {
                assert((-(dy as int)) * (rx - 1) == (-(dy as int)) * rx - (-(dy as int))) by (nonlinear_arith);
                rx = rx - 1;
            }
        }
        if e2 < dx {
            err = err + dx;
            cy = cy + sy;
            proof {
                assert((-(dx as int)) * (ry - 1) == (-(dx as int)) * ry - (-(dx as int))) by (nonlinear_arith);
                ry = ry - 1;
            }
        }
        proof {
            fuel = (old_fuel - 1) as nat;
            assert(drawn + line_points_from(
                cx as int,
                cy as int,
                x1 as int,
                y1 as int,
                err as int,
                dx as int,
                dy as int,
                sx as int,
                sy as int,
                fuel,
            ) =~= whole);
        }
    }
    let ghost pre_buf = color_buffer@;
    draw_pixel_signed(color_buffer, cx, cy, color);
    proof {
        assert(line_points_from(
            cx as int,
            cy as int,
            x1 as int,
            y1 as int,
            err as int,
            dx as int,
            dy as int,
            sx as int,
            sy as int,
            fuel,
        ) == seq![(cx as int, cy as int)]);
        lemma_draw_points_spec_snoc(orig, drawn, (cx as int, cy as int), color);
        assert(drawn.push((cx as int, cy as int)) =~= whole);
    }
}

} // verus!

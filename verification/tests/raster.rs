use wireframe::{
    clear_color_buffer, draw_grid, draw_line, draw_pixel, draw_rect, draw_triangle, Rgb,
};

const ROW_BYTES: usize = 800 * 3;

fn buffer(rows: usize) -> Vec<u8> {
    vec![0u8; rows * ROW_BYTES]
}

fn pixel(buf: &[u8], x: usize, y: usize) -> (u8, u8, u8) {
    let i = (y * 800 + x) * 3;
    (buf[i], buf[i + 1], buf[i + 2])
}

#[test]
fn clear_fills_a_whole_window_with_zeroes() {
    let mut buf: Vec<u8> = vec![7u8; 10];
    clear_color_buffer(&mut buf);
    assert_eq!(buf.len(), 800 * 600 * 3);
    assert!(buf.iter().all(|&b| b == 0));
}

#[test]
fn draw_pixel_writes_three_bytes_in_rgb_order() {
    let mut buf = buffer(2);
    draw_pixel(&mut buf, 0, 0, Rgb::new(10, 20, 30));
    draw_pixel(&mut buf, 799, 1, Rgb::new(1, 2, 3));
    assert_eq!(pixel(&buf, 0, 0), (10, 20, 30));
    assert_eq!(pixel(&buf, 799, 1), (1, 2, 3));
    let touched = [0usize, 1, 2, (800 + 799) * 3, (800 + 799) * 3 + 1, (800 + 799) * 3 + 2];
    for k in 0..buf.len() {
        if !touched.contains(&k) {
            assert_eq!(buf[k], 0, "byte {} changed", k);
        }
    }
}

#[test]
fn draw_pixel_at_the_window_width_is_a_no_op() {
    let mut buf = buffer(2);
    let before = buf.clone();
    draw_pixel(&mut buf, 800, 0, Rgb::new(9, 9, 9));
    assert_eq!(buf, before);
}

#[test]
fn draw_pixel_below_the_last_row_is_a_no_op() {
    let mut buf = buffer(2);
    let before = buf.clone();
    draw_pixel(&mut buf, 0, 2, Rgb::new(9, 9, 9));
    assert_eq!(buf, before);
}

#[test]
fn horizontal_line_colors_exactly_its_four_pixels() {
    let mut buf = buffer(4);
    let white = Rgb::new(255, 255, 255);
    draw_line(&mut buf, 0, 0, 3, 0, white);
    let expected = [(0usize, 0usize), (1, 0), (2, 0), (3, 0)];
    for y in 0..4 {
        for x in 0..800 {
            let want = if expected.contains(&(x, y)) {
                (255, 255, 255)
            } else {
                (0, 0, 0)
            };
            assert_eq!(pixel(&buf, x, y), want, "pixel ({}, {})", x, y);
        }
    }
}

#[test]
fn diagonal_line_steps_once_per_column() {
    let mut buf = buffer(4);
    draw_line(&mut buf, 0, 0, 2, 2, Rgb::new(255, 0, 0));
    let expected = [(0usize, 0usize), (1, 1), (2, 2)];
    for y in 0..4 {
        for x in 0..800 {
            let want = if expected.contains(&(x, y)) { (255, 0, 0) } else { (0, 0, 0) };
            assert_eq!(pixel(&buf, x, y), want, "pixel ({}, {})", x, y);
        }
    }
}

#[test]
fn steep_line_matches_the_classic_algorithm() {
    let mut buf = buffer(4);
    draw_line(&mut buf, 0, 0, 1, 3, Rgb::new(0, 255, 0));
    let expected = [(0usize, 0usize), (0, 1), (1, 2), (1, 3)];
    for y in 0..4 {
        for x in 0..800 {
            let want = if expected.contains(&(x, y)) { (0, 255, 0) } else { (0, 0, 0) };
            assert_eq!(pixel(&buf, x, y), want, "pixel ({}, {})", x, y);
        }
    }
}

#[test]
fn down_left_line_matches_the_classic_algorithm() {
    let mut buf = buffer(4);
    draw_line(&mut buf, 3, 3, 0, 1, Rgb::new(7, 7, 7));
    let expected = [(3usize, 3usize), (2, 2), (1, 2), (0, 1)];
    for y in 0..4 {
        for x in 0..800 {
            let want = if expected.contains(&(x, y)) { (7, 7, 7) } else { (0, 0, 0) };
            assert_eq!(pixel(&buf, x, y), want, "pixel ({}, {})", x, y);
        }
    }
}

#[test]
fn line_endpoints_out_of_the_buffer_are_clipped() {
    let mut buf = buffer(2);
    draw_line(&mut buf, -2, 0, 2, 0, Rgb::new(5, 6, 7));
    for x in 0..3 {
        assert_eq!(pixel(&buf, x, 0), (5, 6, 7));
    }
    assert_eq!(pixel(&buf, 3, 0), (0, 0, 0));
}

#[test]
fn triangle_is_the_union_of_its_three_edges() {
    let p0 = (10i32, 1i32);
    let p1 = (20i32, 3i32);
    let p2 = (12i32, 5i32);
    let c = Rgb::new(0, 150, 0);
    let mut tri = buffer(8);
    draw_triangle(&mut tri, [p0, p1, p2], c);
    let mut lines = buffer(8);
    draw_line(&mut lines, p0.0, p0.1, p1.0, p1.1, c);
    draw_line(&mut lines, p1.0, p1.1, p2.0, p2.1, c);
    draw_line(&mut lines, p2.0, p2.1, p0.0, p0.1, c);
    assert_eq!(tri, lines);
}

#[test]
fn rect_colors_its_cells_and_nothing_else() {
    let mut buf = buffer(4);
    draw_rect(&mut buf, 1, 1, 2, 2, Rgb::new(9, 8, 7));
    let expected = [(1usize, 1usize), (2, 1), (1, 2), (2, 2)];
    for y in 0..4 {
        for x in 0..800 {
            let want = if expected.contains(&(x, y)) { (9, 8, 7) } else { (0, 0, 0) };
            assert_eq!(pixel(&buf, x, y), want, "pixel ({}, {})", x, y);
        }
    }
}

#[test]
fn rect_with_an_out_of_window_origin_is_a_no_op() {
    let mut buf = buffer(4);
    let before = buf.clone();
    draw_rect(&mut buf, 800, 0, 5, 5, Rgb::new(1, 1, 1));
    draw_rect(&mut buf, 0, 600, 5, 5, Rgb::new(1, 1, 1));
    assert_eq!(buf, before);
}

#[test]
fn rect_hanging_over_the_edge_is_clipped_per_pixel() {
    let mut buf = buffer(1);
    draw_rect(&mut buf, 798, 0, 5, 5, Rgb::new(4, 4, 4));
    assert_eq!(pixel(&buf, 798, 0), (4, 4, 4));
    assert_eq!(pixel(&buf, 799, 0), (4, 4, 4));
    assert_eq!(pixel(&buf, 797, 0), (0, 0, 0));
}

#[test]
fn grid_marks_every_multiple_of_the_cell_size() {
    let mut buf = buffer(3);
    draw_grid(&mut buf, 2);
    for y in 0..3 {
        for x in 0..800 {
            let want = if x % 2 == 0 && y % 2 == 0 { (255, 255, 255) } else { (0, 0, 0) };
            assert_eq!(pixel(&buf, x, y), want, "pixel ({}, {})", x, y);
        }
    }
}

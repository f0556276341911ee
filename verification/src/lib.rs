//! Core of a software 3D wireframe renderer.
//!
//! The crate turns a mesh of vertices and triangular faces into 2D line
//! segments drawn into a row-major RGB pixel buffer. It owns the mesh data
//! model (including the text-format loader), the face-resolution step of the
//! per-frame transform pipeline, and the rasterizer (pixel buffer management
//! and the Bresenham line/triangle drawer). Window management, event polling
//! and presentation are external collaborators: they hand the core plain
//! values and present the buffer it fills.

mod color;
mod display;
mod input;
mod line;
mod mesh;
mod triangle;
mod vector;

pub use color::Rgb;
pub use display::{
    clear_color_buffer, draw_grid, draw_pixel, draw_pixel_spec, draw_rect, grid_covers_byte,
    pixel_in_bounds, pixel_index, rect_covers_byte, row_count, byte_column, byte_row,
    lemma_byte_coords, lemma_draw_pixel_out_of_bounds, lemma_draw_pixel_spec_byte,
    lemma_pixel_byte, lemma_pixel_index_in_range, BYTES_PER_PIXEL, FRAMES_PER_SECOND,
    WINDOW_HEIGHT, WINDOW_WIDTH,
};
pub use triangle::Face;
pub use vector::{Vec3Bits, F32_NEG_ONE_BITS, F32_ONE_BITS, F32_ZERO_BITS};
pub use mesh::{
    all_faces_in_range, all_lines_ok, cube_faces, cube_vertices, face_index_of, faces_of,
    is_float_token, line_ok, split_lines, tokens_of, vertex_fields_of, Mesh, MeshError, MeshText,
    VertexText, N_CUBE_FACES, N_CUBE_VERTICES,
};
pub use input::{event_requests_quit, wants_quit, InputEvent};
pub use line::{
    draw_line, draw_points_spec, draw_triangle, draw_triangle_spec, draw_triangles,
    draw_triangles_spec, int_abs,
    lemma_draw_pixel_spec_len, lemma_draw_points_spec_byte, lemma_draw_points_spec_len,
    lemma_draw_points_spec_snoc, lemma_draw_triangle_is_line_union, line_points,
    line_points_from, point_covers_byte, triangle_covers_byte, MAX_DRAW_COORD,
};

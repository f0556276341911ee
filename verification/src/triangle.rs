//! A triangular face: three 1-based indices into a shared vertex sequence.

use vstd::prelude::*;

verus! {

/// A face of a 3D object, naming the three vertices of a triangle by their
/// 1-based positions in a vertex sequence.
#[derive(Clone, Copy, PartialEq, Eq, Structural, Debug)]
pub struct Face {
    /// Index of the first vertex in the vertex sequence.
    pub a: usize,
    /// Index of the second vertex in the vertex sequence.
    pub b: usize,
    /// Index of the third vertex in the vertex sequence.
    pub c: usize,
}

impl Face {
    /// Builds a face from its three vertex indices.
    pub fn new(a: usize, b: usize, c: usize) -> (f: Face)
        ensures
            f == (Face { a, b, c }),
    {
        Face { a, b, c }
    }

    /// Whether every index of the face names one of `vertex_count` vertices:
    /// 1-based, so an index of zero is out of range too.
    pub open spec fn in_range(self, vertex_count: int) -> bool {
        1 <= self.a <= vertex_count && 1 <= self.b <= vertex_count && 1 <= self.c <= vertex_count
    }
}

} // verus!

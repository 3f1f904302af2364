//! Dense row-major matrices of `i64` with verified storage, arithmetic and a
//! fraction-free determinant.
//!
//! Arithmetic never wraps: where a result could leave `i64`, the operation
//! either asks in its precondition that it does not, or reports an absent
//! result.
use vstd::prelude::*;

pub mod size;
pub mod matrix;
pub mod ops;
pub mod display;
pub mod det;
pub mod elim;
pub mod laws;

pub use matrix::MatrixError;
pub use size::Size;

verus! {

/// Abstract value of a matrix: its shape and its entries in row-major order.
pub ghost struct Grid {
    pub height: nat,
    pub width: nat,
    pub data: Seq<i64>,
}

impl Grid {
    /// The entry at row `r`, column `c`.
    pub open spec fn at(self, r: int, c: int) -> i64 {
        self.data[r * self.width + c]
    }

    /// The shape is consistent with the number of entries.
    pub open spec fn wf(self) -> bool {
        self.data.len() == self.height * self.width
    }
}

/// A dense matrix of `i64`, stored row by row: the entry at `(r, c)` lives at
/// flat index `r * width + c`.
#[derive(Clone, PartialEq, Debug)]
pub struct Matrix {
    height: usize,
    width: usize,
    data: Vec<i64>,
}

impl View for Matrix {
    type V = Grid;

    closed spec fn view(&self) -> Grid {
        Grid { height: self.height as nat, width: self.width as nat, data: self.data@ }
    }
}

impl Matrix {
    /// The stored entries match the shape.
    pub closed spec fn wf(&self) -> bool {
        &&& self.data@.len() == self.height * self.width
        &&& self.data@.len() <= usize::MAX
    }

    /// A well-formed matrix has a consistent abstract value that fits in memory.
    pub proof fn lemma_wf(&self)
        requires
            self.wf(),
        ensures
            self@.wf(),
            self@.height * self@.width <= usize::MAX,
    {
    }
}

/// Row-major positions of a `height x width` grid lie inside its storage.
pub proof fn lemma_flat_index(height: int, width: int, r: int, c: int)
    requires
        0 <= r < height,
        0 <= c < width,
    ensures
        0 <= r * width + c < height * width,
        (r + 1) * width == r * width + width,
        r * width + width <= height * width,
{
    assert(0 <= r * width) by (nonlinear_arith)
        requires
            0 <= r,
            0 <= c < width,
    ;
    assert((r + 1) * width == r * width + width) by (nonlinear_arith);
    assert(r * width + width <= height * width) by (nonlinear_arith)
        requires
            r + 1 <= height,
            0 < width,
    ;
}

/// Distinct positions of a grid have distinct row-major indices.
pub proof fn lemma_flat_unique(width: int, r1: int, c1: int, r2: int, c2: int)
    requires
        0 <= r1,
        0 <= r2,
        0 <= c1 < width,
        0 <= c2 < width,
        r1 * width + c1 == r2 * width + c2,
    ensures
        r1 == r2,
        c1 == c2,
{
    if r1 < r2 {
        assert(r1 * width + width <= r2 * width) by (nonlinear_arith)
            requires
                r1 + 1 <= r2,
                0 < width,
        ;
    } else if r2 < r1 {
        assert(r2 * width + width <= r1 * width) by (nonlinear_arith)
            requires
                r2 + 1 <= r1,
                0 < width,
        ;
    }
}

} // verus!

use vstd::prelude::*;

use crate::size::Size;
use crate::{lemma_flat_index, lemma_flat_unique, Grid, Matrix};

verus! {

/// Why a checked write into a matrix was refused.
#[derive(Clone, Copy, PartialEq, Eq, Debug, Structural)]
pub enum MatrixError {
    /// The row or the column lies outside the matrix.
    OutOfBounds,
}

impl Grid {
    /// Row `r`, left to right.
    pub open spec fn row(self, r: int) -> Seq<i64> {
        Seq::new(self.width, |c: int| self.at(r, c))
    }

    /// Column `c`, top to bottom.
    pub open spec fn col(self, c: int) -> Seq<i64> {
        Seq::new(self.height, |r: int| self.at(r, c))
    }

    /// Same shape, every entry equal.
    pub open spec fn same_as(self, o: Grid) -> bool {
        &&& self.height == o.height
        &&& self.width == o.width
        &&& forall|r: int, c: int|
            0 <= r < self.height && 0 <= c < self.width ==> #[trigger] self.at(r, c) == o.at(r, c)
    }
}

/// The matrix with the given shape whose every entry is `v`.
pub open spec fn filled_grid(height: nat, width: nat, v: i64) -> Grid {
    Grid { height, width, data: Seq::new(height * width, |k: int| v) }
}

/// `g` is the `n x n` identity: `1` on the diagonal, `0` elsewhere.
pub open spec fn is_identity(g: Grid, n: nat) -> bool {
    &&& g.height == n
    &&& g.width == n
    &&& forall|i: int, j: int|
        0 <= i < n && 0 <= j < n ==> #[trigger] g.at(i, j) == if i == j {
            1i64
        } else {
            0i64
        }
}

/// A `height x width` grid has `height * width` entries addressable in memory.
pub open spec fn fits_in_memory(height: nat, width: nat) -> bool {
    height * width <= usize::MAX
}

/// Two well-formed grids with equal shapes and equal entries are equal.
pub proof fn lemma_same_as_eq(a: Grid, b: Grid)
    requires
        a.wf(),
        b.wf(),
        a.same_as(b),
    ensures
        a == b,
{
    assert forall|k: int| 0 <= k < a.data.len() implies a.data[k] == b.data[k] by {
        let w = a.width as int;
        let r = k / w;
        let c = k % w;
        assert(w > 0) by (nonlinear_arith)
            requires
                0 <= k < a.height * a.width,
                w == a.width,
        ;
        assert(k == r * w + c && 0 <= c < w) by (nonlinear_arith)
            requires
                w > 0,
                r == k / w,
                c == k % w,
        ;
        assert(0 <= r < a.height) by (nonlinear_arith)
            requires
                w > 0,
                0 <= k < a.height * w,
                k == r * w + c,
                0 <= c < w,
        ;
        assert(a.at(r, c) == b.at(r, c));
    }
    assert(a.data =~= b.data);
}

impl Matrix {
    /// A matrix of the given shape with every entry equal to `v`.
    fn filled(height: usize, width: usize, v: i64) -> (r: Matrix)
        requires
            fits_in_memory(height as nat, width as nat),
        ensures
            r.wf(),
            r@ == filled_grid(height as nat, width as nat, v),
    {
        let n = height * width;
        let mut data: Vec<i64> = Vec::new();
        let mut k: usize = 0;
        while k < n
            invariant
                n == height * width,
                k <= n,
                data@ =~= Seq::new(k as nat, |i: int| v),
            decreases n - k,
        {
            data.push(v);
            k = k + 1;
        }
        Matrix { height, width, data }
    }

    /// The matrix of the given shape filled with `0`.
    pub fn zeros<S: Size>(size: S) -> (r: Matrix)
        requires
            fits_in_memory(size.spec_height(), size.spec_width()),
        ensures
            r.wf(),
            r@ == filled_grid(size.spec_height(), size.spec_width(), 0),
    {
        let (height, width) = size.dimensions();
        Self::filled(height, width, 0)
    }

    /// The matrix of the given shape filled with `1`.
    pub fn ones<S: Size>(size: S) -> (r: Matrix)
        requires
            fits_in_memory(size.spec_height(), size.spec_width()),
        ensures
            r.wf(),
            r@ == filled_grid(size.spec_height(), size.spec_width(), 1),
    {
        let (height, width) = size.dimensions();
        Self::filled(height, width, 1)
    }

    /// The square matrix with `diagonal[i]` at `(i, i)` and `0` elsewhere.
    pub fn diag(diagonal: Vec<i64>) -> (r: Matrix)
        requires
            fits_in_memory(diagonal@.len(), diagonal@.len()),
        ensures
            r.wf(),
            r@.height == diagonal@.len(),
            r@.width == diagonal@.len(),
            forall|i: int, j: int|
                0 <= i < r@.height && 0 <= j < r@.width ==> #[trigger] r@.at(i, j) == if i == j {
                    diagonal@[i]
                } else {
                    0
                },
    {
        let n = diagonal.len();
        let mut m = Self::zeros(n);
        assert forall|r: int, c: int| 0 <= r < n && 0 <= c < n implies #[trigger] m@.at(r, c)
            == 0 by {
            lemma_flat_index(n as int, n as int, r, c);
        }
        let mut i: usize = 0;
        while i < n
            invariant
                n == diagonal@.len(),
                fits_in_memory(n as nat, n as nat),
                i <= n,
                m.wf(),
                m.height == n,
                m.width == n,
                forall|r: int, c: int|
                    0 <= r < n && 0 <= c < n ==> #[trigger] m@.at(r, c) == if r == c && r < i {
                        diagonal@[r]
                    } else {
                        0
                    },
            decreases n - i,
        {
            proof {
                lemma_flat_index(n as int, n as int, i as int, i as int);
            }
            let ghost before = m@;
            m.data.set(i * n + i, diagonal[i]);
            assert forall|r: int, c: int| 0 <= r < n && 0 <= c < n implies #[trigger] m@.at(r, c)
                == if r == c && r < i + 1 {
                diagonal@[r]
            } else {
                0
            } by {
                lemma_flat_index(n as int, n as int, r, c);
                if r * n + c == i * n + i {
                    lemma_flat_unique(n as int, r, c, i as int, i as int);
                } else {
                    assert(m@.at(r, c) == before.at(r, c));
                }
            }
            i = i + 1;
        }
        m
    }

    /// The `n x n` identity matrix.
    pub fn identity(n: usize) -> (r: Matrix)
        requires
            fits_in_memory(n as nat, n as nat),
        ensures
            r.wf(),
            is_identity(r@, n as nat),
    {
        let mut ones: Vec<i64> = Vec::new();
        let mut k: usize = 0;
        while k < n
            invariant
                k <= n,
                ones@ =~= Seq::new(k as nat, |i: int| 1i64),
            decreases n - k,
        {
            ones.push(1);
            k = k + 1;
        }
        Self::diag(ones)
    }

    /// Wraps row-major `body` as a matrix of the given shape.
    pub fn from_vec<S: Size>(size: S, body: Vec<i64>) -> (r: Matrix)
        requires
            body@.len() == size.spec_height() * size.spec_width(),
        ensures
            r.wf(),
            r@ == (Grid { height: size.spec_height(), width: size.spec_width(), data: body@ }),
    {
        let (height, width) = size.dimensions();
        let _ = body.len();
        Matrix { height, width, data: body }
    }

    /// Copies row-major `body` into a matrix of the given shape.
    pub fn from_slice<S: Size>(size: S, body: &[i64]) -> (r: Matrix)
        requires
            body@.len() == size.spec_height() * size.spec_width(),
        ensures
            r.wf(),
            r@ == (Grid { height: size.spec_height(), width: size.spec_width(), data: body@ }),
    {
        let (height, width) = size.dimensions();
        let mut data: Vec<i64> = Vec::new();
        let mut k: usize = 0;
        while k < body.len()
            invariant
                k <= body@.len(),
                data@ =~= body@.subrange(0, k as int),
            decreases body@.len() - k,
        {
            data.push(body[k]);
            k = k + 1;
        }
        assert(data@ =~= body@);
        Matrix { height, width, data }
    }

    /// `(height, width)`.
    pub fn size(&self) -> (r: (usize, usize))
        ensures
            r.0 == self@.height,
            r.1 == self@.width,
    {
        (self.height, self.width)
    }

    /// The entries in row-major order.
    pub fn as_slice(&self) -> (r: &[i64])
        ensures
            r@ == self@.data,
    {
        self.data.as_slice()
    }

    /// The entries in row-major order, for writing in place. The shape stays;
    /// whatever is written through the slice becomes the entries.
    pub fn as_mut_slice(&mut self) -> (r: &mut [i64])
        requires
            old(self).wf(),
        ensures
            r@ == old(self)@.data,
            final(self)@ == (Grid { data: final(r)@, ..old(self)@ }),
    {
        self.data.as_mut_slice()
    }

    /// The entry at row `pos.height()`, column `pos.width()`, read through the
    /// flat index `row * width + col`, which must lie inside the storage.
    pub fn index<S: Size>(&self, pos: S) -> (r: &i64)
        requires
            self.wf(),
            pos.spec_height() * self@.width + pos.spec_width() < self@.data.len(),
        ensures
            *r == self@.data[(pos.spec_height() * self@.width + pos.spec_width()) as int],
    {
        let (h, w) = pos.dimensions();
        proof {
            assert(h * self.width <= h * self.width + w);
        }
        &self.data[h * self.width + w]
    }

    /// Checked read of the entry at flat index `row * width + col`, where
    /// `(row, col)` is what `loc` denotes; `None` past the end of the storage.
    pub fn get<S: Size>(&self, loc: S) -> (r: Option<&i64>)
        requires
            self.wf(),
        ensures
            ({
                let k = loc.spec_height() * self@.width + loc.spec_width();
                match r {
                    Some(v) => k < self@.data.len() && *v == self@.data[k as int],
                    None => k >= self@.data.len(),
                }
            }),
    {
        let (h, w) = loc.dimensions();
        match h.checked_mul(self.width) {
            None => {
                proof {
                    assert(h * self.width <= h * self.width + w);
                }
                None
            },
            Some(base) => match base.checked_add(w) {
                None => None,
                Some(k) => {
                    if k < self.data.len() {
                        Some(&self.data[k])
                    } else {
                        None
                    }
                },
            },
        }
    }

    /// Checked write of `val` at row `loc.height()`, column `loc.width()`.
    /// Each axis is checked on its own; a refused write leaves the matrix as it
    /// was.
    pub fn set<S: Size>(&mut self, loc: S, val: i64) -> (r: Result<(), MatrixError>)
        requires
            old(self).wf(),
        ensures
            final(self).wf(),
            ({
                let row = loc.spec_height() as int;
                let col = loc.spec_width() as int;
                if row < old(self)@.height && col < old(self)@.width {
                    &&& r is Ok
                    &&& final(self)@ == (Grid {
                        data: old(self)@.data.update(row * old(self)@.width + col, val),
                        ..old(self)@
                    })
                } else {
                    &&& r == Err::<(), MatrixError>(MatrixError::OutOfBounds)
                    &&& final(self)@ == old(self)@
                }
            }),
    {
        let (h, w) = loc.dimensions();
        if h >= self.height || w >= self.width {
            Err(MatrixError::OutOfBounds)
        } else {
            proof {
                lemma_flat_index(self.height as int, self.width as int, h as int, w as int);
            }
            self.data.set(h * self.width + w, val);
            Ok(())
        }
    }

    /// Column `index`, top to bottom; `None` when `index >= width`.
    pub fn get_col(&self, index: usize) -> (r: Option<Vec<i64>>)
        requires
            self.wf(),
        ensures
            index >= self@.width ==> r is None,
            index < self@.width ==> r is Some && r->0@ == self@.col(index as int),
    {
        if index >= self.width {
            None
        } else {
            let mut body: Vec<i64> = Vec::new();
            let mut row: usize = 0;
            while row < self.height
                invariant
                    self.wf(),
                    index < self.width,
                    row <= self.height,
                    body@ =~= self@.col(index as int).subrange(0, row as int),
                decreases self.height - row,
            {
                proof {
                    lemma_flat_index(
                        self.height as int,
                        self.width as int,
                        row as int,
                        index as int,
                    );
                }
                body.push(self.data[row * self.width + index]);
                row = row + 1;
            }
            assert(body@ =~= self@.col(index as int));
            Some(body)
        }
    }

    /// Every column, left to right.
    pub fn cols(&self) -> (r: Vec<Vec<i64>>)
        requires
            self.wf(),
        ensures
            r@.len() == self@.width,
            forall|c: int| 0 <= c < self@.width ==> #[trigger] r@[c]@ == self@.col(c),
    {
        let mut body: Vec<Vec<i64>> = Vec::new();
        let mut i: usize = 0;
        while i < self.width
            invariant
                self.wf(),
                i <= self.width,
                body@.len() == i,
                forall|c: int| 0 <= c < i ==> #[trigger] body@[c]@ == self@.col(c),
            decreases self.width - i,
        {
            match self.get_col(i) {
                Some(col) => body.push(col),
                None => {},
            }
            i = i + 1;
        }
        body
    }

    /// Row `r` as a vector.
    fn row_vec(&self, r: usize) -> (v: Vec<i64>)
        requires
            self.wf(),
            r < self@.height,
        ensures
            v@ == self@.row(r as int),
    {
        let mut row_vec: Vec<i64> = Vec::new();
        let mut col: usize = 0;
        while col < self.width
            invariant
                self.wf(),
                r < self.height,
                col <= self.width,
                row_vec@ =~= self@.row(r as int).subrange(0, col as int),
            decreases self.width - col,
        {
            proof {
                lemma_flat_index(self.height as int, self.width as int, r as int, col as int);
            }
            row_vec.push(self.data[r * self.width + col]);
            col = col + 1;
        }
        assert(row_vec@ =~= self@.row(r as int));
        row_vec
    }

    /// The rows, top to bottom, each left to right.
    pub fn as_vec(&self) -> (r: Vec<Vec<i64>>)
        requires
            self.wf(),
        ensures
            r@.len() == self@.height,
            forall|i: int| 0 <= i < self@.height ==> #[trigger] r@[i]@ == self@.row(i),
    {
        let mut body: Vec<Vec<i64>> = Vec::new();
        let mut row: usize = 0;
        while row < self.height
            invariant
                self.wf(),
                row <= self.height,
                body@.len() == row,
                forall|i: int| 0 <= i < row ==> #[trigger] body@[i]@ == self@.row(i),
            decreases self.height - row,
        {
            let v = self.row_vec(row);
            body.push(v);
            row = row + 1;
        }
        body
    }

    /// Sets every entry to `0`, keeping the shape.
    pub fn erase(&mut self)
        requires
            old(self).wf(),
        ensures
            final(self).wf(),
            final(self)@ == filled_grid(old(self)@.height, old(self)@.width, 0),
    {
        let n = self.data.len();
        let mut k: usize = 0;
        while k < n
            invariant
                self.wf(),
                n == self.data@.len(),
                self@.height == old(self)@.height,
                self@.width == old(self)@.width,
                k <= n,
                forall|i: int| 0 <= i < k ==> #[trigger] self.data@[i] == 0,
            decreases n - k,
        {
            self.data.set(k, 0);
            k = k + 1;
        }
        assert(self@.data =~= filled_grid(self@.height, self@.width, 0).data);
    }
    /// Changes the shape to the one `size` denotes. The height is adjusted
    /// first, by whole rows, then each row is cut or extended to the new width.
    /// Entries that stay inside both shapes keep their place; new ones are `0`.
    pub fn resize<S: Size>(&mut self, size: S)
        requires
            old(self).wf(),
            fits_in_memory(size.spec_height(), old(self)@.width),
            fits_in_memory(size.spec_height(), size.spec_width()),
        ensures
            final(self).wf(),
            final(self)@.height == size.spec_height(),
            final(self)@.width == size.spec_width(),
            forall|i: int, j: int|
                0 <= i < final(self)@.height && 0 <= j < final(self)@.width
                    ==> #[trigger] final(self)@.at(i, j) == if i < old(self)@.height && j
                    < old(self)@.width {
                    old(self)@.at(i, j)
                } else {
                    0
                },
    {
        let (height, width) = size.dimensions();
        let ghost g0 = self@;
        if self.height != height {
            self.data.resize(height * self.width, 0);
            self.height = height;
        }
        assert forall|i: int, j: int| 0 <= i < height && 0 <= j < self.width implies #[trigger] self@.at(i, j)
            == if i < g0.height {
            g0.at(i, j)
        } else {
            0
        } by {
            lemma_flat_index(height as int, self.width as int, i, j);
            if i < g0.height {
                lemma_flat_index(g0.height as int, self.width as int, i, j);
            } else {
                assert(i * self.width + j >= g0.height * self.width) by (nonlinear_arith)
                    requires
                        i >= g0.height,
                        j >= 0,
                        self.width >= 0,
                ;
            }
        }
        if self.width != width {
            let old_width = self.width;
            let mut out: Vec<i64> = Vec::new();
            let mut i: usize = 0;
            while i < height
                invariant
                    self.wf(),
                    self.height == height,
                    self.width == old_width,
                    fits_in_memory(height as nat, width as nat),
                    i <= height,
                    out@.len() == i * width,
                    forall|ii: int, jj: int|
                        0 <= ii < i && 0 <= jj < width ==> #[trigger] out@[ii * width + jj] == if jj
                            < old_width {
                            self@.at(ii, jj)
                        } else {
                            0
                        },
                decreases height - i,
            {
                let mut j: usize = 0;
                while j < width
                    invariant
                        self.wf(),
                        self.height == height,
                        self.width == old_width,
                        fits_in_memory(height as nat, width as nat),
                        i < height,
                        j <= width,
                        out@.len() == i * width + j,
                        forall|ii: int, jj: int|
                            0 <= ii < i && 0 <= jj < width ==> #[trigger] out@[ii * width + jj]
                                == if jj < old_width {
                                self@.at(ii, jj)
                            } else {
                                0
                            },
                        forall|jj: int|
                            0 <= jj < j ==> #[trigger] out@[i * width + jj] == if jj < old_width {
                                self@.at(i as int, jj)
                            } else {
                                0
                            },
                    decreases width - j,
                {
                    proof {
                        lemma_flat_index(height as int, width as int, i as int, j as int);
                    }
                    if j < old_width {
                        proof {
                            lemma_flat_index(height as int, old_width as int, i as int, j as int);
                        }
                        out.push(self.data[i * old_width + j]);
                    } else {
                        out.push(0);
                    }
                    assert forall|ii: int, jj: int|
                        0 <= ii < i && 0 <= jj < width implies #[trigger] out@[ii * width + jj]
                        == if jj < old_width {
                        self@.at(ii, jj)
                    } else {
                        0
                    } by {
                        lemma_flat_index(i as int, width as int, ii, jj);
                    }
                    j = j + 1;
                }
                assert((i + 1) * width == i * width + width) by (nonlinear_arith);
                assert forall|ii: int, jj: int|
                    0 <= ii < i + 1 && 0 <= jj < width implies #[trigger] out@[ii * width + jj]
                    == if jj < old_width {
                    self@.at(ii, jj)
                } else {
                    0
                } by {
                    if ii == i {
                        assert(out@[i * width + jj] == if jj < old_width {
                            self@.at(i as int, jj)
                        } else {
                            0
                        });
                    }
                }
                i = i + 1;
            }
            self.width = width;
            self.data = out;
        }
    }
}

} // verus!

use vstd::prelude::*;

use crate::matrix::fits_in_memory;
use crate::{lemma_flat_index, Grid, Matrix};

verus! {

/// `x` is representable as an `i64`.
pub open spec fn in_i64(x: int) -> bool {
    i64::MIN <= x <= i64::MAX
}

/// Division rounding toward zero, as Rust's `/` on integers.
pub open spec fn trunc_div(x: int, d: int) -> int {
    let q = (if x < 0 {
        -x
    } else {
        x
    }) / (if d < 0 {
        -d
    } else {
        d
    });
    if (x < 0) == (d < 0) {
        q
    } else {
        -q
    }
}

/// The grid of `a`'s shape whose entry at flat index `k` is `f(a.data[k])`.
pub open spec fn map_grid(a: Grid, f: spec_fn(int) -> int) -> Grid {
    Grid { data: Seq::new(a.data.len(), |k: int| f(a.data[k] as int) as i64), ..a }
}

/// The grid of `a`'s shape whose entry at flat index `k` is
/// `f(a.data[k], b.data[k])`.
pub open spec fn zip_grid(a: Grid, b: Grid, f: spec_fn(int, int) -> int) -> Grid {
    Grid { data: Seq::new(a.data.len(), |k: int| f(a.data[k] as int, b.data[k] as int) as i64), ..a }
}

/// Every value `f` takes on `a`'s entries fits in an `i64`.
pub open spec fn map_fits(a: Grid, f: spec_fn(int) -> int) -> bool {
    forall|k: int| 0 <= k < a.data.len() ==> in_i64(#[trigger] f(a.data[k] as int))
}

/// Every value `f` takes on corresponding entries of `a` and `b` fits in an `i64`.
pub open spec fn zip_fits(a: Grid, b: Grid, f: spec_fn(int, int) -> int) -> bool {
    forall|k: int| 0 <= k < a.data.len() ==> in_i64(#[trigger] f(a.data[k] as int, b.data[k] as int))
}

pub open spec fn plus() -> spec_fn(int, int) -> int {
    |x: int, y: int| x + y
}

pub open spec fn minus() -> spec_fn(int, int) -> int {
    |x: int, y: int| x - y
}

/// `a` and `b` have the same shape.
pub open spec fn same_shape(a: Grid, b: Grid) -> bool {
    a.height == b.height && a.width == b.width
}

/// Sum of the first `m` products `a(i, t) * b(t, j)`, added left to right.
pub open spec fn dot(a: Grid, b: Grid, i: int, j: int, m: int) -> int
    decreases m,
{
    if m <= 0 {
        0
    } else {
        dot(a, b, i, j, m - 1) + a.at(i, m - 1) as int * b.at(m - 1, j) as int
    }
}

/// Every product and every partial sum of the matrix product `a * b` fits in
/// an `i64`.
pub open spec fn product_fits(a: Grid, b: Grid) -> bool {
    forall|i: int, j: int, m: int|
        0 <= i < a.height && 0 <= j < b.width && 0 < m <= a.width ==> {
            &&& in_i64(a.at(i, m - 1) as int * b.at(m - 1, j) as int)
            &&& in_i64(#[trigger] dot(a, b, i, j, m))
        }
}

/// `t` is `a` transposed: shapes swapped and `t(i, j) == a(j, i)`.
pub open spec fn is_transpose(t: Grid, a: Grid) -> bool {
    &&& t.height == a.width
    &&& t.width == a.height
    &&& forall|i: int, j: int|
        0 <= i < t.height && 0 <= j < t.width ==> #[trigger] t.at(i, j) == a.at(j, i)
}

/// An operation between each entry and a scalar.
enum ScalarOp {
    Add,
    Sub,
    Mul,
    Div,
}

impl Matrix {
    /// Entrywise `op` of `self` with `value`, given that every result fits.
    fn map_entries(&self, value: i64, op: ScalarOp) -> (r: Matrix)
        requires
            self.wf(),
            op is Div ==> value != 0,
            map_fits(self@, scalar_op(op, value as int)),
        ensures
            r.wf(),
            r@ == map_grid(self@, scalar_op(op, value as int)),
    {
        let n = self.data.len();
        let mut out: Vec<i64> = Vec::new();
        let mut k: usize = 0;
        while k < n
            invariant
                self.wf(),
                n == self@.data.len(),
                op is Div ==> value != 0,
                map_fits(self@, scalar_op(op, value as int)),
                k <= n,
                out@ =~= map_grid(self@, scalar_op(op, value as int)).data.subrange(0, k as int),
            decreases n - k,
        {
            let x = self.data[k];
            assert(in_i64(scalar_op(op, value as int)(self@.data[k as int] as int)));
            let y: i64 = match op {
                ScalarOp::Add => x + value,
                ScalarOp::Sub => x - value,
                ScalarOp::Mul => x * value,
                ScalarOp::Div => match x.checked_div(value) {
                    Some(q) => q,
                    None => 0,
                },
            };
            out.push(y);
            k = k + 1;
        }
        assert(out@ =~= map_grid(self@, scalar_op(op, value as int)).data);
        Matrix { height: self.height, width: self.width, data: out }
    }

    /// `value` added to every entry.
    pub fn scalar_add(&self, value: i64) -> (r: Matrix)
        requires
            self.wf(),
            map_fits(self@, |x: int| x + value),
        ensures
            r.wf(),
            r@ == map_grid(self@, |x: int| x + value),
    {
        proof {
            assert(scalar_op(ScalarOp::Add, value as int) == |x: int| x + value);
        }
        self.map_entries(value, ScalarOp::Add)
    }

    /// `value` subtracted from every entry.
    pub fn scalar_sub(&self, value: i64) -> (r: Matrix)
        requires
            self.wf(),
            map_fits(self@, |x: int| x - value),
        ensures
            r.wf(),
            r@ == map_grid(self@, |x: int| x - value),
    {
        proof {
            assert(scalar_op(ScalarOp::Sub, value as int) == |x: int| x - value);
        }
        self.map_entries(value, ScalarOp::Sub)
    }

    /// Every entry multiplied by `value`.
    pub fn scalar_mul(&self, value: i64) -> (r: Matrix)
        requires
            self.wf(),
            map_fits(self@, |x: int| x * value),
        ensures
            r.wf(),
            r@ == map_grid(self@, |x: int| x * value),
    {
        proof {
            assert(scalar_op(ScalarOp::Mul, value as int) == |x: int| x * value);
        }
        self.map_entries(value, ScalarOp::Mul)
    }

    /// Every entry divided by `value`, rounding toward zero.
    pub fn scalar_div(&self, value: i64) -> (r: Matrix)
        requires
            self.wf(),
            value != 0,
            map_fits(self@, |x: int| trunc_div(x, value as int)),
        ensures
            r.wf(),
            r@ == map_grid(self@, |x: int| trunc_div(x, value as int)),
    {
        proof {
            assert(scalar_op(ScalarOp::Div, value as int) == |x: int| trunc_div(x, value as int));
        }
        self.map_entries(value, ScalarOp::Div)
    }
}

/// What `op` does to an entry `x`.
spec fn scalar_op(op: ScalarOp, v: int) -> spec_fn(int) -> int {
    match op {
        ScalarOp::Add => |x: int| x + v,
        ScalarOp::Sub => |x: int| x - v,
        ScalarOp::Mul => |x: int| x * v,
        ScalarOp::Div => |x: int| trunc_div(x, v),
    }
}

impl Matrix {
    /// Entrywise sum (`subtract == false`) or difference of equal-shaped matrices.
    fn combine(&self, other: &Matrix, subtract: bool) -> (r: Matrix)
        requires
            self.wf(),
            other.wf(),
            same_shape(self@, other@),
            zip_fits(self@, other@, if subtract { minus() } else { plus() }),
        ensures
            r.wf(),
            r@ == zip_grid(self@, other@, if subtract { minus() } else { plus() }),
    {
        let ghost f = if subtract { minus() } else { plus() };
        let n = self.data.len();
        let mut out: Vec<i64> = Vec::new();
        let mut k: usize = 0;
        while k < n
            invariant
                self.wf(),
                other.wf(),
                same_shape(self@, other@),
                f == if subtract { minus() } else { plus() },
                zip_fits(self@, other@, f),
                n == self@.data.len(),
                k <= n,
                out@ =~= zip_grid(self@, other@, f).data.subrange(0, k as int),
            decreases n - k,
        {
            assert(in_i64(f(self@.data[k as int] as int, other@.data[k as int] as int)));
            let y: i64 = if subtract {
                self.data[k] - other.data[k]
            } else {
                self.data[k] + other.data[k]
            };
            out.push(y);
            k = k + 1;
        }
        assert(out@ =~= zip_grid(self@, other@, f).data);
        Matrix { height: self.height, width: self.width, data: out }
    }

    /// Entrywise sum of two matrices of the same shape.
    pub fn add(self, other: Matrix) -> (r: Matrix)
        requires
            self.wf(),
            other.wf(),
            same_shape(self@, other@),
            zip_fits(self@, other@, plus()),
        ensures
            r.wf(),
            r@ == zip_grid(self@, other@, plus()),
    {
        self.combine(&other, false)
    }

    /// Entrywise difference of two matrices of the same shape.
    pub fn sub(self, other: Matrix) -> (r: Matrix)
        requires
            self.wf(),
            other.wf(),
            same_shape(self@, other@),
            zip_fits(self@, other@, minus()),
        ensures
            r.wf(),
            r@ == zip_grid(self@, other@, minus()),
    {
        self.combine(&other, true)
    }

    /// Matrix product: entry `(i, j)` is the sum, from `0` and left to right,
    /// of `self(i, t) * other(t, j)`.
    pub fn mul(self, other: Matrix) -> (r: Matrix)
        requires
            self.wf(),
            other.wf(),
            self@.width == other@.height,
            fits_in_memory(self@.height, other@.width),
            product_fits(self@, other@),
        ensures
            r.wf(),
            r@.height == self@.height,
            r@.width == other@.width,
            forall|i: int, j: int|
                0 <= i < r@.height && 0 <= j < r@.width ==> #[trigger] r@.at(i, j) == dot(
                    self@,
                    other@,
                    i,
                    j,
                    self@.width as int,
                ),
    {
        let h = self.height;
        let w = other.width;
        let inner = self.width;
        let mut out: Vec<i64> = Vec::new();
        let mut i: usize = 0;
        while i < h
            invariant
                self.wf(),
                other.wf(),
                h == self@.height,
                w == other@.width,
                inner == self@.width,
                inner == other@.height,
                fits_in_memory(h as nat, w as nat),
                product_fits(self@, other@),
                i <= h,
                out@.len() == i * w,
                forall|ii: int, jj: int|
                    0 <= ii < i && 0 <= jj < w ==> #[trigger] out@[ii * w + jj] == dot(
                        self@,
                        other@,
                        ii,
                        jj,
                        inner as int,
                    ),
            decreases h - i,
        {
            let mut j: usize = 0;
            while j < w
                invariant
                    self.wf(),
                    other.wf(),
                    h == self@.height,
                    w == other@.width,
                    inner == self@.width,
                    inner == other@.height,
                    fits_in_memory(h as nat, w as nat),
                    product_fits(self@, other@),
                    i < h,
                    j <= w,
                    out@.len() == i * w + j,
                    forall|ii: int, jj: int|
                        0 <= ii < i && 0 <= jj < w ==> #[trigger] out@[ii * w + jj] == dot(
                            self@,
                            other@,
                            ii,
                            jj,
                            inner as int,
                        ),
                    forall|jj: int|
                        0 <= jj < j ==> #[trigger] out@[i * w + jj] == dot(
                            self@,
                            other@,
                            i as int,
                            jj,
                            inner as int,
                        ),
                decreases w - j,
            {
                let mut acc: i64 = 0;
                let mut t: usize = 0;
                while t < inner
                    invariant
                        self.wf(),
                        other.wf(),
                        h == self@.height,
                        w == other@.width,
                        inner == self@.width,
                        inner == other@.height,
                        product_fits(self@, other@),
                        i < h,
                        j < w,
                        t <= inner,
                        acc == dot(self@, other@, i as int, j as int, t as int),
                    decreases inner - t,
                {
                    proof {
                        lemma_flat_index(h as int, inner as int, i as int, t as int);
                        lemma_flat_index(inner as int, w as int, t as int, j as int);
                        assert(in_i64(dot(self@, other@, i as int, j as int, t + 1)));
                    }
                    let p = self.data[i * inner + t] * other.data[t * w + j];
                    acc = acc + p;
                    t = t + 1;
                }
                proof {
                    lemma_flat_index(h as int, w as int, i as int, j as int);
                }
                out.push(acc);
                assert forall|ii: int, jj: int|
                    0 <= ii < i && 0 <= jj < w implies #[trigger] out@[ii * w + jj] == dot(
                    self@,
                    other@,
                    ii,
                    jj,
                    inner as int,
                ) by {
                    lemma_flat_index(i as int, w as int, ii, jj);
                }
                j = j + 1;
            }
            assert((i + 1) * w == i * w + w) by (nonlinear_arith);
            assert forall|ii: int, jj: int|
                0 <= ii < i + 1 && 0 <= jj < w implies #[trigger] out@[ii * w + jj] == dot(
                self@,
                other@,
                ii,
                jj,
                inner as int,
            ) by {
                if ii == i {
                    assert(out@[i * w + jj] == dot(self@, other@, i as int, jj, inner as int));
                }
            }
            i = i + 1;
        }
        Matrix { height: h, width: w, data: out }
    }

    /// Transposes in place: the shape is swapped and the entry at `(r, c)`
    /// moves to `(c, r)`.
    pub fn transpose(&mut self)
        requires
            old(self).wf(),
        ensures
            final(self).wf(),
            is_transpose(final(self)@, old(self)@),
    {
        let h = self.height;
        let w = self.width;
        proof {
            self.lemma_wf();
            assert(w * h == h * w) by (nonlinear_arith);
        }
        let mut out: Vec<i64> = Vec::new();
        let mut i: usize = 0;
        while i < w
            invariant
                self.wf(),
                h == self@.height,
                w == self@.width,
                fits_in_memory(w as nat, h as nat),
                i <= w,
                out@.len() == i * h,
                forall|ii: int, jj: int|
                    0 <= ii < i && 0 <= jj < h ==> #[trigger] out@[ii * h + jj] == self@.at(jj, ii),
            decreases w - i,
        {
            let mut j: usize = 0;
            while j < h
                invariant
                    self.wf(),
                    h == self@.height,
                    w == self@.width,
                    fits_in_memory(w as nat, h as nat),
                    i < w,
                    j <= h,
                    out@.len() == i * h + j,
                    forall|ii: int, jj: int|
                        0 <= ii < i && 0 <= jj < h ==> #[trigger] out@[ii * h + jj] == self@.at(
                            jj,
                            ii,
                        ),
                    forall|jj: int| 0 <= jj < j ==> #[trigger] out@[i * h + jj] == self@.at(jj, i as int),
                decreases h - j,
            {
                proof {
                    lemma_flat_index(w as int, h as int, i as int, j as int);
                    lemma_flat_index(h as int, w as int, j as int, i as int);
                }
                out.push(self.data[j * w + i]);
                assert forall|ii: int, jj: int|
                    0 <= ii < i && 0 <= jj < h implies #[trigger] out@[ii * h + jj] == self@.at(
                    jj,
                    ii,
                ) by {
                    lemma_flat_index(i as int, h as int, ii, jj);
                }
                j = j + 1;
            }
            assert((i + 1) * h == i * h + h) by (nonlinear_arith);
            assert forall|ii: int, jj: int|
                0 <= ii < i + 1 && 0 <= jj < h implies #[trigger] out@[ii * h + jj] == self@.at(
                jj,
                ii,
            ) by {
                if ii == i {
                    assert(out@[i * h + jj] == self@.at(jj, i as int));
                }
            }
            i = i + 1;
        }
        let ghost g0 = self@;
        self.height = w;
        self.width = h;
        self.data = out;
        assert forall|i: int, j: int| 0 <= i < w && 0 <= j < h implies #[trigger] self@.at(i, j)
            == g0.at(j, i) by {}
    }
}

} // verus!

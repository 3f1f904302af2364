//! Fraction-free Gaussian elimination: the run of the algorithm on
//! mathematical integers, and why dividing its diagonal product by the
//! accumulated scale gives the determinant.
use vstd::prelude::*;

use vstd::arithmetic::div_mod::lemma_div_multiples_vanish;

use crate::det::{
    det, diag_prefix, lemma_det_equal_rows, lemma_det_linear, lemma_det_swap,
    lemma_det_upper_triangular, lin, square, swap_rows, upper_triangular,
};
use crate::ops::{in_i64, map_fits, map_grid, trunc_div};
use crate::{lemma_flat_index, lemma_flat_unique, Grid, Matrix};

verus! {

/// `b` raised to the power `e`.
pub open spec fn power(b: int, e: int) -> int
    decreases e,
{
    if e <= 0 {
        1
    } else {
        power(b, e - 1) * b
    }
}

/// The first row at or after `from` whose entry in column `i` is non-zero,
/// or `m.len()` when there is none.
pub open spec fn first_nonzero(m: Seq<Seq<int>>, i: int, from: int) -> int
    decreases m.len() - from,
{
    if from >= m.len() || from < 0 {
        m.len() as int
    } else if m[from][i] != 0 {
        from
    } else {
        first_nonzero(m, i, from + 1)
    }
}

/// The pivot row for column `i`.
pub open spec fn pivot_of(m: Seq<Seq<int>>, i: int) -> int {
    first_nonzero(m, i, i)
}

/// `m` with the pivot row for column `i` brought to row `i`.
pub open spec fn pivoted(m: Seq<Seq<int>>, i: int) -> Seq<Seq<int>> {
    let p = pivot_of(m, i);
    if p < m.len() && p != i {
        swap_rows(m, i, p)
    } else {
        m
    }
}

/// Row `j` after eliminating column `i` with pivot row `i`:
/// `m[i][i] * m[j] - m[j][i] * m[i]`.
pub open spec fn eliminated_row(m: Seq<Seq<int>>, i: int, j: int) -> Seq<int> {
    Seq::new(m.len(), |k: int| m[i][i] * m[j][k] - m[j][i] * m[i][k])
}

/// `s` with the rows strictly between `i` and `j` eliminated.
pub open spec fn eliminated_until(s: Seq<Seq<int>>, i: int, j: int) -> Seq<Seq<int>> {
    Seq::new(
        s.len(),
        |r: int|
            if i < r < j {
                eliminated_row(s, i, r)
            } else {
                s[r]
            },
    )
}

/// One pivot step on column `i`: pick and place the pivot row, then clear
/// column `i` below it. Nothing changes when the column is zero from row `i`
/// down.
pub open spec fn step(m: Seq<Seq<int>>, i: int) -> Seq<Seq<int>> {
    if pivot_of(m, i) < m.len() {
        eliminated_until(pivoted(m, i), i, m.len() as int)
    } else {
        m
    }
}

/// The matrix after the pivot steps on columns `0 .. i`.
pub open spec fn after(m: Seq<Seq<int>>, i: int) -> Seq<Seq<int>>
    decreases i,
{
    if i <= 0 {
        m
    } else {
        step(after(m, i - 1), i - 1)
    }
}

/// `1` or `-1`: the parity of the row exchanges made in the first `i` steps.
pub open spec fn sign_after(m: Seq<Seq<int>>, i: int) -> int
    decreases i,
{
    if i <= 0 {
        1
    } else {
        let a = after(m, i - 1);
        let p = pivot_of(a, i - 1);
        if p < m.len() && p != i - 1 {
            -sign_after(m, i - 1)
        } else {
            sign_after(m, i - 1)
        }
    }
}

/// The product of the scale factors of the first `i` steps: each row cleared
/// in step `t` was multiplied by that step's pivot.
pub open spec fn total_after(m: Seq<Seq<int>>, i: int) -> int
    decreases i,
{
    if i <= 0 {
        1
    } else {
        let a = after(m, i - 1);
        if pivot_of(a, i - 1) < m.len() {
            total_after(m, i - 1) * power(pivoted(a, i - 1)[i - 1][i - 1], m.len() - i)
        } else {
            total_after(m, i - 1)
        }
    }
}

/// Every value computed in step `i` from the matrix `a` and the running scale
/// `total` fits in an `i64`.
pub open spec fn step_fits(a: Seq<Seq<int>>, i: int, total: int) -> bool {
    pivot_of(a, i) < a.len() ==> pivot_step_fits(pivoted(a, i), i, total)
}

/// With the pivot row in place at `i`, every value computed while clearing
/// column `i` below it, and every running scale, fits in an `i64`.
pub open spec fn pivot_step_fits(s: Seq<Seq<int>>, i: int, total: int) -> bool {
    let n = s.len() as int;
    &&& forall|j: int, k: int| i < j < n && 0 <= k < n ==> #[trigger] entry_fits(s, i, j, k)
    &&& forall|e: int| 1 <= e < n - i ==> in_i64(total * #[trigger] power(s[i][i], e))
}

/// The two products and the difference that give entry `k` of the
/// eliminated row `j` all fit in an `i64`.
pub open spec fn entry_fits(s: Seq<Seq<int>>, i: int, j: int, k: int) -> bool {
    &&& in_i64(s[i][i] * s[j][k])
    &&& in_i64(s[j][i] * s[i][k])
    &&& in_i64(s[i][i] * s[j][k] - s[j][i] * s[i][k])
}

/// Every intermediate value of the elimination of `m`, and of the signed
/// product of the final diagonal, fits in an `i64`.
pub open spec fn elimination_fits(m: Seq<Seq<int>>) -> bool {
    let n = m.len() as int;
    &&& forall|i: int| 0 <= i < n ==> step_fits(#[trigger] after(m, i), i, total_after(m, i))
    &&& forall|t: int|
        1 <= t <= n ==> in_i64(sign_after(m, n) * #[trigger] diag_prefix(after(m, n), t))
}

proof fn lemma_first_nonzero(m: Seq<Seq<int>>, i: int, from: int)
    requires
        0 <= from <= m.len(),
    ensures
        from <= first_nonzero(m, i, from) <= m.len(),
        first_nonzero(m, i, from) < m.len() ==> m[first_nonzero(m, i, from)][i] != 0,
        forall|r: int| from <= r < first_nonzero(m, i, from) ==> #[trigger] m[r][i] == 0,
    decreases m.len() - from,
{
    if from < m.len() && m[from][i] == 0 {
        lemma_first_nonzero(m, i, from + 1);
    }
}

/// The scan that stops at the first non-zero entry at or after `from` finds
/// `first_nonzero`.
pub proof fn lemma_first_nonzero_found(m: Seq<Seq<int>>, i: int, from: int, idx: int)
    requires
        0 <= from <= idx <= m.len(),
        forall|r: int| from <= r < idx ==> #[trigger] m[r][i] == 0,
        idx == m.len() || m[idx][i] != 0,
    ensures
        first_nonzero(m, i, from) == idx,
    decreases idx - from,
{
    if from < idx {
        lemma_first_nonzero_found(m, i, from + 1, idx);
    }
}

proof fn lemma_power_nonzero(b: int, e: int)
    requires
        b != 0,
    ensures
        power(b, e) != 0,
    decreases e,
{
    if e > 0 {
        lemma_power_nonzero(b, e - 1);
        lemma_mul_nonzero(power(b, e - 1), b);
    }
}

proof fn lemma_mul_nonzero(x: int, y: int)
    requires
        x != 0,
        y != 0,
    ensures
        x * y != 0,
{
    assert(x * y != 0) by (nonlinear_arith)
        requires
            x != 0,
            y != 0,
    ;
}

proof fn lemma_neg_mul(x: int, y: int)
    ensures
        (-x) * y == -(x * y),
{
    assert((-x) * y == -(x * y)) by (nonlinear_arith);
}

/// Clearing one more row below the pivot scales the determinant by the pivot.
proof fn lemma_eliminate_one(s: Seq<Seq<int>>, i: int, j: int)
    requires
        square(s),
        0 <= i < j < s.len(),
    ensures
        square(eliminated_until(s, i, j)),
        det(eliminated_until(s, i, j + 1)) == s[i][i] * det(eliminated_until(s, i, j)),
{
    let n = s.len() as int;
    let e = eliminated_until(s, i, j);
    let d = s[i][i];
    let row = s[j][i];
    assert(e[j] == s[j]);
    assert(e[i] == s[i]);
    assert forall|k: int| 0 <= k < n implies #[trigger] eliminated_row(s, i, j)[k] == lin(
        d,
        s[j],
        -row,
        s[i],
    )[k] by {
        lemma_neg_mul(row, s[i][k]);
    }
    assert(eliminated_row(s, i, j) =~= lin(d, s[j], -row, s[i]));
    assert(eliminated_until(s, i, j + 1) =~= e.update(j, lin(d, s[j], -row, s[i])));
    lemma_det_linear(e, j, d, s[j], -row, s[i]);
    assert(e.update(j, s[j]) =~= e);
    lemma_det_equal_rows(e.update(j, s[i]), i, j);
    assert((-row) * 0 == 0);
}

/// Clearing the rows `i + 1 .. j` scales the determinant by
/// `pivot ^ (j - i - 1)`.
proof fn lemma_eliminate_until(s: Seq<Seq<int>>, i: int, j: int)
    requires
        square(s),
        0 <= i < s.len(),
        i < j <= s.len(),
    ensures
        det(eliminated_until(s, i, j)) == power(s[i][i], j - i - 1) * det(s),
    decreases j - i,
{
    if j == i + 1 {
        assert(eliminated_until(s, i, j) =~= s);
    } else {
        lemma_eliminate_until(s, i, j - 1);
        lemma_eliminate_one(s, i, j - 1);
        let d = s[i][i];
        let p = power(d, j - i - 2);
        assert(d * (p * det(s)) == (p * d) * det(s)) by (nonlinear_arith);
    }
}

/// A pivot step keeps the matrix square.
proof fn lemma_step_square(a: Seq<Seq<int>>, i: int)
    requires
        square(a),
        0 <= i < a.len(),
    ensures
        square(step(a, i)),
        step(a, i).len() == a.len(),
        square(pivoted(a, i)),
{
    lemma_first_nonzero(a, i, i);
}

/// The determinant after a pivot step, in terms of the one before.
proof fn lemma_step_det(a: Seq<Seq<int>>, i: int)
    requires
        square(a),
        0 <= i < a.len(),
    ensures
        pivot_of(a, i) < a.len() ==> pivoted(a, i)[i][i] != 0,
        pivot_of(a, i) < a.len() && pivot_of(a, i) != i ==> det(step(a, i)) == -power(
            pivoted(a, i)[i][i],
            a.len() - i - 1,
        ) * det(a),
        pivot_of(a, i) == i ==> det(step(a, i)) == power(pivoted(a, i)[i][i], a.len() - i - 1)
            * det(a),
        pivot_of(a, i) >= a.len() ==> step(a, i) == a,
{
    let n = a.len() as int;
    let p = pivot_of(a, i);
    lemma_first_nonzero(a, i, i);
    lemma_step_square(a, i);
    if p < n {
        let s = pivoted(a, i);
        lemma_eliminate_until(s, i, n);
        let q = power(s[i][i], n - i - 1);
        if p != i {
            lemma_det_swap(a, i, p);
            lemma_neg_mul(q, det(a));
            assert(q * (-det(a)) == -q * det(a)) by (nonlinear_arith);
        }
    }
}

/// The matrix after `i` steps is square, and its columns before `i` are zero
/// below the diagonal.
pub proof fn lemma_after_shape(m: Seq<Seq<int>>, i: int)
    requires
        square(m),
        0 <= i <= m.len(),
    ensures
        square(after(m, i)),
        after(m, i).len() == m.len(),
        forall|r: int, c: int| 0 <= c < i && c < r < m.len() ==> #[trigger] after(m, i)[r][c] == 0,
    decreases i,
{
    if i > 0 {
        let n = m.len() as int;
        lemma_after_shape(m, i - 1);
        let a = after(m, i - 1);
        let t = i - 1;
        lemma_step_square(a, t);
        lemma_first_nonzero(a, t, t);
        let p = pivot_of(a, t);
        assert forall|r: int, c: int| 0 <= c < i && c < r < n implies #[trigger] after(m, i)[r][c]
            == 0 by {
            if p < n {
                let s = pivoted(a, t);
                assert(forall|rr: int, cc: int| 0 <= cc < t && cc < rr < n ==> #[trigger] s[rr][cc] == 0);
                if r > t {
                    let d = s[t][t];
                    let x = s[r][t];
                    if c == t {
                        assert(d * x - x * d == 0) by (nonlinear_arith);
                    } else {
                        assert(s[r][c] == 0 && s[t][c] == 0);
                        assert(d * 0 - x * 0 == 0) by (nonlinear_arith);
                    }
                }
            }
        }
    }
}

/// The determinant after `i` steps is the determinant of `m` times the sign
/// of the row exchanges and the accumulated scale; the scale is never zero.
pub proof fn lemma_after_det(m: Seq<Seq<int>>, i: int)
    requires
        square(m),
        0 <= i <= m.len(),
    ensures
        det(after(m, i)) == sign_after(m, i) * total_after(m, i) * det(m),
        total_after(m, i) != 0,
        sign_after(m, i) == 1 || sign_after(m, i) == -1,
    decreases i,
{
    if i <= 0 {
        let x = det(m);
        assert(x == 1 * 1 * x) by (nonlinear_arith);
    } else {
        let n = m.len() as int;
        lemma_after_det(m, i - 1);
        lemma_after_shape(m, i - 1);
        let a = after(m, i - 1);
        lemma_step_det(a, i - 1);
        let sg = sign_after(m, i - 1);
        let tt = total_after(m, i - 1);
        let dm = det(m);
        if pivot_of(a, i - 1) < n {
            let q = power(pivoted(a, i - 1)[i - 1][i - 1], n - i);
            lemma_power_nonzero(pivoted(a, i - 1)[i - 1][i - 1], n - i);
            lemma_mul_nonzero(tt, q);
            assert(total_after(m, i) == tt * q);
            if pivot_of(a, i - 1) != i - 1 {
                assert(sign_after(m, i) == -sg);
                assert(det(after(m, i)) == -q * det(a));
                assert(-q * (sg * tt * dm) == (-sg) * (tt * q) * dm) by (nonlinear_arith);
            } else {
                assert(sign_after(m, i) == sg);
                assert(det(after(m, i)) == q * det(a));
                assert(q * (sg * tt * dm) == sg * (tt * q) * dm) by (nonlinear_arith);
            }
            assert(det(after(m, i)) == sign_after(m, i) * total_after(m, i) * det(m));
        } else {
            assert(after(m, i) == a);
            assert(sign_after(m, i) == sg);
            assert(total_after(m, i) == tt);
            assert(det(after(m, i)) == sign_after(m, i) * total_after(m, i) * det(m));
        }
    }
}

/// After the last step the signed diagonal product equals the accumulated
/// scale times the determinant, and the scale is not zero.
pub proof fn lemma_elimination_result(m: Seq<Seq<int>>)
    requires
        square(m),
    ensures
        sign_after(m, m.len() as int) * diag_prefix(after(m, m.len() as int), m.len() as int)
            == total_after(m, m.len() as int) * det(m),
        total_after(m, m.len() as int) != 0,
{
    let n = m.len() as int;
    lemma_after_shape(m, n);
    lemma_after_det(m, n);
    let f = after(m, n);
    assert(upper_triangular(f));
    lemma_det_upper_triangular(f);
    let sg = sign_after(m, n);
    let tt = total_after(m, n);
    let dm = det(m);
    assert(sg * (sg * tt * dm) == (sg * sg) * tt * dm) by (nonlinear_arith);
    assert(sg * sg == 1) by (nonlinear_arith)
        requires
            sg == 1 || sg == -1,
    ;
}

/// Dividing a multiple of `t` by `t` rounds nothing away.
pub proof fn lemma_trunc_div_exact(t: int, x: int)
    requires
        t != 0,
    ensures
        trunc_div(t * x, t) == x,
{
    let at = if t < 0 {
        -t
    } else {
        t
    };
    let ax = if x < 0 {
        -x
    } else {
        x
    };
    assert((if t * x < 0 {
        -(t * x)
    } else {
        t * x
    }) == at * ax) by (nonlinear_arith)
        requires
            at == (if t < 0 {
                -t
            } else {
                t
            }),
            ax == (if x < 0 {
                -x
            } else {
                x
            }),
    ;
    lemma_div_multiples_vanish(ax, at);
    assert(x != 0 ==> ((t * x < 0) <==> ((t < 0) != (x < 0)))) by (nonlinear_arith)
        requires
            t != 0,
    ;
    if x == 0 {
        assert(t * x == 0) by (nonlinear_arith)
            requires
                x == 0,
        ;
    }
}

/// The rows of a grid as sequences of integers.
pub open spec fn rows_of(g: Grid) -> Seq<Seq<int>> {
    Seq::new(g.height, |r: int| Seq::new(g.width, |c: int| g.at(r, c) as int))
}

/// The determinant of a grid, read as a square matrix of integers.
pub open spec fn determinant_of(g: Grid) -> int {
    det(rows_of(g))
}

/// What `determinant` returns for a matrix with abstract value `g`.
pub open spec fn determinant_result(g: Grid) -> Option<i64> {
    if g.height == g.width && elimination_fits(rows_of(g)) && in_i64(determinant_of(g)) {
        Some(determinant_of(g) as i64)
    } else {
        None
    }
}

/// `data` holds the `n x n` matrix `m` in row-major order.
pub open spec fn holds(data: Seq<i64>, n: int, m: Seq<Seq<int>>) -> bool {
    &&& data.len() == n * n
    &&& n * n <= usize::MAX
    &&& m.len() == n
    &&& square(m)
    &&& forall|r: int, c: int| 0 <= r < n && 0 <= c < n ==> #[trigger] m[r][c] == data[r * n + c] as int
}

/// Exchanges rows `i` and `p` of the `n x n` matrix stored in `mat`.
fn exchange_rows(mat: &mut Vec<i64>, n: usize, i: usize, p: usize, Ghost(a): Ghost<Seq<Seq<int>>>)
    requires
        holds(old(mat)@, n as int, a),
        i < n,
        p < n,
    ensures
        holds(final(mat)@, n as int, swap_rows(a, i as int, p as int)),
{
    let ghost sw = swap_rows(a, i as int, p as int);
    assert(square(sw));
    let mut c: usize = 0;
    while c < n
        invariant
            i < n,
            p < n,
            square(a),
            a.len() == n,
            sw == swap_rows(a, i as int, p as int),
            mat@.len() == n * n,
            n * n <= usize::MAX,
            c <= n,
            forall|r: int, cc: int|
                0 <= r < n && 0 <= cc < n ==> #[trigger] mat@[r * n + cc] as int == if cc < c {
                    sw[r][cc]
                } else {
                    a[r][cc]
                },
        decreases n - c,
    {
        proof {
            lemma_flat_index(n as int, n as int, i as int, c as int);
            lemma_flat_index(n as int, n as int, p as int, c as int);
        }
        let x = mat[i * n + c];
        let y = mat[p * n + c];
        mat.set(i * n + c, y);
        mat.set(p * n + c, x);
        assert forall|r: int, cc: int| 0 <= r < n && 0 <= cc < n implies #[trigger] mat@[r * n
            + cc] as int == if cc < c + 1 {
            sw[r][cc]
        } else {
            a[r][cc]
        } by {
            lemma_flat_index(n as int, n as int, r, cc);
            if r * n + cc == p * n + c {
                lemma_flat_unique(n as int, r, cc, p as int, c as int);
            } else if r * n + cc == i * n + c {
                lemma_flat_unique(n as int, r, cc, i as int, c as int);
            }
        }
        c = c + 1;
    }
    assert forall|r: int, cc: int| 0 <= r < n && 0 <= cc < n implies #[trigger] sw[r][cc]
        == mat@[r * n + cc] as int by {}
}

/// Replaces row `j` by `s[i][i] * s[j] - s[j][i] * s[i]`, given that the
/// rows strictly between `i` and `j` are already eliminated. Returns `false`,
/// leaving `mat` partly updated, when a value on the way does not fit.
fn eliminate_row(
    mat: &mut Vec<i64>,
    n: usize,
    i: usize,
    j: usize,
    Ghost(s): Ghost<Seq<Seq<int>>>,
) -> (ok: bool)
    requires
        holds(old(mat)@, n as int, eliminated_until(s, i as int, j as int)),
        square(s),
        s.len() == n,
        i < j < n,
    ensures
        final(mat)@.len() == n * n,
        ok ==> holds(final(mat)@, n as int, eliminated_until(s, i as int, j + 1)),
        ok ==> forall|k: int| 0 <= k < n ==> #[trigger] entry_fits(s, i as int, j as int, k),
        !ok ==> exists|k: int| 0 <= k < n && !#[trigger] entry_fits(s, i as int, j as int, k),
{
    let ghost e = eliminated_until(s, i as int, j as int);
    let ghost e2 = eliminated_until(s, i as int, j + 1);
    proof {
        lemma_flat_index(n as int, n as int, i as int, i as int);
        lemma_flat_index(n as int, n as int, j as int, i as int);
        assert(square(e2));
    }
    assert(e[i as int] == s[i as int] && e[j as int] == s[j as int]);
    assert(e[i as int][i as int] == s[i as int][i as int]);
    assert(e[j as int][i as int] == s[j as int][i as int]);
    let diag = mat[i * n + i];
    let row = mat[j * n + i];
    let mut k: usize = 0;
    while k < n
        invariant
            square(s),
            s.len() == n,
            i < j < n,
            e == eliminated_until(s, i as int, j as int),
            e2 == eliminated_until(s, i as int, j + 1),
            diag == s[i as int][i as int],
            row == s[j as int][i as int],
            mat@.len() == n * n,
            n * n <= usize::MAX,
            k <= n,
            forall|r: int, c: int|
                0 <= r < n && 0 <= c < n ==> #[trigger] mat@[r * n + c] as int == if r == j && c
                    < k {
                    e2[r][c]
                } else {
                    e[r][c]
                },
            forall|c: int| 0 <= c < k ==> #[trigger] entry_fits(s, i as int, j as int, c),
        decreases n - k,
    {
        proof {
            lemma_flat_index(n as int, n as int, i as int, k as int);
            lemma_flat_index(n as int, n as int, j as int, k as int);
        }
        let x = mat[j * n + k];
        let t = mat[i * n + k];
        assert(e[i as int] == s[i as int] && e[j as int] == s[j as int]);
        assert(x == e[j as int][k as int] && t == e[i as int][k as int]);
        let v = match diag.checked_mul(x) {
            None => {
                assert(!entry_fits(s, i as int, j as int, k as int));
                return false;
            },
            Some(scaled) => match row.checked_mul(t) {
                None => {
                    assert(!entry_fits(s, i as int, j as int, k as int));
                    return false;
                },
                Some(product) => match scaled.checked_sub(product) {
                    None => {
                        assert(!entry_fits(s, i as int, j as int, k as int));
                        return false;
                    },
                    Some(v) => v,
                },
            },
        };
        mat.set(j * n + k, v);
        assert forall|r: int, c: int| 0 <= r < n && 0 <= c < n implies #[trigger] mat@[r * n + c]
            as int == if r == j && c < k + 1 {
            e2[r][c]
        } else {
            e[r][c]
        } by {
            lemma_flat_index(n as int, n as int, r, c);
            if r * n + c == j * n + k {
                lemma_flat_unique(n as int, r, c, j as int, k as int);
            }
        }
        k = k + 1;
    }
    assert forall|r: int, c: int| 0 <= r < n && 0 <= c < n implies #[trigger] e2[r][c]
        == mat@[r * n + c] as int by {}
    true
}

/// The first row at or after `i` whose entry in column `i` is non-zero, or `n`.
fn find_pivot(mat: &Vec<i64>, n: usize, i: usize, Ghost(a): Ghost<Seq<Seq<int>>>) -> (index: usize)
    requires
        holds(mat@, n as int, a),
        i < n,
    ensures
        index == pivot_of(a, i as int),
        index <= n,
{
    let mut index: usize = i;
    while index < n
        invariant
            holds(mat@, n as int, a),
            i < n,
            i <= index <= n,
            forall|r: int| i <= r < index ==> #[trigger] a[r][i as int] == 0,
        decreases n - index,
    {
        proof {
            lemma_flat_index(n as int, n as int, index as int, i as int);
        }
        if mat[index * n + i] != 0 {
            proof {
                lemma_first_nonzero_found(a, i as int, i as int, index as int);
            }
            return index;
        }
        index = index + 1;
    }
    proof {
        lemma_first_nonzero_found(a, i as int, i as int, n as int);
    }
    n
}

/// Clears column `i` below the pivot row `i`, scaling each cleared row by the
/// pivot, and returns `total` times the pivot once per cleared row; `None`
/// when a value on the way does not fit.
fn clear_below_pivot(mat: &mut Vec<i64>, n: usize, i: usize, total: i64, Ghost(s): Ghost<Seq<Seq<int>>>) -> (r: Option<i64>)
    requires
        holds(old(mat)@, n as int, s),
        i < n,
    ensures
        r is Some <==> pivot_step_fits(s, i as int, total as int),
        r is Some ==> holds(final(mat)@, n as int, eliminated_until(s, i as int, n as int)),
        r is Some ==> r->0 == total * power(s[i as int][i as int], n - i - 1),
{
    let ghost d = s[i as int][i as int];
    let ghost tt = total as int;
    assert(holds(mat@, n as int, eliminated_until(s, i as int, i + 1))) by {
        assert(eliminated_until(s, i as int, i + 1) =~= s);
    }
    proof {
        lemma_flat_index(n as int, n as int, i as int, i as int);
    }
    let diag = mat[i * n + i];
    let mut scale = total;
    let mut j: usize = i + 1;
    while j < n
        invariant
            square(s),
            s.len() == n,
            i < j <= n,
            diag == d,
            d == s[i as int][i as int],
            tt == total as int,
            holds(mat@, n as int, eliminated_until(s, i as int, j as int)),
            scale == tt * power(d, j - i - 1),
            forall|jj: int, k: int| i < jj < j && 0 <= k < n ==> #[trigger] entry_fits(s, i as int, jj, k),
            forall|e: int| 1 <= e < j - i ==> in_i64(tt * #[trigger] power(d, e)),
        decreases n - j,
    {
        let ok = eliminate_row(mat, n, i, j, Ghost(s));
        if !ok {
            proof {
                let k = choose|k: int| 0 <= k < n && !#[trigger] entry_fits(s, i as int, j as int, k);
                assert(!entry_fits(s, i as int, j as int, k));
            }
            return None;
        }
        let ghost pw = power(d, j - i - 1);
        assert(power(d, j - i) == pw * d);
        assert(tt * pw * d == tt * (pw * d)) by (nonlinear_arith);
        match scale.checked_mul(diag) {
            None => {
                assert(!in_i64(tt * power(d, j - i)));
                assert(!in_i64(tt * power(s[i as int][i as int], j - i)));
                assert(!pivot_step_fits(s, i as int, tt));
                return None;
            },
            Some(t2) => {
                scale = t2;
            },
        }
        assert(in_i64(tt * power(d, j - i)));
        j = j + 1;
    }
    Some(scale)
}

impl Matrix {
    /// The determinant, by fraction-free elimination: for each column the
    /// first row at or below the diagonal with a non-zero entry becomes the
    /// pivot row (an exchange of two rows flips the sign), and the rows below
    /// it are scaled by the pivot instead of divided. The accumulated scale is
    /// divided out once at the end, so the division is exact.
    ///
    /// `None` when the matrix is not square, when a value computed on the way
    /// does not fit in an `i64`, or when the determinant itself does not.
    #[verifier::rlimit(40)]
    pub fn determinant(&self) -> (r: Option<i64>)
        requires
            self.wf(),
        ensures
            r == determinant_result(self@),
    {
        if self.height != self.width {
            return None;
        }
        let n = self.height;
        let ghost m0 = rows_of(self@);
        let mut mat: Vec<i64> = Vec::new();
        let mut q: usize = 0;
        while q < self.data.len()
            invariant
                self.wf(),
                q <= self.data@.len(),
                mat@ =~= self.data@.subrange(0, q as int),
            decreases self.data@.len() - q,
        {
            mat.push(self.data[q]);
            q = q + 1;
        }
        assert(mat@ =~= self.data@);
        assert(holds(mat@, n as int, m0)) by {
            assert forall|r: int, c: int| 0 <= r < n && 0 <= c < n implies #[trigger] m0[r][c]
                == mat@[r * n + c] as int by {}
        }
        let mut sign: i64 = 1;
        let mut total: i64 = 1;
        let mut i: usize = 0;
        while i < n
            invariant
                n == self@.height,
                n == self@.width,
                m0 == rows_of(self@),
                square(m0),
                m0.len() == n,
                i <= n,
                holds(mat@, n as int, after(m0, i as int)),
                sign == sign_after(m0, i as int),
                total == total_after(m0, i as int),
                forall|ii: int|
                    0 <= ii < i ==> step_fits(#[trigger] after(m0, ii), ii, total_after(m0, ii)),
            decreases n - i,
        {
            let ghost a = after(m0, i as int);
            proof {
                lemma_after_shape(m0, i as int);
                lemma_after_det(m0, i as int);
                lemma_step_det(a, i as int);
                lemma_step_square(a, i as int);
            }
            let index = find_pivot(&mat, n, i, Ghost(a));
            if index < n {
                let ghost s = pivoted(a, i as int);
                if index != i {
                    exchange_rows(&mut mat, n, i, index, Ghost(a));
                    sign = -sign;
                }
                assert(holds(mat@, n as int, eliminated_until(s, i as int, i + 1))) by {
                    assert(eliminated_until(s, i as int, i + 1) =~= s);
                }
                match clear_below_pivot(&mut mat, n, i, total, Ghost(s)) {
                    None => {
                        proof {
                            if elimination_fits(m0) {
                                assert(step_fits(after(m0, i as int), i as int, total_after(m0, i as int)));
                            }
                        }
                        return None;
                    },
                    Some(t2) => {
                        total = t2;
                    },
                }
                assert(step_fits(a, i as int, total_after(m0, i as int)));
                assert(eliminated_until(s, i as int, n as int) == step(a, i as int));
                assert(total == total_after(m0, i + 1));
            } else {
                assert(step(a, i as int) == a);
                assert(step_fits(a, i as int, total_after(m0, i as int)));
            }
            assert(after(m0, i + 1) == step(a, i as int));
            assert(forall|ii: int|
                0 <= ii < i + 1 ==> step_fits(#[trigger] after(m0, ii), ii, total_after(m0, ii)));
            i = i + 1;
        }
        proof {
            lemma_after_shape(m0, n as int);
            lemma_elimination_result(m0);
        }
        let ghost f = after(m0, n as int);
        let mut result: i64 = sign;
        let mut t: usize = 0;
        while t < n
            invariant
                holds(mat@, n as int, f),
                f == after(m0, n as int),
                m0 == rows_of(self@),
                n == self@.height,
                n == self@.width,
                m0.len() == n,
                t <= n,
                result as int == sign_after(m0, n as int) * diag_prefix(f, t as int),
                forall|tt: int|
                    1 <= tt <= t ==> in_i64(sign_after(m0, n as int) * #[trigger] diag_prefix(f, tt)),
            decreases n - t,
        {
            proof {
                lemma_flat_index(n as int, n as int, t as int, t as int);
                let sg = sign_after(m0, n as int);
                let dp = diag_prefix(f, t as int);
                let x = f[t as int][t as int];
                assert(sg * dp * x == sg * (dp * x)) by (nonlinear_arith);
                assert(diag_prefix(f, t + 1) == dp * x);
            }
            match result.checked_mul(mat[t * n + t]) {
                None => {
                    proof {
                        if elimination_fits(m0) {
                            assert(in_i64(sign_after(m0, n as int) * diag_prefix(f, t + 1)));
                        }
                    }
                    return None;
                },
                Some(v) => {
                    result = v;
                },
            }
            t = t + 1;
        }
        assert(elimination_fits(m0));
        proof {
            lemma_trunc_div_exact(total_after(m0, n as int), det(m0));
        }
        result.checked_div(total)
    }
}

/// Every entry of `g` divided by `d`, rounding toward zero, fits in an `i64`.
pub open spec fn quotients_fit(g: Grid, d: int) -> bool {
    forall|k: int| 0 <= k < g.data.len() ==> in_i64(#[trigger] trunc_div(g.data[k] as int, d))
}

/// The entries of `g` divided by `d`, rounding toward zero.
pub open spec fn divided(g: Grid, d: int) -> Grid {
    map_grid(g, |x: int| trunc_div(x, d))
}

impl Matrix {
    /// Every entry divided by the determinant, rounding toward zero. This is
    /// the inverse only where that division is exact and the matrix squared is
    /// its determinant times the identity; for a general matrix it is not.
    ///
    /// `None` when the determinant is absent or zero, or when a quotient does
    /// not fit in an `i64`.
    pub fn inverse(&self) -> (r: Option<Matrix>)
        requires
            self.wf(),
        ensures
            r is Some <==> ({
                &&& determinant_result(self@) is Some
                &&& determinant_result(self@)->0 != 0
                &&& quotients_fit(self@, determinant_result(self@)->0 as int)
            }),
            r is Some ==> r->0.wf() && r->0@ == divided(self@, determinant_result(self@)->0 as int),
    {
        let d = match self.determinant() {
            None => {
                return None;
            },
            Some(d) => d,
        };
        if d == 0 {
            return None;
        }
        if d == -1 {
            let n = self.data.len();
            let mut k: usize = 0;
            while k < n
                invariant
                    self.wf(),
                    n == self@.data.len(),
                    d == -1,
                    determinant_result(self@) == Some(d),
                    k <= n,
                    forall|q: int| 0 <= q < k ==> self@.data[q] != i64::MIN,
                decreases n - k,
            {
                if self.data[k] == i64::MIN {
                    assert(!in_i64(trunc_div(self@.data[k as int] as int, d as int)));
                    return None;
                }
                k = k + 1;
            }
        }
        assert forall|q: int| 0 <= q < self@.data.len() implies in_i64(
            #[trigger] trunc_div(self@.data[q] as int, d as int),
        ) by {
            let x = self@.data[q] as int;
            lemma_trunc_div_bound(x, d as int);
        }
        assert(quotients_fit(self@, d as int));
        assert(map_fits(self@, |x: int| trunc_div(x, d as int)));
        Some(self.scalar_div(d))
    }
}

/// Dividing an `i64` by a non-zero integer other than `-1`, or anything but
/// `i64::MIN` by `-1`, stays within `i64`.
proof fn lemma_trunc_div_bound(x: int, d: int)
    requires
        in_i64(x),
        d != 0,
        d == -1 ==> x != i64::MIN,
    ensures
        in_i64(trunc_div(x, d)),
{
    let ax = if x < 0 {
        -x
    } else {
        x
    };
    let ad = if d < 0 {
        -d
    } else {
        d
    };
    assert(0 <= ax / ad <= ax) by (nonlinear_arith)
        requires
            ax >= 0,
            ad >= 1,
    ;
    if ad == 1 {
        assert(ax / ad == ax) by (nonlinear_arith)
            requires
                ad == 1,
        ;
    } else {
        assert(ax / ad <= ax / 2) by (nonlinear_arith)
            requires
                ax >= 0,
                ad >= 2,
        ;
    }
}

} // verus!

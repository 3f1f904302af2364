//! Algebraic laws of the matrix operations, stated over the abstract values
//! that the operations' contracts use.
use vstd::prelude::*;

use crate::det::{
    det, diag_prefix, lemma_det_linear, lemma_det_upper_triangular, lin, square, upper_triangular,
};
use vstd::arithmetic::div_mod::lemma_fundamental_div_mod;

use crate::elim::{
    after, determinant_of, determinant_result, divided, eliminated_row, eliminated_until,
    elimination_fits, entry_fits, first_nonzero, lemma_trunc_div_exact, pivot_of, pivoted, power,
    quotients_fit, rows_of, sign_after, step, step_fits, total_after,
};
use crate::matrix::{filled_grid, is_identity, lemma_same_as_eq};
use crate::ops::{dot, in_i64, is_transpose, plus, product_fits, zip_fits, zip_grid};
use crate::{lemma_flat_index, Grid};

verus! {

/// Adding the zero matrix of the same shape changes nothing, and never
/// overflows.
pub proof fn lemma_add_zero(a: Grid)
    requires
        a.wf(),
    ensures
        zip_fits(a, filled_grid(a.height, a.width, 0), plus()),
        zip_grid(a, filled_grid(a.height, a.width, 0), plus()) == a,
{
    let z = filled_grid(a.height, a.width, 0);
    assert(zip_grid(a, z, plus()).data =~= a.data);
}

proof fn lemma_dot_identity_right(a: Grid, e: Grid, i: int, j: int, m: int)
    requires
        a.wf(),
        is_identity(e, a.width),
        0 <= i < a.height,
        0 <= j < a.width,
        0 <= m <= a.width,
    ensures
        dot(a, e, i, j, m) == if j < m {
            a.at(i, j) as int
        } else {
            0
        },
    decreases m,
{
    if m > 0 {
        lemma_dot_identity_right(a, e, i, j, m - 1);
        let x = a.at(i, m - 1) as int;
        assert(x * 1 == x && x * 0 == 0) by (nonlinear_arith);
        assert(e.at(m - 1, j) == if m - 1 == j {
            1i64
        } else {
            0i64
        });
    }
}

proof fn lemma_dot_identity_left(e: Grid, a: Grid, i: int, j: int, m: int)
    requires
        a.wf(),
        is_identity(e, a.height),
        0 <= i < a.height,
        0 <= j < a.width,
        0 <= m <= a.height,
    ensures
        dot(e, a, i, j, m) == if i < m {
            a.at(i, j) as int
        } else {
            0
        },
    decreases m,
{
    if m > 0 {
        lemma_dot_identity_left(e, a, i, j, m - 1);
        let x = a.at(m - 1, j) as int;
        assert(1 * x == x && 0 * x == 0) by (nonlinear_arith);
        assert(e.at(i, m - 1) == if i == m - 1 {
            1i64
        } else {
            0i64
        });
    }
}

/// `a * identity(a.width) == a`: every partial sum fits, and each entry of
/// the product is the entry of `a`.
pub proof fn lemma_mul_identity_right(a: Grid, e: Grid)
    requires
        a.wf(),
        is_identity(e, a.width),
    ensures
        product_fits(a, e),
        forall|i: int, j: int|
            0 <= i < a.height && 0 <= j < a.width ==> #[trigger] dot(a, e, i, j, a.width as int)
                == a.at(i, j) as int,
{
    assert forall|i: int, j: int, m: int|
        #![trigger a.at(i, m - 1), e.at(m - 1, j)]
        0 <= i < a.height && 0 <= j < e.width && 0 < m <= a.width implies in_i64(
            a.at(i, m - 1) as int * e.at(m - 1, j) as int,
        ) by {
        let x = a.at(i, m - 1) as int;
        assert(x * 1 == x && x * 0 == 0) by (nonlinear_arith);
        assert(e.at(m - 1, j) == if m - 1 == j {
            1i64
        } else {
            0i64
        });
    }
    assert forall|i: int, j: int, m: int|
        0 <= i < a.height && 0 <= j < e.width && 0 < m <= a.width implies in_i64(
            #[trigger] dot(a, e, i, j, m),
        ) by {
        lemma_dot_identity_right(a, e, i, j, m);
        let x = a.at(i, m - 1) as int;
        assert(x * 1 == x && x * 0 == 0) by (nonlinear_arith);
        assert(e.at(m - 1, j) == if m - 1 == j {
            1i64
        } else {
            0i64
        });
    }
    assert forall|i: int, j: int| 0 <= i < a.height && 0 <= j < a.width implies #[trigger] dot(
        a,
        e,
        i,
        j,
        a.width as int,
    ) == a.at(i, j) as int by {
        lemma_dot_identity_right(a, e, i, j, a.width as int);
    }
}

/// `identity(a.height) * a == a`: every partial sum fits, and each entry of
/// the product is the entry of `a`.
pub proof fn lemma_mul_identity_left(e: Grid, a: Grid)
    requires
        a.wf(),
        is_identity(e, a.height),
    ensures
        product_fits(e, a),
        forall|i: int, j: int|
            0 <= i < a.height && 0 <= j < a.width ==> #[trigger] dot(e, a, i, j, a.height as int)
                == a.at(i, j) as int,
{
    assert forall|i: int, j: int, m: int|
        #![trigger e.at(i, m - 1), a.at(m - 1, j)]
        0 <= i < e.height && 0 <= j < a.width && 0 < m <= e.width implies in_i64(
            e.at(i, m - 1) as int * a.at(m - 1, j) as int,
        ) by {
        let x = a.at(m - 1, j) as int;
        assert(1 * x == x && 0 * x == 0) by (nonlinear_arith);
        assert(e.at(i, m - 1) == if i == m - 1 {
            1i64
        } else {
            0i64
        });
    }
    assert forall|i: int, j: int, m: int|
        0 <= i < e.height && 0 <= j < a.width && 0 < m <= e.width implies in_i64(
            #[trigger] dot(e, a, i, j, m),
        ) by {
        lemma_dot_identity_left(e, a, i, j, m);
        let x = a.at(m - 1, j) as int;
        assert(1 * x == x && 0 * x == 0) by (nonlinear_arith);
        assert(e.at(i, m - 1) == if i == m - 1 {
            1i64
        } else {
            0i64
        });
    }
    assert forall|i: int, j: int| 0 <= i < a.height && 0 <= j < a.width implies #[trigger] dot(
        e,
        a,
        i,
        j,
        a.height as int,
    ) == a.at(i, j) as int by {
        lemma_dot_identity_left(e, a, i, j, a.height as int);
    }
}

/// Transposing twice gives back the matrix it started from, shape included.
pub proof fn lemma_transpose_involutive(a: Grid, b: Grid, c: Grid)
    requires
        a.wf(),
        c.wf(),
        is_transpose(b, a),
        is_transpose(c, b),
    ensures
        c == a,
{
    assert forall|r: int, col: int| 0 <= r < c.height && 0 <= col < c.width implies #[trigger] c.at(
        r,
        col,
    ) == a.at(r, col) by {
        assert(c.at(r, col) == b.at(col, r));
    }
    lemma_same_as_eq(c, a);
}

/// The identity matrix has determinant one.
pub proof fn lemma_det_identity(e: Grid, n: nat)
    requires
        is_identity(e, n),
    ensures
        determinant_of(e) == 1,
{
    let m = rows_of(e);
    assert(square(m));
    assert(upper_triangular(m));
    lemma_det_upper_triangular(m);
    lemma_diag_prefix_ones(m, n as int);
}

proof fn lemma_diag_prefix_ones(m: Seq<Seq<int>>, k: int)
    requires
        0 <= k <= m.len(),
        forall|i: int| 0 <= i < m.len() ==> #[trigger] m[i][i] == 1,
    ensures
        diag_prefix(m, k) == 1,
    decreases k,
{
    if k > 0 {
        lemma_diag_prefix_ones(m, k - 1);
    }
}

/// A matrix with a row of zeros has determinant zero.
pub proof fn lemma_det_zero_row(m: Seq<Seq<int>>, k: int)
    requires
        square(m),
        0 <= k < m.len(),
        forall|c: int| 0 <= c < m.len() ==> #[trigger] m[k][c] == 0,
    ensures
        det(m) == 0,
{
    let row = m[k];
    lemma_det_linear(m, k, 0, row, 0, row);
    assert(lin(0, row, 0, row) =~= row);
    assert(m.update(k, row) =~= m);
    let d = det(m);
    assert(0 * d + 0 * d == 0) by (nonlinear_arith);
}

/// Adding a multiple of one row to another leaves the determinant unchanged.
pub proof fn lemma_det_add_row_multiple(m: Seq<Seq<int>>, k: int, j: int, c: int)
    requires
        square(m),
        0 <= k < m.len(),
        0 <= j < m.len(),
        k != j,
    ensures
        det(m.update(k, lin(1, m[k], c, m[j]))) == det(m),
{
    lemma_det_linear(m, k, 1, m[k], c, m[j]);
    assert(m.update(k, m[k]) =~= m);
    if k < j {
        crate::det::lemma_det_equal_rows(m.update(k, m[j]), k, j);
    } else {
        crate::det::lemma_det_equal_rows(m.update(k, m[j]), j, k);
    }
    let d = det(m);
    assert(1 * d + c * 0 == d) by (nonlinear_arith);
}

proof fn lemma_dot_scaled(a: Grid, b: Grid, d: int, i: int, j: int, m: int)
    requires
        0 <= i < a.height,
        0 <= j < a.width,
        0 <= m <= a.width,
        a.height == a.width,
        forall|r: int, c: int|
            0 <= r < a.height && 0 <= c < a.width ==> #[trigger] a.at(r, c) as int == d * b.at(
                r,
                c,
            ) as int,
    ensures
        dot(a, a, i, j, m) == d * dot(b, a, i, j, m),
    decreases m,
{
    if m > 0 {
        lemma_dot_scaled(a, b, d, i, j, m - 1);
        let p = dot(b, a, i, j, m - 1);
        let x = b.at(i, m - 1) as int;
        let y = a.at(m - 1, j) as int;
        assert(a.at(i, m - 1) as int == d * x);
        assert(d * p + (d * x) * y == d * (p + x * y)) by (nonlinear_arith);
    }
}

/// Where `inverse` is present and the determinant `d` divides every entry,
/// `inverse(a) * a` is the identity exactly when `a * a` is `d` times the
/// identity.
pub proof fn lemma_inverse_times_matrix(a: Grid, d: i64)
    requires
        a.wf(),
        determinant_result(a) == Some(d),
        d != 0,
        quotients_fit(a, d as int),
        forall|k: int| 0 <= k < a.data.len() ==> #[trigger] a.data[k] as int % d as int == 0,
    ensures
        (forall|i: int, j: int|
            0 <= i < a.height && 0 <= j < a.width ==> #[trigger] dot(
                divided(a, d as int),
                a,
                i,
                j,
                a.width as int,
            ) == if i == j {
                1int
            } else {
                0int
            }) <==> (forall|i: int, j: int|
            0 <= i < a.height && 0 <= j < a.width ==> #[trigger] dot(a, a, i, j, a.width as int)
                == if i == j {
                d as int
            } else {
                0int
            }),
{
    let b = divided(a, d as int);
    let n = a.width as int;
    assert(a.height == a.width);
    assert forall|r: int, c: int| 0 <= r < a.height && 0 <= c < a.width implies #[trigger] a.at(
        r,
        c,
    ) as int == d * b.at(r, c) as int by {
        lemma_flat_index(a.height as int, a.width as int, r, c);
        let k = r * a.width + c;
        let x = a.data[k] as int;
        lemma_fundamental_div_mod(x, d as int);
        lemma_trunc_div_exact(d as int, x / d as int);
        assert(in_i64(crate::ops::trunc_div(x, d as int)));
    }
    assert forall|i: int, j: int| 0 <= i < n && 0 <= j < n implies #[trigger] dot(a, a, i, j, n)
        == d * dot(b, a, i, j, n) by {
        lemma_dot_scaled(a, b, d as int, i, j, n);
    }
    if forall|i: int, j: int|
        0 <= i < n && 0 <= j < n ==> #[trigger] dot(a, a, i, j, n) == if i == j {
            d as int
        } else {
            0int
        } {
        assert forall|i: int, j: int| 0 <= i < n && 0 <= j < n implies #[trigger] dot(b, a, i, j, n)
            == if i == j {
            1int
        } else {
            0int
        } by {
            let v = dot(b, a, i, j, n);
            let t = if i == j {
                1int
            } else {
                0int
            };
            let di = d as int;
            assert(di * 1 == di && di * 0 == 0) by (nonlinear_arith);
            assert(dot(a, a, i, j, n) == di * v);
            assert(di * v == di * t);
            lemma_cancel(di, v, t);
        }
    }
}

proof fn lemma_cancel(d: int, x: int, y: int)
    requires
        d != 0,
        d * x == d * y,
    ensures
        x == y,
{
    assert(x == y) by (nonlinear_arith)
        requires
            d != 0,
            d * x == d * y,
    ;
}

proof fn lemma_power_one(e: int)
    ensures
        power(1, e) == 1,
    decreases e,
{
    if e > 0 {
        lemma_power_one(e - 1);
    }
}

/// `m` is an identity matrix.
spec fn identity_rows(m: Seq<Seq<int>>) -> bool {
    &&& square(m)
    &&& forall|r: int, c: int| 0 <= r < m.len() && 0 <= c < m.len() ==> #[trigger] m[r][c] == if r
        == c {
        1int
    } else {
        0int
    }
}

proof fn lemma_step_identity(m: Seq<Seq<int>>, t: int)
    requires
        identity_rows(m),
        0 <= t < m.len(),
    ensures
        pivot_of(m, t) == t,
        pivoted(m, t) == m,
        step(m, t) == m,
        step_fits(m, t, 1),
{
    let n = m.len() as int;
    assert(m[t][t] == 1);
    assert(first_nonzero(m, t, t) == t);
    assert forall|r: int| 0 <= r < n implies #[trigger] eliminated_until(m, t, n)[r] == m[r] by {
        if r > t {
            assert forall|k: int| 0 <= k < n implies #[trigger] eliminated_row(m, t, r)[k] == m[r][k] by {
                assert(m[r][t] == 0);
                assert(m[t][t] == 1);
            }
            assert(eliminated_row(m, t, r) =~= m[r]);
        }
    }
    assert(eliminated_until(m, t, n) =~= m);
    assert forall|j: int, k: int| t < j < n && 0 <= k < n implies #[trigger] entry_fits(m, t, j, k) by {
        assert(m[j][t] == 0);
        assert(m[t][t] == 1);
        assert(m[j][k] == 0 || m[j][k] == 1);
    }
    assert forall|e: int| 1 <= e < n - t implies in_i64(1 * #[trigger] power(m[t][t], e)) by {
        lemma_power_one(e);
    }
}

/// Elimination leaves an identity matrix as it is, with no exchange and no
/// scaling, and every value on the way is `0` or `1`.
#[verifier::rlimit(30)]
proof fn lemma_after_identity(m: Seq<Seq<int>>, i: int)
    requires
        identity_rows(m),
        0 <= i <= m.len(),
    ensures
        after(m, i) == m,
        sign_after(m, i) == 1,
        total_after(m, i) == 1,
        forall|t: int| 0 <= t < i ==> step_fits(#[trigger] after(m, t), t, total_after(m, t)),
    decreases i,
{
    if i > 0 {
        let n = m.len() as int;
        let t = i - 1;
        lemma_after_identity(m, t);
        lemma_step_identity(m, t);
        lemma_power_one(n - i);
        assert(after(m, i) == step(after(m, t), t));
        assert(m[t][t] == 1);
        assert(total_after(m, i) == total_after(m, t) * power(m[t][t], n - i));
        assert(1int * 1int == 1int);
        assert(step_fits(after(m, t), t, total_after(m, t)));
    }
}

/// `determinant` of an identity matrix returns one.
pub proof fn lemma_determinant_identity(e: Grid, n: nat)
    requires
        is_identity(e, n),
    ensures
        determinant_result(e) == Some(1i64),
{
    let m = rows_of(e);
    assert(identity_rows(m));
    lemma_after_identity(m, n as int);
    lemma_det_identity(e, n);
    assert forall|t: int| 1 <= t <= n implies in_i64(
        sign_after(m, n as int) * #[trigger] diag_prefix(after(m, n as int), t),
    ) by {
        lemma_diag_prefix_ones(m, t);
    }
    assert(elimination_fits(m));
}

} // verus!

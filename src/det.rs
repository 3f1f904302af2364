//! The determinant of a square matrix over the integers, defined by cofactor
//! expansion along the first column, and the laws of it that elimination uses.
use vstd::prelude::*;

verus! {

/// Every row of `m` has as many entries as `m` has rows.
pub open spec fn square(m: Seq<Seq<int>>) -> bool {
    forall|i: int| 0 <= i < m.len() ==> (#[trigger] m[i]).len() == m.len()
}

/// `+1` at even positions, `-1` at odd ones.
pub open spec fn sign(i: int) -> int {
    if i % 2 == 0 {
        1
    } else {
        -1
    }
}

/// A row without its first entry.
pub open spec fn drop_first(row: Seq<int>) -> Seq<int> {
    row.subrange(1, row.len() as int)
}

/// `m` without row `i` and without its first column.
pub open spec fn minor(m: Seq<Seq<int>>, i: int) -> Seq<Seq<int>> {
    Seq::new(
        (m.len() - 1) as nat,
        |r: int|
            if r < i {
                drop_first(m[r])
            } else {
                drop_first(m[r + 1])
            },
    )
}

/// The determinant: `1` for the empty matrix, else the alternating sum over
/// the rows of first-column entry times the determinant of its minor.
pub open spec fn det(m: Seq<Seq<int>>) -> int
    decreases m.len(), 2int, 0int,
{
    if m.len() == 0 {
        1
    } else {
        cofactor_sum(m, m.len() as int)
    }
}

/// The sum of the first `k` terms of the expansion of `det(m)`.
pub open spec fn cofactor_sum(m: Seq<Seq<int>>, k: int) -> int
    decreases m.len(), 1int, k,
{
    if k <= 0 {
        0
    } else {
        cofactor_sum(m, k - 1) + term(m, k - 1)
    }
}

/// Term `i` of the expansion of `det(m)` along the first column.
pub open spec fn term(m: Seq<Seq<int>>, i: int) -> int
    decreases m.len(), 0int, 0int,
{
    if m.len() == 0 {
        0
    } else {
        sign(i) * m[i][0] * det(minor(m, i))
    }
}

/// `a * u + b * v`, entry by entry.
pub open spec fn lin(a: int, u: Seq<int>, b: int, v: Seq<int>) -> Seq<int> {
    Seq::new(u.len(), |j: int| a * u[j] + b * v[j])
}

/// `m` with rows `p` and `q` exchanged.
pub open spec fn swap_rows(m: Seq<Seq<int>>, p: int, q: int) -> Seq<Seq<int>> {
    m.update(p, m[q]).update(q, m[p])
}

/// Product of the first `k` diagonal entries.
pub open spec fn diag_prefix(m: Seq<Seq<int>>, k: int) -> int
    decreases k,
{
    if k <= 0 {
        1
    } else {
        diag_prefix(m, k - 1) * m[k - 1][k - 1]
    }
}

/// Every entry below the diagonal is zero.
pub open spec fn upper_triangular(m: Seq<Seq<int>>) -> bool {
    forall|r: int, c: int| 0 <= c < r < m.len() ==> #[trigger] m[r][c] == 0
}

proof fn lemma_sign_step(i: int)
    ensures
        sign(i + 1) == -sign(i),
{
}

proof fn lemma_minor_square(m: Seq<Seq<int>>, i: int)
    requires
        square(m),
        m.len() > 0,
    ensures
        minor(m, i).len() == m.len() - 1,
        square(minor(m, i)),
{
}

/// Replacing row `k` commutes with taking a minor.
proof fn lemma_minor_update(m: Seq<Seq<int>>, i: int, k: int, row: Seq<int>)
    requires
        square(m),
        0 <= i < m.len(),
        0 <= k < m.len(),
        row.len() == m.len(),
    ensures
        i == k ==> minor(m.update(k, row), i) == minor(m, i),
        i < k ==> minor(m.update(k, row), i) == minor(m, i).update(k - 1, drop_first(row)),
        k < i ==> minor(m.update(k, row), i) == minor(m, i).update(k, drop_first(row)),
{
    let mu = m.update(k, row);
    if i == k {
        assert(minor(mu, i) =~= minor(m, i));
    } else if i < k {
        assert(minor(mu, i) =~= minor(m, i).update(k - 1, drop_first(row)));
    } else {
        assert(minor(mu, i) =~= minor(m, i).update(k, drop_first(row)));
    }
}

proof fn lemma_scale_sum(s: int, a: int, x: int, b: int, y: int, d: int)
    ensures
        s * (a * x + b * y) * d == a * (s * x * d) + b * (s * y * d),
{
    let p = a * x;
    let q = b * y;
    assert(s * (p + q) == s * p + s * q) by (nonlinear_arith);
    assert((s * p + s * q) * d == (s * p) * d + (s * q) * d) by (nonlinear_arith);
    assert((s * (a * x)) * d == a * (s * x * d)) by (nonlinear_arith);
    assert((s * (b * y)) * d == b * (s * y * d)) by (nonlinear_arith);
}

/// Determinant expansion of a one-step longer prefix.
proof fn lemma_cofactor_unfold(m: Seq<Seq<int>>, k: int)
    requires
        k >= 0,
    ensures
        cofactor_sum(m, k + 1) == cofactor_sum(m, k) + term(m, k),
{
}

/// The determinant is linear in each row.
pub proof fn lemma_det_linear(m: Seq<Seq<int>>, k: int, a: int, u: Seq<int>, b: int, v: Seq<int>)
    requires
        square(m),
        0 <= k < m.len(),
        u.len() == m.len(),
        v.len() == m.len(),
    ensures
        det(m.update(k, lin(a, u, b, v))) == a * det(m.update(k, u)) + b * det(m.update(k, v)),
    decreases m.len(),
{
    let n = m.len() as int;
    let mw = m.update(k, lin(a, u, b, v));
    let mu = m.update(k, u);
    let mv = m.update(k, v);
    assert forall|i: int| 0 <= i < n implies #[trigger] term(mw, i) == a * term(mu, i) + b * term(
        mv,
        i,
    ) by {
        lemma_minor_update(m, i, k, lin(a, u, b, v));
        lemma_minor_update(m, i, k, u);
        lemma_minor_update(m, i, k, v);
        lemma_minor_square(m, i);
        if i == k {
            let d = det(minor(m, i));
            let s = sign(i);
            let u0 = u[0];
            let v0 = v[0];
            assert(mw[i][0] == a * u0 + b * v0);
            lemma_scale_sum(s, a, u0, b, v0, d);
        } else {
            let kk = if i < k {
                k - 1
            } else {
                k
            };
            assert(drop_first(lin(a, u, b, v)) =~= lin(a, drop_first(u), b, drop_first(v)));
            lemma_det_linear(minor(m, i), kk, a, drop_first(u), b, drop_first(v));
            let c = m[i][0];
            let s = sign(i);
            let du = det(minor(mu, i));
            let dv = det(minor(mv, i));
            assert(mw[i][0] == c && mu[i][0] == c && mv[i][0] == c);
            lemma_scale_sum(s * c, a, du, b, dv, 1);
        }
    }
    assert forall|t: int| 0 <= t <= n implies #[trigger] cofactor_sum(mw, t) == a * cofactor_sum(
        mu,
        t,
    ) + b * cofactor_sum(mv, t) by {
        lemma_linear_sums(mw, mu, mv, a, b, t);
    }
    assert(cofactor_sum(mw, n) == a * cofactor_sum(mu, n) + b * cofactor_sum(mv, n));
}

proof fn lemma_linear_sums(
    mw: Seq<Seq<int>>,
    mu: Seq<Seq<int>>,
    mv: Seq<Seq<int>>,
    a: int,
    b: int,
    t: int,
)
    requires
        0 <= t <= mw.len(),
        forall|i: int| 0 <= i < t ==> #[trigger] term(mw, i) == a * term(mu, i) + b * term(mv, i),
    ensures
        cofactor_sum(mw, t) == a * cofactor_sum(mu, t) + b * cofactor_sum(mv, t),
    decreases t,
{
    if t == 0 {
        assert(a * 0 + b * 0 == 0) by (nonlinear_arith);
    } else {
        lemma_linear_sums(mw, mu, mv, a, b, t - 1);
        let x = cofactor_sum(mu, t - 1);
        let y = cofactor_sum(mv, t - 1);
        let p = term(mu, t - 1);
        let q = term(mv, t - 1);
        assert(a * (x + p) + b * (y + q) == (a * x + b * y) + (a * p + b * q)) by (nonlinear_arith);
        assert(cofactor_sum(mu, t) == x + p);
        assert(cofactor_sum(mv, t) == y + q);
        assert(cofactor_sum(mw, t) == cofactor_sum(mw, t - 1) + term(mw, t - 1));
    }
}

/// Exchanging two adjacent rows negates the determinant.
pub proof fn lemma_det_swap_adjacent(m: Seq<Seq<int>>, k: int)
    requires
        square(m),
        0 <= k,
        k + 1 < m.len(),
    ensures
        det(swap_rows(m, k, k + 1)) == -det(m),
    decreases m.len(),
{
    let n = m.len() as int;
    let sm = swap_rows(m, k, k + 1);
    assert forall|i: int| 0 <= i < n && i != k && i != k + 1 implies #[trigger] term(sm, i) == -term(
        m,
        i,
    ) by {
        lemma_minor_square(m, i);
        if i < k {
            assert(minor(sm, i) =~= swap_rows(minor(m, i), k - 1, k));
            lemma_det_swap_adjacent(minor(m, i), k - 1);
        } else {
            assert(minor(sm, i) =~= swap_rows(minor(m, i), k, k + 1));
            lemma_det_swap_adjacent(minor(m, i), k);
        }
        let s = sign(i);
        let c = m[i][0];
        let d = det(minor(m, i));
        assert(s * c * (-d) == -(s * c * d)) by (nonlinear_arith);
    }
    assert(minor(sm, k) =~= minor(m, k + 1));
    assert(minor(sm, k + 1) =~= minor(m, k));
    lemma_sign_step(k);
    let s = sign(k);
    let c0 = m[k][0];
    let c1 = m[k + 1][0];
    let d0 = det(minor(m, k));
    let d1 = det(minor(m, k + 1));
    assert(s * c1 * d1 == -((-s) * c1 * d1)) by (nonlinear_arith);
    assert((-s) * c0 * d0 == -(s * c0 * d0)) by (nonlinear_arith);
    assert(term(sm, k) == -term(m, k + 1));
    assert(term(sm, k + 1) == -term(m, k));
    lemma_negated_sums(sm, m, k, n);
}

proof fn lemma_negated_sums(sm: Seq<Seq<int>>, m: Seq<Seq<int>>, k: int, t: int)
    requires
        0 <= k,
        0 <= t <= m.len(),
        t <= k || t >= k + 2,
        forall|i: int| 0 <= i < m.len() && i != k && i != k + 1 ==> #[trigger] term(sm, i) == -term(m, i),
        term(sm, k) == -term(m, k + 1),
        term(sm, k + 1) == -term(m, k),
    ensures
        cofactor_sum(sm, t) == -cofactor_sum(m, t),
    decreases t,
{
    if t == 0 {
    } else if t == k + 2 {
        lemma_negated_sums(sm, m, k, k);
        lemma_cofactor_unfold(sm, k);
        lemma_cofactor_unfold(sm, k + 1);
        lemma_cofactor_unfold(m, k);
        lemma_cofactor_unfold(m, k + 1);
    } else {
        lemma_negated_sums(sm, m, k, t - 1);
        lemma_cofactor_unfold(sm, t - 1);
        lemma_cofactor_unfold(m, t - 1);
    }
}

/// A matrix with two equal rows has determinant zero.
pub proof fn lemma_det_equal_rows(m: Seq<Seq<int>>, p: int, q: int)
    requires
        square(m),
        0 <= p < q < m.len(),
        m[p] == m[q],
    ensures
        det(m) == 0,
    decreases q - p,
{
    if q == p + 1 {
        assert(swap_rows(m, p, q) =~= m);
        lemma_det_swap_adjacent(m, p);
    } else {
        let m2 = swap_rows(m, q - 1, q);
        assert(m2[p] == m2[q - 1]);
        lemma_det_equal_rows(m2, p, q - 1);
        lemma_det_swap_adjacent(m, q - 1);
    }
}

/// Exchanging two distinct rows negates the determinant.
pub proof fn lemma_det_swap(m: Seq<Seq<int>>, p: int, q: int)
    requires
        square(m),
        0 <= p < m.len(),
        0 <= q < m.len(),
        p != q,
    ensures
        det(swap_rows(m, p, q)) == -det(m),
    decreases
            if q < p {
                1int
            } else {
                0int
            },
{
    if q < p {
        assert(swap_rows(m, p, q) =~= swap_rows(m, q, p));
        lemma_det_swap(m, q, p);
    } else {
        let rp = m[p];
        let rq = m[q];
        let w = lin(1, rp, 1, rq);
        let base = m.update(q, w);
        lemma_det_linear(base, p, 1, rp, 1, rq);
        let x = base.update(p, w);
        lemma_det_equal_rows(x, p, q);
        assert(base.update(p, rp) =~= m.update(q, w));
        lemma_det_linear(m, q, 1, rp, 1, rq);
        assert(m.update(q, rq) =~= m);
        lemma_det_equal_rows(m.update(q, rp), p, q);
        let mp = m.update(p, rq);
        assert(base.update(p, rq) =~= mp.update(q, w));
        lemma_det_linear(mp, q, 1, rp, 1, rq);
        assert(mp.update(q, rp) =~= swap_rows(m, p, q));
        lemma_det_equal_rows(mp.update(q, rq), p, q);
    }
}

proof fn lemma_leading_term(m: Seq<Seq<int>>, t: int)
    requires
        square(m),
        1 <= t <= m.len(),
        forall|i: int| 1 <= i < m.len() ==> #[trigger] m[i][0] == 0,
    ensures
        cofactor_sum(m, t) == term(m, 0),
    decreases t,
{
    lemma_cofactor_unfold(m, t - 1);
    if t > 1 {
        lemma_leading_term(m, t - 1);
        let s = sign(t - 1);
        let d = det(minor(m, t - 1));
        assert(m[t - 1][0] == 0);
        assert(s * 0 * d == 0) by (nonlinear_arith);
        assert(term(m, t - 1) == s * m[t - 1][0] * d);
    } else {
        assert(cofactor_sum(m, 0) == 0);
    }
}

proof fn lemma_diag_prefix_minor(m: Seq<Seq<int>>, k: int)
    requires
        square(m),
        0 <= k < m.len(),
    ensures
        m[0][0] * diag_prefix(minor(m, 0), k) == diag_prefix(m, k + 1),
    decreases k,
{
    if k > 0 {
        lemma_diag_prefix_minor(m, k - 1);
        let a = m[0][0];
        let x = diag_prefix(minor(m, 0), k - 1);
        let y = minor(m, 0)[k - 1][k - 1];
        assert(y == m[k][k]);
        assert(a * (x * y) == (a * x) * y) by (nonlinear_arith);
        assert(diag_prefix(minor(m, 0), k) == x * y);
        assert(diag_prefix(m, k + 1) == diag_prefix(m, k) * m[k][k]);
    } else {
        assert(diag_prefix(m, 1) == diag_prefix(m, 0) * m[0][0]);
        assert(diag_prefix(minor(m, 0), 0) == 1);
    }
}

/// The determinant of an upper triangular matrix is the product of its
/// diagonal.
pub proof fn lemma_det_upper_triangular(m: Seq<Seq<int>>)
    requires
        square(m),
        upper_triangular(m),
    ensures
        det(m) == diag_prefix(m, m.len() as int),
    decreases m.len(),
{
    let n = m.len() as int;
    if n > 0 {
        lemma_minor_square(m, 0);
        let mi = minor(m, 0);
        assert forall|r: int, c: int| 0 <= c < r < mi.len() implies #[trigger] mi[r][c] == 0 by {
            assert(mi[r][c] == m[r + 1][c + 1]);
        }
        lemma_det_upper_triangular(mi);
        assert forall|i: int| 1 <= i < n implies #[trigger] m[i][0] == 0 by {
            assert(m[i][0] == 0);
        }
        lemma_leading_term(m, n);
        lemma_diag_prefix_minor(m, n - 1);
    }
}

} // verus!

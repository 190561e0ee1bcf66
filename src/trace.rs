use crate::complex::{
    c_add, c_conj, c_mul, c_one, c_zero, lemma_mul_assoc, lemma_mul_comm, lemma_mul_distributes,
    lemma_mul_one, lemma_mul_zero, CInt,
};
use crate::laws::{diag_re_sum, lemma_inner_product_identity, trace_re};
use crate::matrix::{
    conj_transpose_spec, dot_spec, identity_spec, inner_product_spec, is_square, mul_spec,
    rotate_spec, row_sum, rows_sum, same_square, Mat,
};
use vstd::prelude::*;

verus! {

/// The sum `f(0) + ... + f(n - 1)`.
pub open spec fn csum(f: spec_fn(int) -> CInt, n: nat) -> CInt
    decreases n,
{
    if n == 0 {
        c_zero()
    } else {
        c_add(csum(f, (n - 1) as nat), f(n - 1))
    }
}

proof fn lemma_csum_ext(f: spec_fn(int) -> CInt, g: spec_fn(int) -> CInt, n: nat)
    requires
        forall|i: int| 0 <= i < n ==> #[trigger] f(i) == g(i),
    ensures
        csum(f, n) == csum(g, n),
    decreases n,
{
    if n > 0 {
        lemma_csum_ext(f, g, (n - 1) as nat);
    }
}

proof fn lemma_csum_add(f: spec_fn(int) -> CInt, g: spec_fn(int) -> CInt, n: nat)
    ensures
        csum(|i: int| c_add(f(i), g(i)), n) == c_add(csum(f, n), csum(g, n)),
    decreases n,
{
    if n > 0 {
        lemma_csum_add(f, g, (n - 1) as nat);
    }
}

proof fn lemma_csum_scale(c: CInt, f: spec_fn(int) -> CInt, n: nat)
    ensures
        csum(|i: int| c_mul(c, f(i)), n) == c_mul(c, csum(f, n)),
    decreases n,
{
    if n == 0 {
        lemma_mul_zero(c);
    } else {
        lemma_csum_scale(c, f, (n - 1) as nat);
        lemma_mul_distributes(c, csum(f, (n - 1) as nat), f(n - 1));
    }
}

/// Where `f(i) = row[i] * [i == k]`, only the term at `k` survives.
proof fn lemma_csum_delta(f: spec_fn(int) -> CInt, row: Seq<CInt>, k: int, n: nat)
    requires
        0 <= k < n,
        forall|i: int| 0 <= i < n ==> #[trigger] f(i) == c_mul(
            row[i],
            if i == k { c_one() } else { c_zero() },
        ),
    ensures
        csum(f, n) == row[k],
{
    lemma_csum_delta_prefix(f, row, k, n);
}

proof fn lemma_csum_delta_prefix(f: spec_fn(int) -> CInt, row: Seq<CInt>, k: int, m: nat)
    requires
        0 <= k,
        forall|i: int| 0 <= i < m ==> #[trigger] f(i) == c_mul(
            row[i],
            if i == k { c_one() } else { c_zero() },
        ),
    ensures
        csum(f, m) == if k < m {
            row[k]
        } else {
            c_zero()
        },
    decreases m,
{
    if m > 0 {
        lemma_csum_delta_prefix(f, row, k, (m - 1) as nat);
        let t = m - 1;
        lemma_mul_one(row[t]);
        lemma_mul_zero(row[t]);
    }
}

proof fn lemma_csum_zeros(f: spec_fn(int) -> CInt, n: nat)
    requires
        forall|i: int| 0 <= i < n ==> #[trigger] f(i) == c_zero(),
    ensures
        csum(f, n) == c_zero(),
    decreases n,
{
    if n > 0 {
        lemma_csum_zeros(f, (n - 1) as nat);
    }
}

/// Sums over a rectangle may be taken in either order.
proof fn lemma_csum_swap(f: spec_fn(int, int) -> CInt, n: nat, m: nat)
    ensures
        csum(|i: int| csum(|k: int| f(i, k), m), n) == csum(|k: int| csum(|i: int| f(i, k), n), m),
    decreases n,
{
    if n > 0 {
        let n1 = (n - 1) as nat;
        lemma_csum_swap(f, n1, m);
        let g = |k: int| csum(|i: int| f(i, k), n1);
        let h = |k: int| f(n1 as int, k);
        lemma_csum_add(g, h, m);
        lemma_csum_ext(|i: int| c_add(g(i), h(i)), |k: int| csum(|i: int| f(i, k), n), m);
    } else {
        lemma_csum_zeros(|k: int| csum(|i: int| f(i, k), 0), m);
    }
}

proof fn lemma_dot_is_csum(a: Mat, b: Mat, i: int, j: int, k: nat)
    ensures
        dot_spec(a, b, i, j, k) == csum(|t: int| c_mul(a[i][t], b[t][j]), k),
    decreases k,
{
    if k > 0 {
        lemma_dot_is_csum(a, b, i, j, (k - 1) as nat);
    }
}

proof fn lemma_diag_is_csum(a: Mat, k: nat)
    ensures
        diag_re_sum(a, k) == csum(|i: int| a[i][i], k).re,
    decreases k,
{
    if k > 0 {
        lemma_diag_is_csum(a, (k - 1) as nat);
    }
}

/// `u` is square and `u† * u` is the identity.
pub open spec fn is_unitary(u: Mat) -> bool {
    is_square(u) && mul_spec(conj_transpose_spec(u), u) == identity_spec(u.len())
}

/// One term `u[i][k] * m[k][j] * conj(u[i][j])` of the trace of `u * m * u†`.
spec fn term(u: Mat, m: Mat, i: int, k: int, j: int) -> CInt {
    c_mul(u[i][k], c_mul(m[k][j], c_conj(u[i][j])))
}

spec fn sum_j(u: Mat, m: Mat, n: nat, i: int, k: int) -> CInt {
    csum(|j: int| term(u, m, i, k, j), n)
}

spec fn sum_kj(u: Mat, m: Mat, n: nat, i: int) -> CInt {
    csum(|k: int| sum_j(u, m, n, i, k), n)
}

spec fn sum_ij(u: Mat, m: Mat, n: nat, k: int) -> CInt {
    csum(|i: int| sum_j(u, m, n, i, k), n)
}

spec fn sum_i(u: Mat, m: Mat, n: nat, k: int, j: int) -> CInt {
    csum(|i: int| term(u, m, i, k, j), n)
}

spec fn sum_ji(u: Mat, m: Mat, n: nat, k: int) -> CInt {
    csum(|j: int| sum_i(u, m, n, k, j), n)
}

proof fn lemma_diag_entry(m: Mat, u: Mat, i: int)
    requires
        is_square(m),
        is_square(u),
        m.len() == u.len(),
        0 <= i < u.len(),
    ensures
        rotate_spec(m, u)[i][i] == sum_kj(u, m, u.len(), i),
{
    let n = u.len();
    let ct = conj_transpose_spec(u);
    let x = mul_spec(m, ct);
    lemma_dot_is_csum(u, x, i, i, n);
    assert forall|k: int| 0 <= k < n implies #[trigger] c_mul(u[i][k], x[k][i]) == sum_j(
        u,
        m,
        n,
        i,
        k,
    ) by {
        lemma_dot_is_csum(m, ct, k, i, n);
        lemma_csum_ext(
            |t: int| c_mul(m[k][t], ct[t][i]),
            |t: int| c_mul(m[k][t], c_conj(u[i][t])),
            n,
        );
        lemma_csum_scale(u[i][k], |t: int| c_mul(m[k][t], c_conj(u[i][t])), n);
        lemma_csum_ext(
            |t: int| c_mul(u[i][k], (|t: int| c_mul(m[k][t], c_conj(u[i][t])))(t)),
            |j: int| term(u, m, i, k, j),
            n,
        );
    }
    lemma_csum_ext(|t: int| c_mul(u[i][t], x[t][i]), |k: int| sum_j(u, m, n, i, k), n);
}

proof fn lemma_swap_outer(u: Mat, m: Mat, n: nat)
    ensures
        csum(|i: int| sum_kj(u, m, n, i), n) == csum(|k: int| sum_ij(u, m, n, k), n),
{
    let f = |i: int, k: int| sum_j(u, m, n, i, k);
    lemma_csum_swap(f, n, n);
    assert forall|i: int| 0 <= i < n implies #[trigger] sum_kj(u, m, n, i) == csum(
        |k: int| f(i, k),
        n,
    ) by {
        lemma_csum_ext(|k: int| f(i, k), |k: int| sum_j(u, m, n, i, k), n);
    }
    lemma_csum_ext(|i: int| csum(|k: int| f(i, k), n), |i: int| sum_kj(u, m, n, i), n);
    assert forall|k: int| 0 <= k < n implies #[trigger] sum_ij(u, m, n, k) == csum(
        |i: int| f(i, k),
        n,
    ) by {
        lemma_csum_ext(|i: int| f(i, k), |i: int| sum_j(u, m, n, i, k), n);
    }
    lemma_csum_ext(|k: int| csum(|i: int| f(i, k), n), |k: int| sum_ij(u, m, n, k), n);
}

proof fn lemma_swap_inner(u: Mat, m: Mat, n: nat, k: int)
    ensures
        sum_ij(u, m, n, k) == sum_ji(u, m, n, k),
{
    let f = |i: int, j: int| term(u, m, i, k, j);
    lemma_csum_swap(f, n, n);
    assert forall|i: int| 0 <= i < n implies #[trigger] sum_j(u, m, n, i, k) == csum(
        |j: int| f(i, j),
        n,
    ) by {
        lemma_csum_ext(|j: int| f(i, j), |j: int| term(u, m, i, k, j), n);
    }
    lemma_csum_ext(|i: int| csum(|j: int| f(i, j), n), |i: int| sum_j(u, m, n, i, k), n);
    assert forall|j: int| 0 <= j < n implies #[trigger] sum_i(u, m, n, k, j) == csum(
        |i: int| f(i, j),
        n,
    ) by {
        lemma_csum_ext(|i: int| f(i, j), |i: int| term(u, m, i, k, j), n);
    }
    lemma_csum_ext(|j: int| csum(|i: int| f(i, j), n), |j: int| sum_i(u, m, n, k, j), n);
}

proof fn lemma_column_sum(m: Mat, u: Mat, k: int, j: int)
    requires
        is_square(m),
        is_unitary(u),
        m.len() == u.len(),
        0 <= k < u.len(),
        0 <= j < u.len(),
    ensures
        sum_i(u, m, u.len(), k, j) == c_mul(m[k][j], if j == k { c_one() } else { c_zero() }),
{
    let n = u.len();
    let ct = conj_transpose_spec(u);
    assert forall|i: int| 0 <= i < n implies #[trigger] term(u, m, i, k, j) == c_mul(
        m[k][j],
        c_mul(ct[j][i], u[i][k]),
    ) by {
        let a = u[i][k];
        let b = m[k][j];
        let c = c_conj(u[i][j]);
        lemma_mul_assoc(a, b, c);
        lemma_mul_comm(a, b);
        lemma_mul_assoc(b, a, c);
        lemma_mul_comm(a, c);
    }
    lemma_csum_ext(
        |i: int| term(u, m, i, k, j),
        |i: int| c_mul(m[k][j], (|i: int| c_mul(ct[j][i], u[i][k]))(i)),
        n,
    );
    lemma_csum_scale(m[k][j], |i: int| c_mul(ct[j][i], u[i][k]), n);
    lemma_dot_is_csum(ct, u, j, k, n);
    assert(mul_spec(ct, u)[j][k] == dot_spec(ct, u, j, k, n));
    assert(identity_spec(n)[j][k] == if j == k { c_one() } else { c_zero() });
}

/// The complex trace of `u * m * u†` is the complex trace of `m`.
proof fn lemma_rotate_diag_sum(m: Mat, u: Mat)
    requires
        is_square(m),
        is_unitary(u),
        m.len() == u.len(),
    ensures
        csum(|i: int| rotate_spec(m, u)[i][i], u.len()) == csum(|k: int| m[k][k], u.len()),
{
    let n = u.len();
    let r = rotate_spec(m, u);
    assert forall|i: int| 0 <= i < n implies #[trigger] r[i][i] == sum_kj(u, m, n, i) by {
        lemma_diag_entry(m, u, i);
    }
    lemma_csum_ext(|i: int| r[i][i], |i: int| sum_kj(u, m, n, i), n);
    lemma_swap_outer(u, m, n);
    assert forall|k: int| 0 <= k < n implies #[trigger] sum_ij(u, m, n, k) == m[k][k] by {
        lemma_swap_inner(u, m, n, k);
        assert forall|j: int| 0 <= j < n implies #[trigger] sum_i(u, m, n, k, j) == c_mul(
            m[k][j],
            if j == k { c_one() } else { c_zero() },
        ) by {
            lemma_column_sum(m, u, k, j);
        }
        lemma_csum_delta(|j: int| sum_i(u, m, n, k, j), m[k], k, n);
    }
    lemma_csum_ext(|k: int| sum_ij(u, m, n, k), |k: int| m[k][k], n);
}

/// A similarity transform by a unitary keeps the inner product with the
/// identity, that is the trace (for every `m`, Hermitian or not).
pub proof fn lemma_rotate_keeps_trace(m: Mat, u: Mat)
    requires
        is_square(m),
        is_unitary(u),
        m.len() == u.len(),
    ensures
        inner_product_spec(rotate_spec(m, u), identity_spec(m.len())) == inner_product_spec(
            m,
            identity_spec(m.len()),
        ),
{
    let r = rotate_spec(m, u);
    assert(is_square(r));
    assert(r.len() == m.len());
    lemma_inner_product_identity(r);
    lemma_inner_product_identity(m);
    lemma_rotate_diag_sum(m, u);
    lemma_diag_is_csum(r, r.len());
    lemma_diag_is_csum(m, m.len());
}

spec fn tp_entry(a: Mat, b: Mat, r: int, t: int) -> CInt {
    c_mul(a[r][t], b[t][r])
}

spec fn tp_row(a: Mat, b: Mat, n: nat, r: int) -> CInt {
    csum(|t: int| tp_entry(a, b, r, t), n)
}

spec fn tp_total(a: Mat, b: Mat, n: nat) -> CInt {
    csum(|r: int| tp_row(a, b, n, r), n)
}

proof fn lemma_row_sum_is_csum(a: Mat, b: Mat, r: int, k: nat)
    ensures
        row_sum(a, b, r, k) == csum(|t: int| tp_entry(a, b, r, t), k).re,
    decreases k,
{
    if k > 0 {
        lemma_row_sum_is_csum(a, b, r, (k - 1) as nat);
    }
}

proof fn lemma_rows_sum_is_csum(a: Mat, b: Mat, i: nat)
    ensures
        rows_sum(a, b, i) == csum(|r: int| tp_row(a, b, a.len(), r), i).re,
    decreases i,
{
    if i > 0 {
        lemma_rows_sum_is_csum(a, b, (i - 1) as nat);
        lemma_row_sum_is_csum(a, b, i - 1, a.len());
    }
}

/// The trace inner product is symmetric: `re(trace(a * b)) == re(trace(b * a))`.
pub proof fn lemma_inner_product_symmetric(a: Mat, b: Mat)
    requires
        same_square(a, b),
    ensures
        inner_product_spec(a, b) == inner_product_spec(b, a),
{
    let n = a.len();
    lemma_rows_sum_is_csum(a, b, n);
    lemma_rows_sum_is_csum(b, a, n);
    let f = |r: int, t: int| tp_entry(a, b, r, t);
    lemma_csum_swap(f, n, n);
    assert forall|i: int| 0 <= i < n implies #[trigger] tp_row(a, b, n, i) == csum(
        |k: int| f(i, k),
        n,
    ) by {
        lemma_csum_ext(|k: int| f(i, k), |t: int| tp_entry(a, b, i, t), n);
    }
    lemma_csum_ext(|i: int| csum(|k: int| f(i, k), n), |r: int| tp_row(a, b, n, r), n);
    assert forall|k: int| 0 <= k < n implies #[trigger] tp_row(b, a, n, k) == csum(
        |i: int| f(i, k),
        n,
    ) by {
        assert forall|i: int| 0 <= i < n implies #[trigger] f(i, k) == tp_entry(b, a, k, i) by {
            lemma_mul_comm(a[i][k], b[k][i]);
        }
        lemma_csum_ext(|i: int| f(i, k), |t: int| tp_entry(b, a, k, t), n);
    }
    lemma_csum_ext(|k: int| csum(|i: int| f(i, k), n), |r: int| tp_row(b, a, n, r), n);
}

} // verus!

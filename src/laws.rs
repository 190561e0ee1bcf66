use crate::complex::{
    c_mul, c_norm_sq, c_one, c_zero, lemma_conj_of_mul_conj, lemma_mul_assoc, lemma_mul_conj,
    lemma_norm_sq_mul, CInt,
};
use crate::matrix::{
    conj_transpose_spec, identity_spec, inner_product_spec, is_square, kron_spec, lemma_split_index, project_spec,
    row_sum, rows_sum, trace_term, Mat,
};
use crate::tensor::{expand_spec, outer_flat, power, product_vector_spec};
use vstd::arithmetic::div_mod::{
    lemma_div_denominator, lemma_fundamental_div_mod, lemma_fundamental_div_mod_converse_div,
    lemma_fundamental_div_mod_converse_mod,
    lemma_mod_breakdown, lemma_mod_mod,
};
use vstd::prelude::*;

verus! {

/// The sum of the real parts of the first `i` diagonal entries.
pub open spec fn diag_re_sum(a: Mat, i: nat) -> int
    decreases i,
{
    if i == 0 {
        0
    } else {
        diag_re_sum(a, (i - 1) as nat) + a[i - 1][i - 1].re
    }
}

/// `re(trace(a))`.
pub open spec fn trace_re(a: Mat) -> int {
    diag_re_sum(a, a.len())
}

/// The sum of `|v[t]|^2` over the first `i` entries.
pub open spec fn norm_sq_sum(v: Seq<CInt>, i: nat) -> int
    decreases i,
{
    if i == 0 {
        0
    } else {
        norm_sq_sum(v, (i - 1) as nat) + c_norm_sq(v[i - 1])
    }
}

/// The squared norm `<v, v>` of a vector.
pub open spec fn norm_sq(v: Seq<CInt>) -> int {
    norm_sq_sum(v, v.len())
}

proof fn lemma_row_with_identity(a: Mat, i: int, k: nat)
    requires
        is_square(a),
        0 <= i < a.len(),
        k <= a.len(),
    ensures
        row_sum(a, identity_spec(a.len()), i, k) == if i < k {
            a[i][i].re
        } else {
            0
        },
    decreases k,
{
    if k > 0 {
        lemma_row_with_identity(a, i, (k - 1) as nat);
        let t = k - 1;
        let id = identity_spec(a.len());
        assert(a[i].len() == a.len());
        if t == i {
            assert(id[t][i] == c_one());
            assert(trace_term(a, id, i, t) == a[i][i].re);
        } else {
            assert(id[t][i] == c_zero());
            assert(trace_term(a, id, i, t) == 0);
        }
    }
}

proof fn lemma_rows_with_identity(a: Mat, i: nat)
    requires
        is_square(a),
        i <= a.len(),
    ensures
        rows_sum(a, identity_spec(a.len()), i) == diag_re_sum(a, i),
    decreases i,
{
    if i > 0 {
        lemma_rows_with_identity(a, (i - 1) as nat);
        lemma_row_with_identity(a, i - 1, a.len());
    }
}

/// The inner product with the identity is the real part of the trace.
pub proof fn lemma_inner_product_identity(a: Mat)
    requires
        is_square(a),
    ensures
        inner_product_spec(a, identity_spec(a.len())) == trace_re(a),
{
    lemma_rows_with_identity(a, a.len());
}

proof fn lemma_identity_diag(n: nat, i: nat)
    requires
        i <= n,
    ensures
        diag_re_sum(identity_spec(n), i) == i,
    decreases i,
{
    if i > 0 {
        lemma_identity_diag(n, (i - 1) as nat);
    }
}

/// The inner product of the identity of order `n` with itself is `n`.
pub proof fn lemma_identity_inner_product(n: nat)
    ensures
        inner_product_spec(identity_spec(n), identity_spec(n)) == n,
{
    let id = identity_spec(n);
    assert(is_square(id));
    lemma_inner_product_identity(id);
    lemma_identity_diag(n, n);
}

/// The Kronecker product of two identities is the identity of the product order.
pub proof fn lemma_kron_identities(p: nat, q: nat)
    ensures
        kron_spec(identity_spec(p), identity_spec(q)) == identity_spec(p * q),
{
    let k = kron_spec(identity_spec(p), identity_spec(q));
    let id = identity_spec(p * q);
    assert(k.len() == id.len());
    if q > 0 {
        let qi = q as int;
        assert forall|r: int| 0 <= r < k.len() implies #[trigger] k[r] == id[r] by {
            assert forall|c: int| 0 <= c < k.len() implies #[trigger] k[r][c] == id[r][c] by {
                lemma_split_index(r, p as int, qi);
                lemma_split_index(c, p as int, qi);
                lemma_fundamental_div_mod(r, qi);
                lemma_fundamental_div_mod(c, qi);
                if r == c {
                    assert(k[r][c] == c_mul(c_one(), c_one()));
                } else {
                    assert(r / qi != c / qi || r % qi != c % qi);
                    crate::complex::lemma_mul_zero(c_one());
                    crate::complex::lemma_mul_zero(c_zero());
                }
            }
            assert(k[r] =~= id[r]);
        }
    }
    assert(k =~= id);
}

/// The identity of order one is a left unit of the Kronecker product.
pub proof fn lemma_kron_left_unit(op: Mat)
    requires
        is_square(op),
    ensures
        kron_spec(identity_spec(1), op) == op,
{
    let one = identity_spec(1);
    let k = kron_spec(one, op);
    let d = op.len() as int;
    assert(one.len() == 1);
    assert(k.len() == d);
    assert forall|r: int| 0 <= r < k.len() implies #[trigger] k[r] == op[r] by {
        assert forall|c: int| 0 <= c < k.len() implies #[trigger] k[r][c] == op[r][c] by {
            assert(r == 0 * d + r && c == 0 * d + c);
            lemma_fundamental_div_mod_converse_div(r, d, 0, r);
            lemma_fundamental_div_mod_converse_div(c, d, 0, c);
            lemma_fundamental_div_mod_converse_mod(r, d, 0, r);
            lemma_fundamental_div_mod_converse_mod(c, d, 0, c);
            crate::complex::lemma_mul_one(op[r][c]);
        }
        assert(op[r].len() == op.len());
        assert(k[r] =~= op[r]);
    }
    assert(k =~= op);
}

/// The identity of order one is a right unit of the Kronecker product.
pub proof fn lemma_kron_right_unit(op: Mat)
    requires
        is_square(op),
    ensures
        kron_spec(op, identity_spec(1)) == op,
{
    let one = identity_spec(1);
    let k = kron_spec(op, one);
    assert(one.len() == 1);
    assert(k.len() == op.len());
    assert forall|r: int| 0 <= r < k.len() implies #[trigger] k[r] == op[r] by {
        assert forall|c: int| 0 <= c < k.len() implies #[trigger] k[r][c] == op[r][c] by {
            assert(r == r * 1 + 0 && c == c * 1 + 0);
            lemma_fundamental_div_mod_converse_div(r, 1, r, 0);
            lemma_fundamental_div_mod_converse_div(c, 1, c, 0);
            lemma_fundamental_div_mod_converse_mod(r, 1, r, 0);
            lemma_fundamental_div_mod_converse_mod(c, 1, c, 0);
            crate::complex::lemma_mul_one(op[r][c]);
        }
        assert(op[r].len() == op.len());
        assert(k[r] =~= op[r]);
    }
    assert(k =~= op);
}

/// Embedding an operator into a space of a single subsystem leaves it as it is.
pub proof fn lemma_expand_single(op: Mat, depth: nat)
    requires
        is_square(op),
        op.len() == depth,
    ensures
        expand_spec(op, depth, 1, 0) == op,
{
    reveal_with_fuel(power, 1);
    assert(power(depth as int, 0) == 1);
    lemma_kron_left_unit(op);
    lemma_kron_right_unit(op);
}

/// Splits an index of a space of orders `q` then `s` the two ways that the
/// two groupings of a triple Kronecker product read it.
proof fn lemma_regroup_index(r: int, q: int, s: int)
    requires
        0 <= r,
        0 < q,
        0 < s,
    ensures
        (r / s) / q == r / (q * s),
        (r / s) % q == (r % (q * s)) / s,
        r % s == (r % (q * s)) % s,
{
    lemma_div_denominator(r, s, q);
    assert(s * q == q * s) by (nonlinear_arith);
    lemma_mod_breakdown(r, s, q);
    vstd::arithmetic::div_mod::lemma_mod_pos_bound(r, s);
    vstd::arithmetic::div_mod::lemma_mod_pos_bound(r / s, q);
    lemma_fundamental_div_mod_converse_div(r % (s * q), s, (r / s) % q, r % s);
    lemma_mod_mod(r, s, q);
}

/// The Kronecker product is associative.
pub proof fn lemma_kron_assoc(a: Mat, b: Mat, c: Mat)
    requires
        is_square(a),
        is_square(b),
        is_square(c),
    ensures
        kron_spec(kron_spec(a, b), c) == kron_spec(a, kron_spec(b, c)),
{
    let p = a.len() as int;
    let q = b.len() as int;
    let s = c.len() as int;
    let lhs = kron_spec(kron_spec(a, b), c);
    let rhs = kron_spec(a, kron_spec(b, c));
    assert((p * q) * s == p * (q * s)) by (nonlinear_arith);
    assert(lhs.len() == rhs.len());
    if q > 0 && s > 0 {
        assert(q * s > 0) by (nonlinear_arith)
            requires
                q > 0,
                s > 0,
        ;
        assert forall|r: int| 0 <= r < lhs.len() implies #[trigger] lhs[r] == rhs[r] by {
            assert forall|x: int| 0 <= x < lhs.len() implies #[trigger] lhs[r][x] == rhs[r][x] by {
                lemma_regroup_index(r, q, s);
                lemma_regroup_index(x, q, s);
                lemma_split_index(r, p * q, s);
                lemma_split_index(x, p * q, s);
                lemma_split_index(r, p, q * s);
                lemma_split_index(x, p, q * s);
                lemma_mul_assoc(
                    a[(r / s) / q][(x / s) / q],
                    b[(r / s) % q][(x / s) % q],
                    c[r % s][x % s],
                );
            }
            assert(lhs[r] =~= rhs[r]);
        }
    } else {
        if q == 0 {
            assert(p * q == 0);
        }
        assert(lhs.len() == 0);
    }
    assert(lhs =~= rhs);
}

proof fn lemma_project_diag(v: Seq<CInt>, i: nat)
    requires
        i <= v.len(),
    ensures
        diag_re_sum(project_spec(v), i) == norm_sq_sum(v, i),
    decreases i,
{
    if i > 0 {
        lemma_project_diag(v, (i - 1) as nat);
        lemma_mul_conj(v[i - 1]);
    }
}

/// The trace of the projector `|v><v|` is the squared norm `<v, v>`.
pub proof fn lemma_project_trace(v: Seq<CInt>)
    ensures
        inner_product_spec(project_spec(v), identity_spec(v.len())) == norm_sq(v),
{
    let pv = project_spec(v);
    assert(is_square(pv));
    lemma_inner_product_identity(pv);
    lemma_project_diag(v, v.len());
}

/// The projector `|v><v|` is Hermitian: it equals its conjugate transpose.
pub proof fn lemma_project_hermitian(v: Seq<CInt>)
    ensures
        conj_transpose_spec(project_spec(v)) == project_spec(v),
{
    let p = project_spec(v);
    let ct = conj_transpose_spec(p);
    assert forall|i: int| 0 <= i < p.len() implies #[trigger] ct[i] == p[i] by {
        assert forall|j: int| 0 <= j < p.len() implies #[trigger] ct[i][j] == p[i][j] by {
            lemma_conj_of_mul_conj(v[j], v[i]);
        }
        assert(ct[i] =~= p[i]);
    }
    assert(ct =~= p);
}

/// The product of the squared norms of the first `k` rows.
pub open spec fn norm_product(rows: Seq<Seq<CInt>>, k: nat) -> int
    decreases k,
{
    if k == 0 {
        1
    } else {
        norm_product(rows, (k - 1) as nat) * norm_sq(rows[k - 1])
    }
}

proof fn lemma_outer_prefix(v: Seq<CInt>, w: Seq<CInt>, a: nat, b: nat)
    requires
        w.len() > 0,
        (a < v.len() && b <= w.len()) || (a == v.len() && b == 0),
    ensures
        norm_sq_sum(outer_flat(v, w), a * w.len() + b) == norm_sq_sum(v, a) * norm_sq(w)
            + c_norm_sq(v[a as int]) * norm_sq_sum(w, b),
    decreases a, b,
{
    let m = w.len();
    let x = outer_flat(v, w);
    if b > 0 {
        let b1 = (b - 1) as nat;
        lemma_outer_prefix(v, w, a, b1);
        let t = a * m + b1;
        assert(t < v.len() * m) by (nonlinear_arith)
            requires
                t == a * m + b1,
                a < v.len(),
                b1 < m,
        ;
        lemma_fundamental_div_mod_converse_div(t as int, m as int, a as int, b1 as int);
        lemma_fundamental_div_mod_converse_mod(t as int, m as int, a as int, b1 as int);
        assert(x[t as int] == c_mul(v[a as int], w[b1 as int]));
        lemma_norm_sq_mul(v[a as int], w[b1 as int]);
        assert(norm_sq_sum(x, t + 1) == norm_sq_sum(x, t) + c_norm_sq(x[t as int]));
        let va = c_norm_sq(v[a as int]);
        assert(norm_sq_sum(w, b) == norm_sq_sum(w, b1) + c_norm_sq(w[b1 as int]));
        assert(va * norm_sq_sum(w, b1) + va * c_norm_sq(w[b1 as int]) == va * norm_sq_sum(w, b))
            by (nonlinear_arith)
            requires
                norm_sq_sum(w, b) == norm_sq_sum(w, b1) + c_norm_sq(w[b1 as int]),
        ;
        assert(c_norm_sq(x[t as int]) == va * c_norm_sq(w[b1 as int]));
        assert(a * m + b == t + 1);
    } else if a > 0 {
        let a1 = (a - 1) as nat;
        lemma_outer_prefix(v, w, a1, m);
        assert(a1 * m + m == a * m) by (nonlinear_arith)
            requires
                a1 + 1 == a,
        ;
        let s = norm_sq_sum(v, a1);
        let va = c_norm_sq(v[a1 as int]);
        let nw = norm_sq(w);
        assert(s * nw + va * nw == (s + va) * nw) by (nonlinear_arith);
        assert(norm_sq_sum(v, a) == s + va);
        assert(norm_sq_sum(w, m) == nw);
        assert(norm_sq_sum(w, 0) == 0);
        assert(c_norm_sq(v[a as int]) * 0 == 0);
    } else {
        assert(norm_sq_sum(v, 0) == 0);
        assert(norm_sq_sum(w, 0) == 0);
        assert(0 * norm_sq(w) == 0);
        assert(c_norm_sq(v[0]) * 0 == 0);
        assert(a * m == 0) by (nonlinear_arith)
            requires
                a == 0,
        ;
        assert(norm_sq_sum(x, 0) == 0);
    }
}

/// The squared norm of a flattened outer product is the product of the
/// squared norms.
pub proof fn lemma_outer_norm(v: Seq<CInt>, w: Seq<CInt>)
    ensures
        norm_sq(outer_flat(v, w)) == norm_sq(v) * norm_sq(w),
{
    if w.len() == 0 {
        assert(outer_flat(v, w).len() == 0);
        assert(norm_sq(w) == 0);
        assert(norm_sq(v) * 0 == 0);
    } else {
        lemma_outer_prefix(v, w, v.len(), 0);
        assert(c_norm_sq(v[v.len() as int]) * norm_sq_sum(w, 0) == 0);
    }
}

proof fn lemma_product_vector_norm(rows: Seq<Seq<CInt>>, k: nat)
    requires
        k <= rows.len(),
    ensures
        norm_sq(product_vector_spec(rows, k)) == norm_product(rows, k),
    decreases k,
{
    if k == 0 {
        let one = product_vector_spec(rows, 0);
        assert(one.len() == 1);
        assert(one[0] == c_one());
        assert(c_norm_sq(c_one()) == 1 * 1 + 0 * 0);
        assert(1 * 1 + 0 * 0 == 1) by (nonlinear_arith);
        assert(norm_sq_sum(one, 1) == norm_sq_sum(one, 0) + c_norm_sq(one[0]));
        assert(norm_sq_sum(one, 0) == 0);
        assert(norm_product(rows, 0) == 1);
    } else {
        lemma_product_vector_norm(rows, (k - 1) as nat);
        lemma_outer_norm(product_vector_spec(rows, (k - 1) as nat), rows[k - 1]);
    }
}

proof fn lemma_unit_norm_product(rows: Seq<Seq<CInt>>, k: nat)
    requires
        k <= rows.len(),
        forall|j: int| 0 <= j < rows.len() ==> norm_sq(#[trigger] rows[j]) == 1,
    ensures
        norm_product(rows, k) == 1,
    decreases k,
{
    if k > 0 {
        lemma_unit_norm_product(rows, (k - 1) as nat);
    }
}

/// The product state built from `rows` is Hermitian, and its trace is the
/// product of the squared norms of the rows: one where every row is a unit
/// vector.
pub proof fn lemma_product_state(rows: Seq<Seq<CInt>>)
    ensures
        ({
            let s = project_spec(product_vector_spec(rows, rows.len()));
            &&& conj_transpose_spec(s) == s
            &&& inner_product_spec(s, identity_spec(s.len())) == norm_product(rows, rows.len())
            &&& (forall|j: int| 0 <= j < rows.len() ==> norm_sq(#[trigger] rows[j]) == 1)
                ==> inner_product_spec(s, identity_spec(s.len())) == 1
        }),
{
    let v = product_vector_spec(rows, rows.len());
    lemma_project_hermitian(v);
    lemma_project_trace(v);
    lemma_product_vector_norm(rows, rows.len());
    if forall|j: int| 0 <= j < rows.len() ==> norm_sq(#[trigger] rows[j]) == 1 {
        lemma_unit_norm_product(rows, rows.len());
    }
}

} // verus!

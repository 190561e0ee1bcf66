use crate::complex::{
    c_add, c_conj, c_fits, c_mul, c_one, c_sub, c_zero, checked_conj, checked_mul, mul_conj_wide, mul_wide, narrow, CInt,
    Cx,
};
use vstd::arithmetic::div_mod::{
    lemma_div_by_multiple, lemma_div_by_multiple_is_strongly_ordered, lemma_div_pos_is_pos,
    lemma_mod_pos_bound,
};
use vstd::prelude::*;

verus! {

/// Why a kernel refused its arguments.
#[derive(Clone, Copy, Debug, PartialEq, Eq, Structural)]
pub enum MatrixError {
    /// A matrix is not square, or the orders of two operands differ.
    DimensionMismatch,
    /// A part of the exact result, or the order of the result, does not fit.
    Overflow,
}

/// A matrix as proofs see it: a sequence of rows.
pub type Mat = Seq<Seq<CInt>>;

/// The largest order on which a trace inner product is computed: any matrix
/// that fits in memory is smaller.
pub const MAX_ORDER: usize = 0xffff_ffff;

pub open spec fn vec_model(v: &Vec<Cx>) -> Seq<CInt> {
    v@.map_values(|c: Cx| c@)
}

pub open spec fn model(m: &Vec<Vec<Cx>>) -> Mat {
    m@.map_values(|r: Vec<Cx>| r@.map_values(|c: Cx| c@))
}

/// Every row has as many entries as there are rows.
pub open spec fn is_square(m: Mat) -> bool {
    forall|i: int| 0 <= i < m.len() ==> #[trigger] m[i].len() == m.len()
}

pub open spec fn same_square(a: Mat, b: Mat) -> bool {
    is_square(a) && is_square(b) && a.len() == b.len()
}

/// Every entry can be stored in a `Cx`.
pub open spec fn mat_fits(m: Mat) -> bool {
    forall|i: int, j: int| 0 <= i < m.len() && 0 <= j < m[i].len() ==> c_fits(#[trigger] m[i][j])
}

pub open spec fn identity_spec(n: nat) -> Mat {
    Seq::new(n, |i: int| Seq::new(n, |j: int| if i == j { c_one() } else { c_zero() }))
}

/// One term `re(a[i][k] * b[k][i])` of the trace of `a * b`.
pub open spec fn trace_term(a: Mat, b: Mat, i: int, k: int) -> int {
    c_mul(a[i][k], b[k][i]).re
}

/// The sum of the first `k` terms that row `i` of `a` contributes.
pub open spec fn row_sum(a: Mat, b: Mat, i: int, k: nat) -> int
    decreases k,
{
    if k == 0 {
        0
    } else {
        row_sum(a, b, i, (k - 1) as nat) + trace_term(a, b, i, k - 1)
    }
}

/// The contributions of the first `i` rows of `a`.
pub open spec fn rows_sum(a: Mat, b: Mat, i: nat) -> int
    decreases i,
{
    if i == 0 {
        0
    } else {
        rows_sum(a, b, (i - 1) as nat) + row_sum(a, b, i - 1, a.len())
    }
}

/// The Hilbert-Schmidt inner product `re(trace(a * b))`.
pub open spec fn inner_product_spec(a: Mat, b: Mat) -> int {
    rows_sum(a, b, a.len())
}

/// The Kronecker product: entry `(r, c)` is `a[r / q][c / q] * b[r % q][c % q]`,
/// where `q` is the order of `b`.
pub open spec fn kron_spec(a: Mat, b: Mat) -> Mat {
    let q = b.len() as int;
    let n = (a.len() * b.len()) as nat;
    Seq::new(n, |r: int| Seq::new(n, |c: int| c_mul(a[r / q][c / q], b[r % q][c % q])))
}

/// The order of the Kronecker product fits in `usize` and so does every entry.
pub open spec fn kron_fits(a: Mat, b: Mat) -> bool {
    a.len() * b.len() <= usize::MAX && mat_fits(kron_spec(a, b))
}

/// The projector `|v><v|`: entry `(i, j)` is `v[i] * conj(v[j])`.
pub open spec fn project_spec(v: Seq<CInt>) -> Mat {
    Seq::new(v.len(), |i: int| Seq::new(v.len(), |j: int| c_mul(v[i], c_conj(v[j]))))
}

/// The first `k` terms of entry `(i, j)` of the product `a * b`.
pub open spec fn dot_spec(a: Mat, b: Mat, i: int, j: int, k: nat) -> CInt
    decreases k,
{
    if k == 0 {
        c_zero()
    } else {
        c_add(dot_spec(a, b, i, j, (k - 1) as nat), c_mul(a[i][k - 1], b[k - 1][j]))
    }
}

/// The matrix product `a * b` of square matrices of one order.
pub open spec fn mul_spec(a: Mat, b: Mat) -> Mat {
    Seq::new(a.len(), |i: int| Seq::new(a.len(), |j: int| dot_spec(a, b, i, j, a.len())))
}

/// The conjugate transpose `u†`.
pub open spec fn conj_transpose_spec(u: Mat) -> Mat {
    Seq::new(u.len(), |i: int| Seq::new(u.len(), |j: int| c_conj(u[j][i])))
}

/// The similarity transform `u * m * u†`.
pub open spec fn rotate_spec(m: Mat, u: Mat) -> Mat {
    mul_spec(u, mul_spec(m, conj_transpose_spec(u)))
}

/// Every step of `u * (m * u†)` fits: the conjugate transpose, the inner
/// product and the result.
pub open spec fn rotate_fits(m: Mat, u: Mat) -> bool {
    mat_fits(conj_transpose_spec(u)) && mat_fits(mul_spec(m, conj_transpose_spec(u))) && mat_fits(
        rotate_spec(m, u),
    )
}

/// Every entry of a stored matrix fits.
pub proof fn lemma_model_fits(m: &Vec<Vec<Cx>>)
    ensures
        mat_fits(model(m)),
{
    assert forall|i: int, j: int|
        0 <= i < model(m).len() && 0 <= j < model(m)[i].len() implies c_fits(
        #[trigger] model(m)[i][j],
    ) by {
        assert(model(m)[i][j] == m@[i]@[j]@);
    }
}

/// Splits an index of a product space of orders `p` and `q` into its two parts.
pub proof fn lemma_split_index(r: int, p: int, q: int)
    requires
        0 <= r < p * q,
        0 < q,
    ensures
        0 <= r / q < p,
        0 <= r % q < q,
{
    if p <= 0 {
        assert(p * q <= 0) by (nonlinear_arith)
            requires
                p <= 0,
                q > 0,
        ;
    }
    lemma_div_by_multiple_is_strongly_ordered(r, p * q, p, q);
    lemma_div_by_multiple(p, q);
    lemma_div_pos_is_pos(r, q);
    lemma_mod_pos_bound(r, q);
}

/// Tells whether `m` is square.
pub fn square_order(m: &Vec<Vec<Cx>>) -> (r: bool)
    ensures
        r == is_square(model(m)),
{
    let n = m.len();
    let mut i: usize = 0;
    while i < n
        invariant
            n == m@.len(),
            i <= n,
            forall|t: int| 0 <= t < i ==> #[trigger] model(m)[t].len() == n,
        decreases n - i,
    {
        if m[i].len() != n {
            assert(model(m)[i as int].len() != model(m).len());
            return false;
        }
        i += 1;
    }
    true
}

/// The identity matrix of order `n`.
pub fn identity(n: usize) -> (r: Vec<Vec<Cx>>)
    ensures
        model(&r) == identity_spec(n as nat),
{
    let mut rows: Vec<Vec<Cx>> = Vec::new();
    let mut i: usize = 0;
    while i < n
        invariant
            i <= n,
            rows@.len() == i,
            forall|t: int| 0 <= t < i ==> vec_model(#[trigger] &rows@[t]) == identity_spec(n as nat)[t],
        decreases n - i,
    {
        let mut row: Vec<Cx> = Vec::new();
        let mut j: usize = 0;
        while j < n
            invariant
                i < n,
                j <= n,
                row@.len() == j,
                forall|t: int| 0 <= t < j ==> (#[trigger] row@[t])@ == identity_spec(n as nat)[i as int][t],
            decreases n - j,
        {
            if i == j {
                row.push(Cx { re: 1, im: 0 });
            } else {
                row.push(Cx { re: 0, im: 0 });
            }
            j += 1;
        }
        assert(vec_model(&row) =~= identity_spec(n as nat)[i as int]);
        rows.push(row);
        i += 1;
    }
    assert forall|t: int| 0 <= t < n implies model(&rows)[t] == identity_spec(n as nat)[t] by {
        assert(model(&rows)[t] == vec_model(&rows@[t]));
    }
    assert(model(&rows) =~= identity_spec(n as nat));
    rows
}

/// The trace inner product `re(trace(a * b))` of two square matrices of one order.
pub fn product(a: &Vec<Vec<Cx>>, b: &Vec<Vec<Cx>>) -> (r: Result<i128, MatrixError>)
    requires
        a@.len() <= MAX_ORDER,
    ensures
        r is Ok <==> same_square(model(a), model(b)),
        r matches Ok(v) ==> v == inner_product_spec(model(a), model(b)),
        r matches Err(e) ==> e == MatrixError::DimensionMismatch,
{
    if !square_order(a) || !square_order(b) || a.len() != b.len() {
        return Err(MatrixError::DimensionMismatch);
    }
    let n = a.len();
    let ghost ma = model(a);
    let ghost mb = model(b);
    let mut total: i128 = 0;
    let mut i: usize = 0;
    while i < n
        invariant
            n == a@.len(),
            n <= MAX_ORDER,
            ma == model(a),
            mb == model(b),
            same_square(ma, mb),
            i <= n,
            total == rows_sum(ma, mb, i as nat),
            -(i * 0x8000_0000_0000_0000_0000_0000) <= total <= i * 0x8000_0000_0000_0000_0000_0000,
        decreases n - i,
    {
        let mut s: i128 = 0;
        let mut k: usize = 0;
        while k < n
            invariant
                n == a@.len(),
                n <= MAX_ORDER,
                ma == model(a),
                mb == model(b),
                same_square(ma, mb),
                i < n,
                k <= n,
                s == row_sum(ma, mb, i as int, k as nat),
                -(k * 0x8000_0000_0000_0000) <= s <= k * 0x8000_0000_0000_0000,
            decreases n - k,
        {
            assert(ma[i as int].len() == n && mb[k as int].len() == n);
            proof {
                crate::complex::lemma_product_bound(ma[i as int][k as int], mb[k as int][i as int]);
            }
            let (re, _im) = mul_wide(a[i][k], b[k][i]);
            s = s + re;
            k += 1;
        }
        total = total + s;
        i += 1;
    }
    Ok(total)
}

/// The Kronecker product of two square matrices.
pub fn kronecker(a: &Vec<Vec<Cx>>, b: &Vec<Vec<Cx>>) -> (r: Result<Vec<Vec<Cx>>, MatrixError>)
    ensures
        r matches Err(MatrixError::DimensionMismatch) <==> !(is_square(model(a)) && is_square(
            model(b),
        )),
        r matches Err(MatrixError::Overflow) <==> is_square(model(a)) && is_square(model(b))
            && !kron_fits(model(a), model(b)),
        r matches Ok(m) ==> model(&m) == kron_spec(model(a), model(b)),
{
    if !square_order(a) || !square_order(b) {
        return Err(MatrixError::DimensionMismatch);
    }
    let ghost ma = model(a);
    let ghost mb = model(b);
    let p = a.len();
    let q = b.len();
    let n = match p.checked_mul(q) {
        Some(n) => n,
        None => {
            return Err(MatrixError::Overflow);
        },
    };
    let ghost k = kron_spec(ma, mb);
    let mut rows: Vec<Vec<Cx>> = Vec::new();
    let mut r: usize = 0;
    while r < n
        invariant
            ma == model(a),
            mb == model(b),
            k == kron_spec(ma, mb),
            is_square(ma),
            is_square(mb),
            p == ma.len(),
            q == mb.len(),
            n == p * q,
            r <= n,
            rows@.len() == r,
            forall|t: int| 0 <= t < r ==> vec_model(#[trigger] &rows@[t]) == k[t],
        decreases n - r,
    {
        proof {
            lemma_split_index(r as int, p as int, q as int);
        }
        let ra = r / q;
        let rb = r % q;
        assert(ma[ra as int].len() == p && mb[rb as int].len() == q);
        let mut row: Vec<Cx> = Vec::new();
        let mut c: usize = 0;
        while c < n
            invariant
                ma == model(a),
                mb == model(b),
                k == kron_spec(ma, mb),
                is_square(ma),
                is_square(mb),
                p == ma.len(),
                q == mb.len(),
                n == p * q,
                r < n,
                ra == r / q,
                rb == r % q,
                ra < p,
                rb < q,
                a@[ra as int]@.len() == p,
                b@[rb as int]@.len() == q,
                c <= n,
                row@.len() == c,
                forall|t: int| 0 <= t < c ==> (#[trigger] row@[t])@ == k[r as int][t],
            decreases n - c,
        {
            proof {
                lemma_split_index(c as int, p as int, q as int);
            }
            match checked_mul(a[ra][c / q], b[rb][c % q]) {
                Some(z) => {
                    row.push(z);
                },
                None => {
                    assert(!c_fits(k[r as int][c as int]));
                    return Err(MatrixError::Overflow);
                },
            }
            c += 1;
        }
        assert(vec_model(&row) =~= k[r as int]);
        rows.push(row);
        r += 1;
    }
    assert forall|t: int| 0 <= t < n implies model(&rows)[t] == k[t] by {
        assert(model(&rows)[t] == vec_model(&rows@[t]));
    }
    assert(model(&rows) =~= k);
    Ok(rows)
}

/// The projector `|v><v|` of a vector.
pub fn project(v: &Vec<Cx>) -> (r: Result<Vec<Vec<Cx>>, MatrixError>)
    ensures
        r is Ok <==> mat_fits(project_spec(vec_model(v))),
        r matches Ok(m) ==> model(&m) == project_spec(vec_model(v)),
        r matches Err(e) ==> e == MatrixError::Overflow,
{
    let n = v.len();
    let ghost pv = project_spec(vec_model(v));
    let mut rows: Vec<Vec<Cx>> = Vec::new();
    let mut i: usize = 0;
    while i < n
        invariant
            n == v@.len(),
            pv == project_spec(vec_model(v)),
            i <= n,
            rows@.len() == i,
            forall|t: int| 0 <= t < i ==> vec_model(#[trigger] &rows@[t]) == pv[t],
        decreases n - i,
    {
        let mut row: Vec<Cx> = Vec::new();
        let mut j: usize = 0;
        while j < n
            invariant
                n == v@.len(),
                pv == project_spec(vec_model(v)),
                i < n,
                j <= n,
                row@.len() == j,
                forall|t: int| 0 <= t < j ==> (#[trigger] row@[t])@ == pv[i as int][t],
            decreases n - j,
        {
            let (re, im) = mul_conj_wide(v[i], v[j]);
            match narrow(re, im) {
                Some(z) => {
                    row.push(z);
                },
                None => {
                    assert(!c_fits(pv[i as int][j as int]));
                    return Err(MatrixError::Overflow);
                },
            }
            j += 1;
        }
        assert(vec_model(&row) =~= pv[i as int]);
        rows.push(row);
        i += 1;
    }
    assert forall|t: int| 0 <= t < n implies model(&rows)[t] == pv[t] by {
        assert(model(&rows)[t] == vec_model(&rows@[t]));
    }
    assert(model(&rows) =~= pv);
    proof {
        lemma_model_fits(&rows);
    }
    Ok(rows)
}

/// The conjugate transpose `u†` of a square matrix.
pub fn conj_transpose(u: &Vec<Vec<Cx>>) -> (r: Result<Vec<Vec<Cx>>, MatrixError>)
    ensures
        r matches Err(MatrixError::DimensionMismatch) <==> !is_square(model(u)),
        r matches Err(MatrixError::Overflow) <==> is_square(model(u)) && !mat_fits(
            conj_transpose_spec(model(u)),
        ),
        r matches Ok(m) ==> model(&m) == conj_transpose_spec(model(u)),
{
    if !square_order(u) {
        return Err(MatrixError::DimensionMismatch);
    }
    let n = u.len();
    let ghost mu = model(u);
    let ghost ct = conj_transpose_spec(mu);
    let mut rows: Vec<Vec<Cx>> = Vec::new();
    let mut i: usize = 0;
    while i < n
        invariant
            n == u@.len(),
            mu == model(u),
            ct == conj_transpose_spec(mu),
            is_square(mu),
            i <= n,
            rows@.len() == i,
            forall|t: int| 0 <= t < i ==> vec_model(#[trigger] &rows@[t]) == ct[t],
        decreases n - i,
    {
        let mut row: Vec<Cx> = Vec::new();
        let mut j: usize = 0;
        while j < n
            invariant
                n == u@.len(),
                mu == model(u),
                ct == conj_transpose_spec(mu),
                is_square(mu),
                i < n,
                j <= n,
                row@.len() == j,
                forall|t: int| 0 <= t < j ==> (#[trigger] row@[t])@ == ct[i as int][t],
            decreases n - j,
        {
            assert(mu[j as int].len() == n);
            match checked_conj(u[j][i]) {
                Some(z) => {
                    row.push(z);
                },
                None => {
                    assert(!c_fits(ct[i as int][j as int]));
                    return Err(MatrixError::Overflow);
                },
            }
            j += 1;
        }
        assert(vec_model(&row) =~= ct[i as int]);
        rows.push(row);
        i += 1;
    }
    assert forall|t: int| 0 <= t < n implies model(&rows)[t] == ct[t] by {
        assert(model(&rows)[t] == vec_model(&rows@[t]));
    }
    assert(model(&rows) =~= ct);
    proof {
        lemma_model_fits(&rows);
    }
    Ok(rows)
}

/// The matrix product `a * b` of two square matrices of one order.
pub fn multiply(a: &Vec<Vec<Cx>>, b: &Vec<Vec<Cx>>) -> (r: Result<Vec<Vec<Cx>>, MatrixError>)
    requires
        a@.len() <= MAX_ORDER,
    ensures
        r matches Err(MatrixError::DimensionMismatch) <==> !same_square(model(a), model(b)),
        r matches Err(MatrixError::Overflow) <==> same_square(model(a), model(b)) && !mat_fits(
            mul_spec(model(a), model(b)),
        ),
        r matches Ok(m) ==> model(&m) == mul_spec(model(a), model(b)),
{
    if !square_order(a) || !square_order(b) || a.len() != b.len() {
        return Err(MatrixError::DimensionMismatch);
    }
    let n = a.len();
    let ghost ma = model(a);
    let ghost mb = model(b);
    let ghost pr = mul_spec(ma, mb);
    let mut rows: Vec<Vec<Cx>> = Vec::new();
    let mut i: usize = 0;
    while i < n
        invariant
            n == a@.len(),
            n <= MAX_ORDER,
            ma == model(a),
            mb == model(b),
            pr == mul_spec(ma, mb),
            same_square(ma, mb),
            i <= n,
            rows@.len() == i,
            forall|t: int| 0 <= t < i ==> vec_model(#[trigger] &rows@[t]) == pr[t],
        decreases n - i,
    {
        let mut row: Vec<Cx> = Vec::new();
        let mut j: usize = 0;
        while j < n
            invariant
                n == a@.len(),
                n <= MAX_ORDER,
                ma == model(a),
                mb == model(b),
                pr == mul_spec(ma, mb),
                same_square(ma, mb),
                i < n,
                j <= n,
                row@.len() == j,
                forall|t: int| 0 <= t < j ==> (#[trigger] row@[t])@ == pr[i as int][t],
            decreases n - j,
        {
            let mut re: i128 = 0;
            let mut im: i128 = 0;
            let mut k: usize = 0;
            while k < n
                invariant
                    n == a@.len(),
                    n <= MAX_ORDER,
                    ma == model(a),
                    mb == model(b),
                    same_square(ma, mb),
                    i < n,
                    j < n,
                    k <= n,
                    re == dot_spec(ma, mb, i as int, j as int, k as nat).re,
                    im == dot_spec(ma, mb, i as int, j as int, k as nat).im,
                    -(k * 0x8000_0000_0000_0000) <= re <= k * 0x8000_0000_0000_0000,
                    -(k * 0x8000_0000_0000_0000) <= im <= k * 0x8000_0000_0000_0000,
                decreases n - k,
            {
                assert(ma[i as int].len() == n && mb[k as int].len() == n);
                proof {
                    crate::complex::lemma_product_bound(
                        ma[i as int][k as int],
                        mb[k as int][j as int],
                    );
                }
                let (pre, pim) = mul_wide(a[i][k], b[k][j]);
                re = re + pre;
                im = im + pim;
                k += 1;
            }
            match narrow(re, im) {
                Some(z) => {
                    row.push(z);
                },
                None => {
                    assert(!c_fits(pr[i as int][j as int]));
                    return Err(MatrixError::Overflow);
                },
            }
            j += 1;
        }
        assert(vec_model(&row) =~= pr[i as int]);
        rows.push(row);
        i += 1;
    }
    assert forall|t: int| 0 <= t < n implies model(&rows)[t] == pr[t] by {
        assert(model(&rows)[t] == vec_model(&rows@[t]));
    }
    assert(model(&rows) =~= pr);
    proof {
        lemma_model_fits(&rows);
    }
    Ok(rows)
}

/// The similarity transform `u * m * u†`, computed as `u * (m * u†)`.
pub fn rotate(m: &Vec<Vec<Cx>>, u: &Vec<Vec<Cx>>) -> (r: Result<Vec<Vec<Cx>>, MatrixError>)
    requires
        m@.len() <= MAX_ORDER,
    ensures
        r matches Err(MatrixError::DimensionMismatch) <==> !same_square(model(m), model(u)),
        r matches Err(MatrixError::Overflow) <==> same_square(model(m), model(u)) && !rotate_fits(
            model(m),
            model(u),
        ),
        r matches Ok(x) ==> model(&x) == rotate_spec(model(m), model(u)),
{
    if !square_order(m) || !square_order(u) || m.len() != u.len() {
        return Err(MatrixError::DimensionMismatch);
    }
    let ct = conj_transpose(u)?;
    let mc = multiply(m, &ct)?;
    assert(is_square(model(&mc)));
    multiply(u, &mc)
}

/// An entry-by-entry copy of `m`.
pub fn copy_matrix(m: &Vec<Vec<Cx>>) -> (r: Vec<Vec<Cx>>)
    ensures
        model(&r) == model(m),
{
    let mut rows: Vec<Vec<Cx>> = Vec::new();
    let mut i: usize = 0;
    while i < m.len()
        invariant
            i <= m@.len(),
            rows@.len() == i,
            forall|t: int| 0 <= t < i ==> vec_model(#[trigger] &rows@[t]) == model(m)[t],
        decreases m@.len() - i,
    {
        let mut row: Vec<Cx> = Vec::new();
        let mut j: usize = 0;
        while j < m[i].len()
            invariant
                i < m@.len(),
                j <= m@[i as int]@.len(),
                row@.len() == j,
                forall|t: int| 0 <= t < j ==> (#[trigger] row@[t])@ == model(m)[i as int][t],
            decreases m@[i as int]@.len() - j,
        {
            row.push(m[i][j]);
            j += 1;
        }
        assert(vec_model(&row) =~= model(m)[i as int]);
        rows.push(row);
        i += 1;
    }
    assert forall|t: int| 0 <= t < m@.len() implies model(&rows)[t] == model(m)[t] by {
        assert(model(&rows)[t] == vec_model(&rows@[t]));
    }
    assert(model(&rows) =~= model(m));
    rows
}

} // verus!

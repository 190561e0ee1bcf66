use crate::complex::{c_fits, c_mul, c_one, checked_mul, lemma_mul_one, lemma_mul_zero, CInt, Cx};
use crate::matrix::{
    identity, identity_spec, is_square, kron_fits, kron_spec, kronecker, lemma_split_index,
    mat_fits, model, square_order, vec_model, Mat, MatrixError,
};
use vstd::prelude::*;

verus! {

/// `b` raised to the power `e`.
pub open spec fn power(b: int, e: nat) -> int
    decreases e,
{
    if e == 0 {
        1
    } else {
        b * power(b, (e - 1) as nat)
    }
}

/// The flattened outer product of `v` and `w`: entry `t` is
/// `v[t / w.len()] * w[t % w.len()]`.
pub open spec fn outer_flat(v: Seq<CInt>, w: Seq<CInt>) -> Seq<CInt> {
    let m = w.len() as int;
    Seq::new((v.len() * w.len()) as nat, |t: int| c_mul(v[t / m], w[t % m]))
}

/// The tensor product of the first `k` rows, taken in order; the empty
/// product is the scalar one.
pub open spec fn product_vector_spec(rows: Seq<Seq<CInt>>, k: nat) -> Seq<CInt>
    decreases k,
{
    if k == 0 {
        seq![c_one()]
    } else {
        outer_flat(product_vector_spec(rows, (k - 1) as nat), rows[k - 1])
    }
}

/// Every partial product, up to the first `k` rows, has a length that fits
/// in `usize` and entries that fit in a `Cx`.
pub open spec fn product_vector_fits(rows: Seq<Seq<CInt>>, k: nat) -> bool {
    forall|j: nat|
        1 <= j <= k ==> #[trigger] product_vector_spec(rows, j).len() <= usize::MAX && vec_fits(
            product_vector_spec(rows, j),
        )
}

pub open spec fn vec_fits(v: Seq<CInt>) -> bool {
    forall|i: int| 0 <= i < v.len() ==> c_fits(#[trigger] v[i])
}

/// Embeds `op`, acting on subsystem `index`, into the space of `quantity`
/// subsystems of dimension `depth`: `I_{depth^index} ⊗ op ⊗ I_{depth^(quantity-index-1)}`.
pub open spec fn expand_spec(op: Mat, depth: nat, quantity: nat, index: nat) -> Mat {
    kron_spec(
        kron_spec(identity_spec(power(depth as int, index) as nat), op),
        identity_spec(power(depth as int, (quantity - index - 1) as nat) as nat),
    )
}

pub proof fn lemma_power_nonneg(b: int, e: nat)
    requires
        b >= 0,
    ensures
        power(b, e) >= 0,
    decreases e,
{
    if e > 0 {
        lemma_power_nonneg(b, (e - 1) as nat);
        assert(b * power(b, (e - 1) as nat) >= 0) by (nonlinear_arith)
            requires
                b >= 0,
                power(b, (e - 1) as nat) >= 0,
        ;
    }
}

pub proof fn lemma_power_adds(b: int, e1: nat, e2: nat)
    ensures
        power(b, e1 + e2) == power(b, e1) * power(b, e2),
    decreases e1,
{
    if e1 > 0 {
        lemma_power_adds(b, (e1 - 1) as nat, e2);
        assert(power(b, e1 + e2) == b * power(b, (e1 - 1 + e2) as nat));
        let x = power(b, (e1 - 1) as nat);
        let y = power(b, e2);
        assert(b * (x * y) == (b * x) * y) by (nonlinear_arith);
    }
}

pub proof fn lemma_power_mono(b: int, e1: nat, e2: nat)
    requires
        b >= 1,
        e1 <= e2,
    ensures
        power(b, e1) <= power(b, e2),
    decreases e2 - e1,
{
    if e1 < e2 {
        lemma_power_mono(b, e1, (e2 - 1) as nat);
        lemma_power_nonneg(b, (e2 - 1) as nat);
        let x = power(b, (e2 - 1) as nat);
        assert(x <= b * x) by (nonlinear_arith)
            requires
                b >= 1,
                x >= 0,
        ;
    }
}

/// `base` raised to the power `exp`, or `None` where it exceeds `usize::MAX`.
pub fn checked_power(base: usize, exp: usize) -> (r: Option<usize>)
    ensures
        r matches Some(v) ==> v == power(base as int, exp as nat),
        r is None <==> power(base as int, exp as nat) > usize::MAX,
        r is None ==> base >= 1,
{
    let mut acc: usize = 1;
    let mut e: usize = 0;
    while e < exp
        invariant
            e <= exp,
            acc == power(base as int, e as nat),
        decreases exp - e,
    {
        match acc.checked_mul(base) {
            Some(v) => {
                acc = v;
            },
            None => {
                proof {
                    assert(power(base as int, (e + 1) as nat) == base * acc);
                    assert(base >= 1);
                    lemma_power_mono(base as int, (e + 1) as nat, exp as nat);
                }
                return None;
            },
        }
        e += 1;
    }
    Some(acc)
}

/// A Kronecker product with an identity on the left keeps every entry storable.
pub proof fn lemma_left_identity_fits(n: nat, b: Mat)
    requires
        is_square(b),
        mat_fits(b),
    ensures
        mat_fits(kron_spec(identity_spec(n), b)),
{
    let k = kron_spec(identity_spec(n), b);
    let q = b.len() as int;
    assert forall|r: int, c: int| 0 <= r < k.len() && 0 <= c < k[r].len() implies #[trigger] crate::complex::c_fits(k[r][c]) by {
        lemma_split_index(r, n as int, q);
        lemma_split_index(c, n as int, q);
        lemma_mul_one(b[r % q][c % q]);
        lemma_mul_zero(b[r % q][c % q]);
        assert(b[r % q].len() == q);
    }
}

/// A Kronecker product with an identity on the right keeps every entry storable.
pub proof fn lemma_right_identity_fits(a: Mat, n: nat)
    requires
        is_square(a),
        mat_fits(a),
    ensures
        mat_fits(kron_spec(a, identity_spec(n))),
{
    let k = kron_spec(a, identity_spec(n));
    let q = n as int;
    assert forall|r: int, c: int| 0 <= r < k.len() && 0 <= c < k[r].len() implies #[trigger] crate::complex::c_fits(k[r][c]) by {
        lemma_split_index(r, a.len() as int, q);
        lemma_split_index(c, a.len() as int, q);
        lemma_mul_one(a[r / q][c / q]);
        lemma_mul_zero(a[r / q][c / q]);
        assert(a[r / q].len() == a.len());
    }
}

/// The Kronecker product of two square matrices is square.
pub proof fn lemma_kron_square(a: Mat, b: Mat)
    ensures
        is_square(kron_spec(a, b)),
        kron_spec(a, b).len() == a.len() * b.len(),
{
}

/// Embeds the square operator `op` of order `depth`, acting on subsystem
/// `index`, into the space of `quantity` subsystems.
pub fn expand_d_fs(op: &Vec<Vec<Cx>>, depth: usize, quantity: usize, index: usize) -> (r: Result<
    Vec<Vec<Cx>>,
    MatrixError,
>)
    ensures
        r matches Err(MatrixError::DimensionMismatch) <==> !(index < quantity && is_square(
            model(op),
        ) && op@.len() == depth),
        r matches Err(MatrixError::Overflow) <==> index < quantity && is_square(model(op))
            && op@.len() == depth && power(depth as int, quantity as nat) > usize::MAX,
        r matches Ok(m) ==> model(&m) == expand_spec(
            model(op),
            depth as nat,
            quantity as nat,
            index as nat,
        ),
{
    if index >= quantity || !square_order(op) || op.len() != depth {
        return Err(MatrixError::DimensionMismatch);
    }
    let ghost mo = model(op);
    let ghost d = depth as int;
    let ghost e_left = index as nat;
    let ghost e_right = (quantity - index - 1) as nat;
    proof {
        lemma_power_adds(d, e_left, 1);
        lemma_power_adds(d, e_left + 1, e_right);
        reveal_with_fuel(power, 2);
        assert(power(d, 1) == d);
        assert(e_left + 1 + e_right == quantity);
        lemma_power_nonneg(d, e_left);
        lemma_power_nonneg(d, e_right);
        crate::matrix::lemma_model_fits(op);
    }
    let left = match checked_power(depth, index) {
        Some(v) => v,
        None => {
            proof {
                lemma_power_mono(d, e_left, quantity as nat);
            }
            return Err(MatrixError::Overflow);
        },
    };
    let right = match checked_power(depth, quantity - index - 1) {
        Some(v) => v,
        None => {
            proof {
                lemma_power_mono(d, e_right, quantity as nat);
            }
            return Err(MatrixError::Overflow);
        },
    };
    let il = identity(left);
    let ir = identity(right);
    proof {
        lemma_left_identity_fits(left as nat, mo);
    }
    let k1 = match kronecker(&il, op) {
        Ok(k) => k,
        Err(_) => {
            proof {
                assert(power(d, 0) == 1);
                lemma_power_mono(d, 0, e_right);
                let x = left * depth;
                assert(x * right >= x) by (nonlinear_arith)
                    requires
                        x >= 0,
                        right >= 1,
                ;
            }
            return Err(MatrixError::Overflow);
        },
    };
    proof {
        lemma_kron_square(identity_spec(left as nat), mo);
        lemma_right_identity_fits(model(&k1), right as nat);
    }
    match kronecker(&k1, &ir) {
        Ok(k) => Ok(k),
        Err(_) => {
            assert(left * depth * right > usize::MAX);
            Err(MatrixError::Overflow)
        },
    }
}

/// The tensor product of the rows of `rows`, in order: the state vector of
/// a product state whose subsystem `k` is in state `rows[k]`.
pub fn product_vector(rows: &Vec<Vec<Cx>>) -> (r: Result<Vec<Cx>, MatrixError>)
    ensures
        r is Ok <==> product_vector_fits(model(rows), rows@.len() as nat),
        r matches Ok(v) ==> vec_model(&v) == product_vector_spec(model(rows), rows@.len() as nat),
        r matches Err(e) ==> e == MatrixError::Overflow,
{
    let ghost mr = model(rows);
    let mut acc: Vec<Cx> = Vec::new();
    acc.push(Cx { re: 1, im: 0 });
    assert(vec_model(&acc) =~= product_vector_spec(mr, 0));
    let mut k: usize = 0;
    while k < rows.len()
        invariant
            mr == model(rows),
            k <= rows@.len(),
            vec_model(&acc) == product_vector_spec(mr, k as nat),
            product_vector_fits(mr, k as nat),
        decreases rows@.len() - k,
    {
        let w = &rows[k];
        let m = w.len();
        let p = acc.len();
        let ghost next = product_vector_spec(mr, (k + 1) as nat);
        assert(mr[k as int] == vec_model(w));
        assert(next == outer_flat(vec_model(&acc), vec_model(w)));
        let n = match p.checked_mul(m) {
            Some(n) => n,
            None => {
                assert(next.len() > usize::MAX);
                return Err(MatrixError::Overflow);
            },
        };
        let mut out: Vec<Cx> = Vec::new();
        let mut t: usize = 0;
        while t < n
            invariant
                next == outer_flat(vec_model(&acc), vec_model(w)),
                next == product_vector_spec(mr, (k + 1) as nat),
                mr == model(rows),
                k < rows@.len(),
                p == acc@.len(),
                m == w@.len(),
                n == p * m,
                t <= n,
                out@.len() == t,
                forall|s: int| 0 <= s < t ==> (#[trigger] out@[s])@ == next[s],
            decreases n - t,
        {
            proof {
                lemma_split_index(t as int, p as int, m as int);
            }
            match checked_mul(acc[t / m], w[t % m]) {
                Some(z) => {
                    out.push(z);
                },
                None => {
                    assert(!c_fits(next[t as int]));
                    assert(!vec_fits(next));
                    assert(!(product_vector_spec(mr, (k + 1) as nat).len() <= usize::MAX
                        && vec_fits(product_vector_spec(mr, (k + 1) as nat))));
                    return Err(MatrixError::Overflow);
                },
            }
            t += 1;
        }
        assert(vec_model(&out) =~= next);
        proof {
            assert forall|j: nat| 1 <= j <= k + 1 implies #[trigger] product_vector_spec(
                mr,
                j,
            ).len() <= usize::MAX && vec_fits(product_vector_spec(mr, j)) by {
                if j == k + 1 {
                    assert(forall|s: int| 0 <= s < next.len() ==> next[s] == (#[trigger] out@[s])@);
                }
            }
        }
        acc = out;
        k += 1;
    }
    Ok(acc)
}

} // verus!

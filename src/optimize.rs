use crate::complex::Cx;
use crate::matrix::{
    conj_transpose, conj_transpose_spec, copy_matrix, inner_product_spec, is_square, mat_fits,
    model, product, rotate, rotate_fits, rotate_spec, same_square, square_order, Mat,
    MatrixError, MAX_ORDER,
};
use crate::tensor::{
    checked_power, expand_d_fs, expand_spec, lemma_kron_square, lemma_power_adds,
    lemma_power_nonneg, power,
};
use vstd::prelude::*;

verus! {

/// The matrices of a list, as proofs see them.
pub open spec fn models(v: &Vec<Vec<Vec<Cx>>>) -> Seq<Mat> {
    v@.map_values(|m: Vec<Vec<Cx>>| model(&m))
}

/// The state of a ride after at most `k` further rotations by `u`: while the
/// last score `s` beats the accepted `score`, it is accepted and the trial is
/// rotated once more. `None` where a rotation does not fit.
pub open spec fn ride(t: Mat, u: Mat, target: Mat, score: int, s: int, k: nat) -> Option<
    (int, Mat, int),
>
    decreases k,
{
    if k == 0 || s <= score {
        Some((score, t, s))
    } else if !rotate_fits(t, u) {
        None
    } else {
        let t2 = rotate_spec(t, u);
        ride(t2, u, target, s, inner_product_spec(t2, target), (k - 1) as nat)
    }
}

/// A ride has ended: a rotation did not fit, or the last score is no better.
pub open spec fn ride_ended(o: Option<(int, Mat, int)>) -> bool {
    match o {
        None => true,
        Some(x) => x.2 <= x.0,
    }
}

/// Where the ride from `t` ends, if it ends.
pub open spec fn ride_end(t: Mat, u: Mat, target: Mat, score: int, s: int) -> Option<(int, Mat)> {
    let k = choose|k: nat| ride_ended(ride(t, u, target, score, s, k));
    match ride(t, u, target, score, s, k) {
        None => None,
        Some(x) => Some((x.0, x.1)),
    }
}

/// One round from `new_state` with the expanded local operator `u`, starting
/// from the accepted `score`. A first trial that scores worse is replaced by
/// the rotation the other way and kept without scoring; otherwise the trial
/// rides `u` while it improves.
pub open spec fn round_spec(new_state: Mat, target: Mat, u: Mat, score: int) -> Option<(int, Mat)> {
    if !rotate_fits(new_state, u) {
        None
    } else {
        let t1 = rotate_spec(new_state, u);
        let s1 = inner_product_spec(t1, target);
        if s1 < score {
            let back = conj_transpose_spec(u);
            if mat_fits(back) && rotate_fits(new_state, back) {
                Some((score, rotate_spec(new_state, back)))
            } else {
                None
            }
        } else {
            ride_end(t1, u, target, score, s1)
        }
    }
}

/// The accepted score and the trial after the first `r` rounds; round `i`
/// acts on subsystem `i % quantity` with `perts[i]`.
pub open spec fn optimize_spec(
    new_state: Mat,
    target: Mat,
    depth: nat,
    quantity: nat,
    perts: Seq<Mat>,
    r: nat,
) -> Option<(int, Mat)>
    decreases r,
{
    if r == 0 {
        Some((inner_product_spec(new_state, target), new_state))
    } else {
        match optimize_spec(new_state, target, depth, quantity, perts, (r - 1) as nat) {
            None => None,
            Some(x) => round_spec(
                new_state,
                target,
                expand_spec(perts[r - 1], depth, quantity, ((r - 1) % (quantity as int)) as nat),
                x.0,
            ),
        }
    }
}

/// The arguments of an optimization have the shapes it needs.
pub open spec fn optimize_shapes(
    new_state: Mat,
    target: Mat,
    depth: nat,
    quantity: nat,
    perts: Seq<Mat>,
) -> bool {
    &&& quantity > 0
    &&& same_square(new_state, target)
    &&& new_state.len() == power(depth as int, quantity)
    &&& forall|i: int| 0 <= i < perts.len() ==> is_square(#[trigger] perts[i]) && perts[i].len() == depth
}

proof fn lemma_expand_shape(op: Mat, depth: nat, quantity: nat, index: nat)
    requires
        is_square(op),
        op.len() == depth,
        index < quantity,
    ensures
        is_square(expand_spec(op, depth, quantity, index)),
        expand_spec(op, depth, quantity, index).len() == power(depth as int, quantity),
{
    let d = depth as int;
    let e_left = index;
    let e_right = (quantity - index - 1) as nat;
    lemma_power_adds(d, e_left, 1);
    lemma_power_adds(d, e_left + 1, e_right);
    reveal_with_fuel(power, 2);
    assert(e_left + 1 + e_right == quantity);
    lemma_power_nonneg(d, e_left);
    lemma_power_nonneg(d, e_right);
    let il = crate::matrix::identity_spec(power(d, e_left) as nat);
    lemma_kron_square(il, op);
    let k1 = crate::matrix::kron_spec(il, op);
    lemma_kron_square(k1, crate::matrix::identity_spec(power(d, e_right) as nat));
}

proof fn lemma_ride_step(t: Mat, u: Mat, target: Mat, score: int, s: int, k: nat)
    requires
        ride(t, u, target, score, s, k) matches Some(x) && x.2 > x.0,
    ensures
        ({
            let x = ride(t, u, target, score, s, k)->Some_0;
            let t2 = rotate_spec(x.1, u);
            ride(t, u, target, score, s, k + 1) == if rotate_fits(x.1, u) {
                Some((x.2, t2, inner_product_spec(t2, target)))
            } else {
                None::<(int, Mat, int)>
            }
        }),
    decreases k,
{
    let t2 = rotate_spec(t, u);
    let s2 = inner_product_spec(t2, target);
    if k == 0 {
        assert(s > score);
        if rotate_fits(t, u) {
            assert(ride(t2, u, target, s, s2, 0) == Some((s, t2, s2)));
            assert(ride(t, u, target, score, s, 1) == ride(t2, u, target, s, s2, 0));
        } else {
            assert(ride(t, u, target, score, s, 1) is None);
        }
    } else {
        assert(s > score);
        assert(rotate_fits(t, u));
        assert(ride(t, u, target, score, s, k) == ride(t2, u, target, s, s2, (k - 1) as nat));
        lemma_ride_step(t2, u, target, s, s2, (k - 1) as nat);
        assert(ride(t, u, target, score, s, k + 1) == ride(t2, u, target, s, s2, k));
    }
}

proof fn lemma_ride_stays(t: Mat, u: Mat, target: Mat, score: int, s: int, k: nat, j: nat)
    requires
        ride_ended(ride(t, u, target, score, s, k)),
        k <= j,
    ensures
        ride(t, u, target, score, s, j) == ride(t, u, target, score, s, k),
    decreases k,
{
    if k > 0 && s > score && rotate_fits(t, u) {
        let t2 = rotate_spec(t, u);
        lemma_ride_stays(
            t2,
            u,
            target,
            s,
            inner_product_spec(t2, target),
            (k - 1) as nat,
            (j - 1) as nat,
        );
    }
}

/// A ride that ended after `k` steps ends where `ride_end` says.
proof fn lemma_ride_end(t: Mat, u: Mat, target: Mat, score: int, s: int, k: nat)
    requires
        ride_ended(ride(t, u, target, score, s, k)),
    ensures
        ride_end(t, u, target, score, s) == match ride(t, u, target, score, s, k) {
            None => None,
            Some(x) => Some((x.0, x.1)),
        },
{
    let c = choose|c: nat| ride_ended(ride(t, u, target, score, s, c));
    if c <= k {
        lemma_ride_stays(t, u, target, score, s, c, k);
    } else {
        lemma_ride_stays(t, u, target, score, s, k, c);
    }
}

proof fn lemma_optimize_none(
    new_state: Mat,
    target: Mat,
    depth: nat,
    quantity: nat,
    perts: Seq<Mat>,
    r: nat,
    r2: nat,
)
    requires
        optimize_spec(new_state, target, depth, quantity, perts, r) is None,
        r <= r2,
    ensures
        optimize_spec(new_state, target, depth, quantity, perts, r2) is None,
    decreases r2 - r,
{
    if r < r2 {
        lemma_optimize_none(new_state, target, depth, quantity, perts, r, (r2 - 1) as nat);
    }
}

/// Greedy rotation ascent of `<state, target>` from `new_state`: round `i`
/// rotates by `perturbations[i]` acting on subsystem `i % quantity`.
pub fn optimize_d_fs(
    new_state: &Vec<Vec<Cx>>,
    target: &Vec<Vec<Cx>>,
    depth: usize,
    quantity: usize,
    perturbations: &Vec<Vec<Vec<Cx>>>,
) -> (r: Result<Vec<Vec<Cx>>, MatrixError>)
    requires
        new_state@.len() <= MAX_ORDER,
    ensures
        r matches Err(MatrixError::DimensionMismatch) <==> !optimize_shapes(
            model(new_state),
            model(target),
            depth as nat,
            quantity as nat,
            models(perturbations),
        ),
        r is Ok <==> optimize_shapes(
            model(new_state),
            model(target),
            depth as nat,
            quantity as nat,
            models(perturbations),
        ) && optimize_spec(
            model(new_state),
            model(target),
            depth as nat,
            quantity as nat,
            models(perturbations),
            perturbations@.len() as nat,
        ) is Some,
        r matches Ok(m) ==> model(&m) == optimize_spec(
            model(new_state),
            model(target),
            depth as nat,
            quantity as nat,
            models(perturbations),
            perturbations@.len() as nat,
        )->Some_0.1,
{
    let ghost ns = model(new_state);
    let ghost tg = model(target);
    let ghost ps = models(perturbations);
    let ghost d = depth as nat;
    let ghost q = quantity as nat;
    if quantity == 0 || !square_order(new_state) || !square_order(target) || new_state.len()
        != target.len() {
        return Err(MatrixError::DimensionMismatch);
    }
    match checked_power(depth, quantity) {
        Some(v) => {
            if v != new_state.len() {
                return Err(MatrixError::DimensionMismatch);
            }
        },
        None => {
            return Err(MatrixError::DimensionMismatch);
        },
    }
    let mut i: usize = 0;
    while i < perturbations.len()
        invariant
            ps == models(perturbations),
            i <= ps.len(),
            forall|t: int| 0 <= t < i ==> is_square(#[trigger] ps[t]) && ps[t].len() == depth,
        decreases perturbations@.len() - i,
    {
        assert(ps[i as int] == model(&perturbations@[i as int]));
        if !square_order(&perturbations[i]) || perturbations[i].len() != depth {
            return Err(MatrixError::DimensionMismatch);
        }
        i += 1;
    }
    assert(optimize_shapes(ns, tg, d, q, ps));
    let n = new_state.len();
    let mut score: i128 = match product(new_state, target) {
        Ok(v) => v,
        Err(e) => {
            return Err(e);
        },
    };
    let mut trial = copy_matrix(new_state);
    let mut r: usize = 0;
    while r < perturbations.len()
        invariant
            ns == model(new_state),
            tg == model(target),
            ps == models(perturbations),
            d == depth,
            q == quantity,
            optimize_shapes(ns, tg, d, q, ps),
            n == new_state@.len(),
            n <= MAX_ORDER,
            r <= ps.len(),
            optimize_spec(ns, tg, d, q, ps, r as nat) == Some((score as int, model(&trial))),
        decreases perturbations@.len() - r,
    {
        let ghost next = optimize_spec(ns, tg, d, q, ps, (r + 1) as nat);
        let idx = r % quantity;
        assert(ps[r as int] == model(&perturbations@[r as int]));
        proof {
            lemma_expand_shape(ps[r as int], d, q, idx as nat);
        }
        let u = match expand_d_fs(&perturbations[r], depth, quantity, idx) {
            Ok(u) => u,
            Err(e) => {
                return Err(e);
            },
        };
        let ghost mu = model(&u);
        assert(next == round_spec(ns, tg, mu, score as int));
        let t1 = match rotate(new_state, &u) {
            Ok(t) => t,
            Err(e) => {
                proof {
                    lemma_optimize_none(ns, tg, d, q, ps, (r + 1) as nat, ps.len());
                }
                return Err(e);
            },
        };
        assert(is_square(model(&t1)));
        let s1 = match product(&t1, target) {
            Ok(v) => v,
            Err(e) => {
                return Err(e);
            },
        };
        if s1 < score {
            let back = match conj_transpose(&u) {
                Ok(b) => b,
                Err(e) => {
                    proof {
                        lemma_optimize_none(ns, tg, d, q, ps, (r + 1) as nat, ps.len());
                    }
                    return Err(e);
                },
            };
            assert(is_square(model(&back)));
            trial = match rotate(new_state, &back) {
                Ok(t) => t,
                Err(e) => {
                    proof {
                        lemma_optimize_none(ns, tg, d, q, ps, (r + 1) as nat, ps.len());
                    }
                    return Err(e);
                },
            };
        } else {
            let ghost t1m = model(&t1);
            let ghost score0 = score as int;
            let mut t = t1;
            let mut s = s1;
            let ghost mut k: nat = 0;
            assert(next == ride_end(t1m, mu, tg, score0, s1 as int));
            while s > score
                invariant
                    next == ride_end(t1m, mu, tg, score0, s1 as int),
                    next == optimize_spec(ns, tg, d, q, ps, (r + 1) as nat),
                    r < ps.len(),
                    optimize_shapes(ns, tg, d, q, ps),
                    ns == model(new_state),
                    ps == models(perturbations),
                    d == depth,
                    q == quantity,
                    tg == model(target),
                    n == t@.len(),
                    n <= MAX_ORDER,
                    is_square(model(&t)),
                    is_square(mu),
                    mu.len() == n,
                    mu == model(&u),
                    tg.len() == n,
                    is_square(tg),
                    ride(t1m, mu, tg, score0, s1 as int, k) == Some(
                        (score as int, model(&t), s as int),
                    ),
                decreases i128::MAX - score,
            {
                proof {
                    lemma_ride_step(t1m, mu, tg, score0, s1 as int, k);
                }
                score = s;
                t = match rotate(&t, &u) {
                    Ok(x) => x,
                    Err(e) => {
                        proof {
                            assert(ride(t1m, mu, tg, score0, s1 as int, k + 1) is None);
                            lemma_ride_end(t1m, mu, tg, score0, s1 as int, k + 1);
                            lemma_optimize_none(ns, tg, d, q, ps, (r + 1) as nat, ps.len());
                        }
                        return Err(e);
                    },
                };
                assert(is_square(model(&t)));
                s = match product(&t, target) {
                    Ok(v) => v,
                    Err(e) => {
                        return Err(e);
                    },
                };
                proof {
                    k = k + 1;
                }
            }
            proof {
                lemma_ride_end(t1m, mu, tg, score0, s1 as int, k);
            }
            trial = t;
        }
        r += 1;
    }
    Ok(trial)
}

} // verus!

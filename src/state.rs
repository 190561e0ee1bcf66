use crate::complex::{c_sub, c_zero, CInt, Cx};
use crate::matrix::{
    copy_matrix, inner_product_spec, is_square, model, product, same_square, square_order,
    vec_model, Mat, MatrixError, MAX_ORDER,
};
use crate::trace::lemma_inner_product_symmetric;
use vstd::prelude::*;

verus! {

/// The search strategies a backend can be asked for.
#[derive(Clone, Copy, Debug, PartialEq, Eq, Structural)]
pub enum AlgoMode {
    /// Finite-dimension multi-qudit separable search.
    FSnQd,
    /// Bipartite search.
    SBiPa,
    /// Genuinely tripartite entanglement of three qudits, variant 3.
    G3PaE3qD,
    /// Genuinely tripartite entanglement of three qudits, variant 4.
    G4PaE3qD,
}

/// Why a backend could not be set up.
#[derive(Clone, Copy, Debug, PartialEq, Eq, Structural)]
pub enum BackendError {
    /// The strategy asked for has no implementation.
    UnsupportedMode,
    /// A kernel refused the target matrix.
    Matrix(MatrixError),
}

/// The one strategy that is implemented.
pub open spec fn mode_supported(mode: AlgoMode) -> bool {
    mode == AlgoMode::FSnQd
}

/// Accepts the implemented strategy and refuses the others.
pub fn check_mode(mode: AlgoMode) -> (r: Result<(), BackendError>)
    ensures
        r is Ok <==> mode_supported(mode),
        r matches Err(e) ==> e == BackendError::UnsupportedMode,
{
    match mode {
        AlgoMode::FSnQd => Ok(()),
        _ => Err(BackendError::UnsupportedMode),
    }
}

/// The diagonal restriction: off-diagonal entries set to zero.
pub open spec fn diagonal_spec(m: Mat) -> Mat {
    Seq::new(
        m.len(),
        |i: int| Seq::new(m.len(), |j: int| if i == j { m[i][j] } else { c_zero() }),
    )
}

/// The off-diagonal part `m - diagonal(m)`.
pub open spec fn off_diagonal_spec(m: Mat) -> Mat {
    Seq::new(m.len(), |i: int| Seq::new(m.len(), |j: int| c_sub(m[i][j], diagonal_spec(m)[i][j])))
}

/// Tells, for a square matrix, its diagonal restriction and its off-diagonal part.
pub fn split_diagonal(m: &Vec<Vec<Cx>>) -> (r: Result<(Vec<Vec<Cx>>, Vec<Vec<Cx>>), MatrixError>)
    ensures
        r is Ok <==> is_square(model(m)),
        r matches Err(e) ==> e == MatrixError::DimensionMismatch,
        r matches Ok(p) ==> model(&p.0) == diagonal_spec(model(m)) && model(&p.1)
            == off_diagonal_spec(model(m)),
{
    if !square_order(m) {
        return Err(MatrixError::DimensionMismatch);
    }
    let n = m.len();
    let ghost mm = model(m);
    let ghost dg = diagonal_spec(mm);
    let ghost od = off_diagonal_spec(mm);
    let mut diag: Vec<Vec<Cx>> = Vec::new();
    let mut off: Vec<Vec<Cx>> = Vec::new();
    let mut i: usize = 0;
    while i < n
        invariant
            n == m@.len(),
            mm == model(m),
            dg == diagonal_spec(mm),
            od == off_diagonal_spec(mm),
            is_square(mm),
            i <= n,
            diag@.len() == i,
            off@.len() == i,
            forall|t: int| 0 <= t < i ==> vec_model(#[trigger] &diag@[t]) == dg[t],
            forall|t: int| 0 <= t < i ==> vec_model(#[trigger] &off@[t]) == od[t],
        decreases n - i,
    {
        assert(mm[i as int].len() == n);
        let mut drow: Vec<Cx> = Vec::new();
        let mut orow: Vec<Cx> = Vec::new();
        let mut j: usize = 0;
        while j < n
            invariant
                n == m@.len(),
                mm == model(m),
                dg == diagonal_spec(mm),
                od == off_diagonal_spec(mm),
                m@[i as int]@.len() == n,
                i < n,
                j <= n,
                drow@.len() == j,
                orow@.len() == j,
                forall|t: int| 0 <= t < j ==> (#[trigger] drow@[t])@ == dg[i as int][t],
                forall|t: int| 0 <= t < j ==> (#[trigger] orow@[t])@ == od[i as int][t],
            decreases n - j,
        {
            if i == j {
                drow.push(m[i][j]);
                orow.push(Cx { re: 0, im: 0 });
            } else {
                drow.push(Cx { re: 0, im: 0 });
                orow.push(m[i][j]);
            }
            j += 1;
        }
        assert(vec_model(&drow) =~= dg[i as int]);
        assert(vec_model(&orow) =~= od[i as int]);
        diag.push(drow);
        off.push(orow);
        i += 1;
    }
    assert forall|t: int| 0 <= t < n implies model(&diag)[t] == dg[t] && model(&off)[t]
        == od[t] by {
        assert(model(&diag)[t] == vec_model(&diag@[t]));
        assert(model(&off)[t] == vec_model(&off@[t]));
    }
    assert(model(&diag) =~= dg);
    assert(model(&off) =~= od);
    Ok((diag, off))
}

/// The state a search starts from: the visibility state, the certificate
/// made of its diagonal, their difference, and the cached inner products.
pub struct SearchState {
    pub visibility: Vec<Vec<Cx>>,
    pub intermediate: Vec<Vec<Cx>>,
    pub visibility_reduced: Vec<Vec<Cx>>,
    pub aa4: i128,
    pub aa6: i128,
    pub dd1: i128,
}

impl SearchState {
    /// What `new` derives from `target`: each field as the search defines it.
    pub open spec fn derived_from(&self, target: Mat) -> bool {
        &&& model(&self.visibility) == target
        &&& model(&self.intermediate) == diagonal_spec(target)
        &&& model(&self.visibility_reduced) == off_diagonal_spec(target)
        &&& self.aa4 == inner_product_spec(target, diagonal_spec(target))
        &&& self.aa6 == inner_product_spec(diagonal_spec(target), diagonal_spec(target))
        &&& self.dd1 == inner_product_spec(diagonal_spec(target), target)
    }

    /// Sets up the search for the state closest to `target` with strategy
    /// `mode`. The visibility state is the target itself.
    pub fn new(target: &Vec<Vec<Cx>>, mode: AlgoMode) -> (r: Result<SearchState, BackendError>)
        requires
            target@.len() <= MAX_ORDER,
        ensures
            r matches Err(BackendError::UnsupportedMode) <==> !mode_supported(mode),
            r matches Err(BackendError::Matrix(_)) <==> mode_supported(mode) && !is_square(
                model(target),
            ),
            r matches Err(BackendError::Matrix(e)) ==> e == MatrixError::DimensionMismatch,
            r matches Ok(s) ==> s.derived_from(model(target)),
    {
        check_mode(mode)?;
        let (intermediate, visibility_reduced) = match split_diagonal(target) {
            Ok(p) => p,
            Err(e) => {
                return Err(BackendError::Matrix(e));
            },
        };
        let visibility = copy_matrix(target);
        let aa4 = match product(&visibility, &intermediate) {
            Ok(v) => v,
            Err(e) => {
                return Err(BackendError::Matrix(e));
            },
        };
        let aa6 = match product(&intermediate, &intermediate) {
            Ok(v) => v,
            Err(e) => {
                return Err(BackendError::Matrix(e));
            },
        };
        let dd1 = match product(&intermediate, &visibility) {
            Ok(v) => v,
            Err(e) => {
                return Err(BackendError::Matrix(e));
            },
        };
        Ok(SearchState { visibility, intermediate, visibility_reduced, aa4, aa6, dd1 })
    }

    /// The acceptance test of a candidate: `<candidate, visibility_reduced> > dd1`.
    pub fn accepts(&self, candidate: &Vec<Vec<Cx>>) -> (r: Result<bool, MatrixError>)
        requires
            self.visibility_reduced@.len() <= MAX_ORDER,
        ensures
            r is Ok <==> same_square(model(candidate), model(&self.visibility_reduced)),
            r matches Ok(b) ==> b == (inner_product_spec(
                model(candidate),
                model(&self.visibility_reduced),
            ) > self.dd1),
            r matches Err(e) ==> e == MatrixError::DimensionMismatch,
    {
        let v = product(&self.visibility_reduced, candidate)?;
        proof {
            lemma_inner_product_symmetric(model(&self.visibility_reduced), model(candidate));
        }
        Ok(v > self.dd1)
    }

    /// Commits `optimized` where its objective `<optimized, visibility>`
    /// beats `aa4`: it becomes the certificate, the cached inner products are
    /// recomputed from it and `(epoch, iteration, objective)` is logged.
    pub fn commit(
        &mut self,
        optimized: &Vec<Vec<Cx>>,
        epoch: usize,
        iteration: usize,
        log: &mut Vec<Correction>,
    ) -> (r: Result<bool, MatrixError>)
        requires
            old(self).visibility@.len() <= MAX_ORDER,
        ensures
            r is Ok <==> same_square(model(&old(self).visibility), model(optimized)),
            r matches Err(e) ==> e == MatrixError::DimensionMismatch,
            !(r matches Ok(true)) ==> *final(self) == *old(self) && final(log)@ == old(log)@,
            r matches Ok(false) ==> inner_product_spec(
                model(optimized),
                model(&old(self).visibility),
            ) <= old(self).aa4,
            r matches Ok(true) ==> {
                let vis = model(&old(self).visibility);
                let opt = model(optimized);
                &&& inner_product_spec(opt, vis) > old(self).aa4
                &&& final(self).visibility == old(self).visibility
                &&& final(self).visibility_reduced == old(self).visibility_reduced
                &&& model(&final(self).intermediate) == opt
                &&& final(self).aa4 == inner_product_spec(vis, opt)
                &&& final(self).aa6 == inner_product_spec(opt, opt)
                &&& final(self).dd1 == inner_product_spec(opt, vis)
                &&& final(log)@ == old(log)@.push(
                    (Correction {
                        epoch,
                        iteration,
                        objective: inner_product_spec(opt, vis) as i128,
                    }),
                )
            },
    {
        let aa4 = product(&self.visibility, optimized)?;
        let objective = match product(optimized, &self.visibility) {
            Ok(v) => v,
            Err(e) => {
                return Err(e);
            },
        };
        if objective <= self.aa4 {
            return Ok(false);
        }
        let intermediate = copy_matrix(optimized);
        let aa6 = match product(&intermediate, &intermediate) {
            Ok(v) => v,
            Err(e) => {
                return Err(e);
            },
        };
        self.intermediate = intermediate;
        self.aa4 = aa4;
        self.aa6 = aa6;
        self.dd1 = objective;
        log.push(Correction { epoch, iteration, objective });
        Ok(true)
    }
}

/// A recorded improvement: the epoch and iteration in which a candidate was
/// committed, and the objective it reached.
#[derive(Clone, Copy, Debug, PartialEq, Eq, Structural)]
pub struct Correction {
    pub epoch: usize,
    pub iteration: usize,
    pub objective: i128,
}

} // verus!

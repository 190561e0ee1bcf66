use crate::complex::{c_zero, lemma_mul_zero, Cx};
use crate::matrix::{
    inner_product_spec, is_square, model, row_sum, rows_sum, same_square, Mat, MatrixError,
    MAX_ORDER,
};
use crate::optimize::{models, optimize_d_fs, optimize_shapes, optimize_spec};
use crate::state::{mode_supported, AlgoMode, BackendError, Correction, SearchState};
use crate::trace::lemma_inner_product_symmetric;
use vstd::prelude::*;

verus! {

/// A search state as proofs see it.
pub struct StateModel {
    pub vis: Mat,
    pub inter: Mat,
    pub reduced: Mat,
    pub aa4: int,
    pub aa6: int,
    pub dd1: int,
}

pub open spec fn state_model(s: &SearchState) -> StateModel {
    StateModel {
        vis: model(&s.visibility),
        inter: model(&s.intermediate),
        reduced: model(&s.visibility_reduced),
        aa4: s.aa4 as int,
        aa6: s.aa6 as int,
        dd1: s.dd1 as int,
    }
}

/// What one candidate does to the state and the log; `None` where a kernel
/// refuses. A candidate passes the acceptance test when
/// `<candidate, reduced> > dd1`; it is then optimized against the visibility
/// state and committed where its objective `<optimized, vis>` beats `aa4`.
pub open spec fn epoch_step(
    st: StateModel,
    log: Seq<Correction>,
    cand: Mat,
    depth: nat,
    quantity: nat,
    perts: Seq<Mat>,
    epoch: usize,
    iteration: usize,
) -> Option<(StateModel, Seq<Correction>)> {
    if !same_square(cand, st.reduced) {
        None
    } else if inner_product_spec(cand, st.reduced) <= st.dd1 {
        Some((st, log))
    } else if !(optimize_shapes(cand, st.vis, depth, quantity, perts) && optimize_spec(
        cand,
        st.vis,
        depth,
        quantity,
        perts,
        perts.len(),
    ) is Some) {
        None
    } else {
        let o = optimize_spec(cand, st.vis, depth, quantity, perts, perts.len())->Some_0.1;
        if !same_square(st.vis, o) {
            None
        } else if inner_product_spec(o, st.vis) <= st.aa4 {
            Some((st, log))
        } else {
            Some(
                (
                    StateModel {
                        vis: st.vis,
                        inter: o,
                        reduced: st.reduced,
                        aa4: inner_product_spec(st.vis, o),
                        aa6: inner_product_spec(o, o),
                        dd1: inner_product_spec(o, st.vis),
                    },
                    log.push(
                        Correction {
                            epoch,
                            iteration,
                            objective: inner_product_spec(o, st.vis) as i128,
                        },
                    ),
                ),
            )
        }
    }
}

/// The state and the log after the first `i` candidates of an epoch.
pub open spec fn epoch_spec(
    st: StateModel,
    log: Seq<Correction>,
    cands: Seq<Mat>,
    depth: nat,
    quantity: nat,
    perts: Seq<Mat>,
    epoch: usize,
    i: nat,
) -> Option<(StateModel, Seq<Correction>)>
    decreases i,
{
    if i == 0 {
        Some((st, log))
    } else {
        match epoch_spec(st, log, cands, depth, quantity, perts, epoch, (i - 1) as nat) {
            None => None,
            Some(p) => epoch_step(
                p.0,
                p.1,
                cands[i - 1],
                depth,
                quantity,
                perts,
                epoch,
                (i - 1) as usize,
            ),
        }
    }
}

proof fn lemma_epoch_none(
    st: StateModel,
    log: Seq<Correction>,
    cands: Seq<Mat>,
    depth: nat,
    quantity: nat,
    perts: Seq<Mat>,
    epoch: usize,
    i: nat,
    j: nat,
)
    requires
        epoch_spec(st, log, cands, depth, quantity, perts, epoch, i) is None,
        i <= j,
    ensures
        epoch_spec(st, log, cands, depth, quantity, perts, epoch, j) is None,
    decreases j - i,
{
    if i < j {
        lemma_epoch_none(st, log, cands, depth, quantity, perts, epoch, i, (j - 1) as nat);
    }
}

/// Every entry of `m` is zero.
pub open spec fn is_zero(m: Mat) -> bool {
    forall|i: int, j: int| 0 <= i < m.len() && 0 <= j < m[i].len() ==> #[trigger] m[i][j] == c_zero()
}

proof fn lemma_row_with_zero(a: Mat, z: Mat, i: int, k: nat)
    requires
        same_square(a, z),
        is_zero(z),
        0 <= i < z.len(),
        k <= z.len(),
    ensures
        row_sum(a, z, i, k) == 0,
    decreases k,
{
    if k > 0 {
        lemma_row_with_zero(a, z, i, (k - 1) as nat);
        assert(z[k - 1].len() == z.len());
        assert(z[k - 1][i] == c_zero());
        lemma_mul_zero(a[i][k - 1]);
    }
}

proof fn lemma_rows_with_zero(a: Mat, z: Mat, i: nat)
    requires
        same_square(a, z),
        is_zero(z),
        i <= z.len(),
    ensures
        rows_sum(a, z, i) == 0,
    decreases i,
{
    if i > 0 {
        lemma_rows_with_zero(a, z, (i - 1) as nat);
        lemma_row_with_zero(a, z, i - 1, a.len());
    }
}

/// Where the visibility state has no off-diagonal part (its reduced part is
/// zero) and the threshold `dd1` is not negative, no candidate passes the
/// acceptance test: an epoch of well-shaped candidates succeeds and leaves
/// the state and the log as they were.
pub proof fn lemma_no_off_diagonal_no_commit(
    st: StateModel,
    log: Seq<Correction>,
    cands: Seq<Mat>,
    depth: nat,
    quantity: nat,
    perts: Seq<Mat>,
    epoch: usize,
    i: nat,
)
    requires
        is_square(st.reduced),
        is_zero(st.reduced),
        st.dd1 >= 0,
        i <= cands.len(),
        forall|j: int| 0 <= j < i ==> same_square(#[trigger] cands[j], st.reduced),
    ensures
        epoch_spec(st, log, cands, depth, quantity, perts, epoch, i) == Some((st, log)),
    decreases i,
{
    if i > 0 {
        lemma_no_off_diagonal_no_commit(st, log, cands, depth, quantity, perts, epoch, (i - 1) as nat);
        let c = cands[i - 1];
        assert(same_square(c, st.reduced));
        lemma_rows_with_zero(c, st.reduced, c.len());
    }
}

/// Owns one search: its configuration, its state and its log of corrections.
pub struct RustBackend {
    pub depth: usize,
    pub quantity: usize,
    pub mode: AlgoMode,
    pub state: SearchState,
    pub corrections: Vec<Correction>,
    pub symmetries: Option<Vec<Vec<Vec<Vec<Cx>>>>>,
}

impl RustBackend {
    /// The invariant of a backend: the visibility state, its reduced part and
    /// the certificate are square matrices of one order within `MAX_ORDER`;
    /// the cached scalars are the inner products of the certificate with the
    /// visibility state; the logged objectives strictly increase, the last
    /// one being `aa4`.
    pub open spec fn wf(&self) -> bool {
        let vis = model(&self.state.visibility);
        let inter = model(&self.state.intermediate);
        let log = self.corrections@;
        &&& self.state.visibility@.len() <= MAX_ORDER
        &&& same_square(vis, model(&self.state.visibility_reduced))
        &&& same_square(vis, inter)
        &&& self.state.aa4 == inner_product_spec(vis, inter)
        &&& self.state.aa6 == inner_product_spec(inter, inter)
        &&& self.state.dd1 == inner_product_spec(inter, vis)
        &&& forall|j1: int, j2: int|
            0 <= j1 < j2 < log.len() ==> (#[trigger] log[j1]).objective < (#[trigger] log[j2]).objective
        &&& log.len() > 0 ==> log.last().objective == self.state.aa4
    }

    /// Sets up a search of `quantity` subsystems of dimension `depth` for the
    /// separable state closest to `initial`.
    pub fn new(initial: &Vec<Vec<Cx>>, depth: usize, quantity: usize, mode: AlgoMode) -> (r: Result<
        RustBackend,
        BackendError,
    >)
        requires
            initial@.len() <= MAX_ORDER,
        ensures
            r matches Err(BackendError::UnsupportedMode) <==> !mode_supported(mode),
            r matches Err(BackendError::Matrix(_)) <==> mode_supported(mode) && !is_square(
                model(initial),
            ),
            r matches Err(BackendError::Matrix(e)) ==> e == MatrixError::DimensionMismatch,
            r matches Ok(b) ==> {
                &&& b.wf()
                &&& b.state.derived_from(model(initial))
                &&& b.depth == depth
                &&& b.quantity == quantity
                &&& b.mode == mode
                &&& b.corrections@.len() == 0
                &&& b.symmetries is None
            },
    {
        let state = SearchState::new(initial, mode)?;
        assert(same_square(model(&state.visibility), model(&state.visibility_reduced)));
        assert(same_square(model(&state.visibility), model(&state.intermediate)));
        Ok(RustBackend { depth, quantity, mode, state, corrections: Vec::new(), symmetries: None })
    }

    /// Stores symmetry generators; the search does not read them.
    pub fn set_symmetries(&mut self, symmetries: Vec<Vec<Vec<Vec<Cx>>>>)
        ensures
            final(self).symmetries == Some(symmetries),
            final(self).state == old(self).state,
            final(self).corrections == old(self).corrections,
            final(self).depth == old(self).depth,
            final(self).quantity == old(self).quantity,
            final(self).mode == old(self).mode,
    {
        self.symmetries = Some(symmetries);
    }

    /// The current certificate.
    pub fn get_state(&self) -> (r: &Vec<Vec<Cx>>)
        ensures
            r == &self.state.intermediate,
    {
        &self.state.intermediate
    }

    /// The log of corrections, oldest first.
    pub fn get_corrections(&self) -> (r: &Vec<Correction>)
        ensures
            r == &self.corrections,
    {
        &self.corrections
    }

    pub fn get_corrections_count(&self) -> (r: usize)
        ensures
            r == self.corrections@.len(),
    {
        self.corrections.len()
    }

    /// Runs one epoch: each candidate in turn that passes the acceptance
    /// test is optimized against the visibility state with `perturbations`
    /// and committed where it improves the objective.
    pub fn run_epoch(
        &mut self,
        candidates: &Vec<Vec<Vec<Cx>>>,
        perturbations: &Vec<Vec<Vec<Cx>>>,
        epoch_index: usize,
    ) -> (r: Result<(), BackendError>)
        requires
            old(self).wf(),
        ensures
            final(self).wf(),
            final(self).depth == old(self).depth,
            final(self).quantity == old(self).quantity,
            final(self).mode == old(self).mode,
            final(self).symmetries == old(self).symmetries,
            final(self).state.visibility == old(self).state.visibility,
            final(self).state.visibility_reduced == old(self).state.visibility_reduced,
            old(self).corrections@.len() <= final(self).corrections@.len(),
            final(self).corrections@.subrange(0, old(self).corrections@.len() as int) == old(self).corrections@,
            forall|j: int|
                old(self).corrections@.len() <= j < final(self).corrections@.len() ==> {
                    &&& (#[trigger] final(self).corrections@[j]).epoch == epoch_index
                    &&& final(self).corrections@[j].iteration < candidates@.len()
                },
            forall|j1: int, j2: int|
                old(self).corrections@.len() <= j1 < j2 < final(self).corrections@.len() ==> {
                    &&& (#[trigger] final(self).corrections@[j1]).iteration < (
                    #[trigger] final(self).corrections@[j2]).iteration
                    &&& final(self).corrections@[j1].objective < final(self).corrections@[j2].objective
                },
            final(self).corrections@.len() == old(self).corrections@.len() ==> final(self).state
                == old(self).state,
            r is Ok <==> epoch_spec(
                state_model(&old(self).state),
                old(self).corrections@,
                models(candidates),
                old(self).depth as nat,
                old(self).quantity as nat,
                models(perturbations),
                epoch_index,
                candidates@.len() as nat,
            ) is Some,
            r is Ok ==> (state_model(&final(self).state), final(self).corrections@) == epoch_spec(
                state_model(&old(self).state),
                old(self).corrections@,
                models(candidates),
                old(self).depth as nat,
                old(self).quantity as nat,
                models(perturbations),
                epoch_index,
                candidates@.len() as nat,
            )->Some_0,
    {
        let ghost old_len = self.corrections@.len();
        let ghost old_state = self.state;
        let ghost old_log = self.corrections@;
        let mut i: usize = 0;
        while i < candidates.len()
            invariant
                self.wf(),
                self.depth == old(self).depth,
                self.quantity == old(self).quantity,
                self.mode == old(self).mode,
                self.symmetries == old(self).symmetries,
                self.state.visibility == old(self).state.visibility,
                self.state.visibility_reduced == old(self).state.visibility_reduced,
                old_len == old(self).corrections@.len(),
                old_state == old(self).state,
                old_log == old(self).corrections@,
                i <= candidates@.len(),
                old_len <= self.corrections@.len(),
                self.corrections@.subrange(0, old_len as int) == old_log,
                forall|j: int|
                    old_len <= j < self.corrections@.len() ==> {
                        &&& (#[trigger] self.corrections@[j]).epoch == epoch_index
                        &&& self.corrections@[j].iteration < i
                    },
                forall|j1: int, j2: int|
                    old_len <= j1 < j2 < self.corrections@.len() ==> {
                        &&& (#[trigger] self.corrections@[j1]).iteration < (
                        #[trigger] self.corrections@[j2]).iteration
                        &&& self.corrections@[j1].objective < self.corrections@[j2].objective
                    },
                self.corrections@.len() > old_len ==> self.corrections@.last().objective
                    == self.state.aa4,
                self.corrections@.len() == old_len ==> self.state == old_state,
                epoch_spec(
                    state_model(&old_state),
                    old_log,
                    models(candidates),
                    self.depth as nat,
                    self.quantity as nat,
                    models(perturbations),
                    epoch_index,
                    i as nat,
                ) == Some((state_model(&self.state), self.corrections@)),
            decreases candidates@.len() - i,
        {
            let ghost cs = models(candidates);
            let ghost ps = models(perturbations);
            let ghost d = self.depth as nat;
            let ghost q = self.quantity as nat;
            let ghost next = epoch_spec(
                state_model(&old_state),
                old_log,
                cs,
                d,
                q,
                ps,
                epoch_index,
                (i + 1) as nat,
            );
            assert(cs[i as int] == model(&candidates@[i as int]));
            assert(next == epoch_step(
                state_model(&self.state),
                self.corrections@,
                cs[i as int],
                d,
                q,
                ps,
                epoch_index,
                i,
            ));
            let candidate = &candidates[i];
            let accepted = match self.state.accepts(candidate) {
                Ok(b) => b,
                Err(e) => {
                    proof {
                        lemma_epoch_none(
                            state_model(&old_state),
                            old_log,
                            cs,
                            d,
                            q,
                            ps,
                            epoch_index,
                            (i + 1) as nat,
                            candidates@.len() as nat,
                        );
                    }
                    return Err(BackendError::Matrix(e));
                },
            };
            if accepted {
                let optimized = match optimize_d_fs(
                    candidate,
                    &self.state.visibility,
                    self.depth,
                    self.quantity,
                    perturbations,
                ) {
                    Ok(m) => m,
                    Err(e) => {
                        proof {
                            lemma_epoch_none(
                                state_model(&old_state),
                                old_log,
                                cs,
                                d,
                                q,
                                ps,
                                epoch_index,
                                (i + 1) as nat,
                                candidates@.len() as nat,
                            );
                        }
                        return Err(BackendError::Matrix(e));
                    },
                };
                let ghost before = self.corrections@;
                let ghost prev_aa4 = self.state.aa4;
                match self.state.commit(&optimized, epoch_index, i, &mut self.corrections) {
                    Ok(true) => {
                        proof {
                            let vis = model(&self.state.visibility);
                            let opt = model(&optimized);
                            lemma_inner_product_symmetric(vis, opt);
                            assert(self.corrections@.subrange(0, old_len as int) =~= old_log) by {
                                assert(before.subrange(0, old_len as int) == old_log);
                            }
                            assert forall|j: int|
                                old_len <= j < self.corrections@.len() implies {
                                &&& (#[trigger] self.corrections@[j]).epoch == epoch_index
                                &&& self.corrections@[j].iteration < i + 1
                            } by {
                                if j < before.len() {
                                    assert(self.corrections@[j] == before[j]);
                                }
                            }
                            assert forall|j1: int, j2: int|
                                old_len <= j1 < j2 < self.corrections@.len() implies {
                                &&& (#[trigger] self.corrections@[j1]).iteration < (
                                #[trigger] self.corrections@[j2]).iteration
                                &&& self.corrections@[j1].objective
                                    < self.corrections@[j2].objective
                            } by {
                                assert(self.corrections@[j1] == before[j1]);
                                if j2 < before.len() {
                                    assert(self.corrections@[j2] == before[j2]);
                                } else {
                                    if j1 < before.len() - 1 {
                                        assert(before[j1].objective < before.last().objective);
                                    }
                                }
                            }
                        }
                    },
                    Ok(false) => {},
                    Err(e) => {
                        proof {
                            lemma_epoch_none(
                                state_model(&old_state),
                                old_log,
                                cs,
                                d,
                                q,
                                ps,
                                epoch_index,
                                (i + 1) as nat,
                                candidates@.len() as nat,
                            );
                        }
                        return Err(BackendError::Matrix(e));
                    },
                }
            }
            i += 1;
        }
        Ok(())
    }
}

} // verus!

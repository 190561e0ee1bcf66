use cssfinder_backend_rust::backend::RustBackend;
use cssfinder_backend_rust::complex::Cx;
use cssfinder_backend_rust::matrix::{identity, project, MatrixError};
use cssfinder_backend_rust::optimize::optimize_d_fs;
use cssfinder_backend_rust::state::{AlgoMode, BackendError, Correction, SearchState};
use cssfinder_backend_rust::tensor::product_vector;

fn cx(re: i32, im: i32) -> Cx {
    Cx { re, im }
}

fn diag2(a: i32, b: i32) -> Vec<Vec<Cx>> {
    vec![vec![cx(a, 0), cx(0, 0)], vec![cx(0, 0), cx(b, 0)]]
}

fn swap2() -> Vec<Vec<Cx>> {
    vec![vec![cx(0, 0), cx(1, 0)], vec![cx(1, 0), cx(0, 0)]]
}

#[test]
fn optimize_without_rounds_returns_start() {
    let start = diag2(1, 0);
    assert_eq!(optimize_d_fs(&start, &diag2(0, 1), 2, 1, &Vec::new()), Ok(start.clone()));
}

#[test]
fn optimize_rides_then_returns_last_trial() {
    // score 0; the swap raises it to 1, riding once more drops it back to 0,
    // so the ride stops and that last trial is returned
    let r = optimize_d_fs(&diag2(1, 0), &diag2(0, 1), 2, 1, &vec![swap2()]);
    assert_eq!(r, Ok(diag2(1, 0)));
    // a second round starts from the accepted score 1: the trial ties and is kept
    let r = optimize_d_fs(&diag2(1, 0), &diag2(0, 1), 2, 1, &vec![swap2(), swap2()]);
    assert_eq!(r, Ok(diag2(0, 1)));
}

#[test]
fn optimize_flips_a_worse_rotation() {
    // u = [[0, i], [1, 0]]; the first trial scores 0 < 1, so u† is used instead
    let u = vec![vec![cx(0, 0), cx(0, 1)], vec![cx(1, 0), cx(0, 0)]];
    let r = optimize_d_fs(&diag2(0, 1), &diag2(0, 1), 2, 1, &vec![u]);
    assert_eq!(r, Ok(diag2(1, 0)));
}

#[test]
fn optimize_acts_on_the_round_robin_subsystem() {
    // two qubits; round 0 swaps subsystem 0, round 1 swaps subsystem 1
    let mut start = vec![vec![cx(0, 0); 4]; 4];
    start[0][0] = cx(1, 0);
    let mut target = vec![vec![cx(0, 0); 4]; 4];
    target[3][3] = cx(1, 0);
    let r = optimize_d_fs(&start, &target, 2, 2, &vec![swap2(), swap2()]).unwrap();
    // round 0: |00> -> |10>, score stays 0; round 1 from the start: |00> -> |01>
    let mut expect = vec![vec![cx(0, 0); 4]; 4];
    expect[1][1] = cx(1, 0);
    assert_eq!(r, expect);
}

#[test]
fn optimize_errors() {
    assert_eq!(
        optimize_d_fs(&diag2(1, 0), &identity(3), 2, 1, &Vec::new()),
        Err(MatrixError::DimensionMismatch)
    );
    assert_eq!(
        optimize_d_fs(&diag2(1, 0), &diag2(0, 1), 2, 0, &Vec::new()),
        Err(MatrixError::DimensionMismatch)
    );
    assert_eq!(
        optimize_d_fs(&diag2(1, 0), &diag2(0, 1), 2, 1, &vec![identity(3)]),
        Err(MatrixError::DimensionMismatch)
    );
    assert_eq!(
        optimize_d_fs(&diag2(1, 0), &diag2(0, 1), 2, 2, &Vec::new()),
        Err(MatrixError::DimensionMismatch)
    );
    assert_eq!(
        optimize_d_fs(&diag2(1, 0), &diag2(1, 0), 2, 1, &vec![diag2(50_000, 50_000)]),
        Err(MatrixError::Overflow)
    );
}

fn plus_target() -> Vec<Vec<Cx>> {
    vec![vec![cx(1, 0), cx(1, 0)], vec![cx(1, 0), cx(1, 0)]]
}

#[test]
fn accepts_and_commit() {
    let mut s = SearchState::new(&plus_target(), AlgoMode::FSnQd).unwrap();
    assert_eq!((s.aa4, s.aa6, s.dd1), (2, 2, 2));
    let weak = project(&vec![cx(1, 0), cx(1, 0)]).unwrap();
    let strong = project(&vec![cx(2, 0), cx(2, 0)]).unwrap();
    assert_eq!(s.accepts(&weak), Ok(false));
    assert_eq!(s.accepts(&strong), Ok(true));
    assert_eq!(s.accepts(&identity(3)), Err(MatrixError::DimensionMismatch));

    let mut log = Vec::new();
    assert_eq!(s.commit(&diag2(1, 0), 0, 0, &mut log), Ok(false));
    assert!(log.is_empty());
    assert_eq!(s.commit(&strong, 3, 7, &mut log), Ok(true));
    assert_eq!(log, vec![Correction { epoch: 3, iteration: 7, objective: 16 }]);
    assert_eq!(s.intermediate, strong);
    assert_eq!((s.aa4, s.aa6, s.dd1), (16, 64, 16));
    assert_eq!(s.commit(&identity(3), 0, 0, &mut log), Err(MatrixError::DimensionMismatch));
}

#[test]
fn run_epoch_commits_improving_candidates() {
    let mut b = RustBackend::new(&plus_target(), 2, 1, AlgoMode::FSnQd).unwrap();
    let candidates = vec![
        project(&vec![cx(1, 0), cx(0, 0)]).unwrap(),
        project(&vec![cx(2, 0), cx(2, 0)]).unwrap(),
        project(&vec![cx(1, 0), cx(1, 0)]).unwrap(),
        project(&vec![cx(3, 0), cx(3, 0)]).unwrap(),
    ];
    assert_eq!(b.run_epoch(&candidates, &Vec::new(), 5), Ok(()));
    assert_eq!(
        b.get_corrections(),
        &vec![
            Correction { epoch: 5, iteration: 1, objective: 16 },
            Correction { epoch: 5, iteration: 3, objective: 36 },
        ]
    );
    assert_eq!(b.get_corrections_count(), 2);
    assert_eq!(b.get_state(), &candidates[3]);
}

fn unit_product_states(depth: usize, quantity: usize, count: usize) -> Vec<Vec<Vec<Cx>>> {
    let units = [cx(1, 0), cx(0, 1), cx(-1, 0), cx(0, -1)];
    (0..count)
        .map(|t| {
            let rows: Vec<Vec<Cx>> = (0..quantity)
                .map(|k| {
                    let mut row = vec![cx(0, 0); depth];
                    row[(t + k) % depth] = units[(t / depth + k) % 4];
                    row
                })
                .collect();
            project(&product_vector(&rows).unwrap()).unwrap()
        })
        .collect()
}

#[test]
fn diagonal_target_keeps_its_certificate() {
    let target = diag2(1, 0);
    let mut b = RustBackend::new(&target, 2, 1, AlgoMode::FSnQd).unwrap();
    assert_eq!(b.get_state(), &target);
    let perts = vec![swap2(), identity(2)];
    for epoch in 0..3 {
        assert_eq!(b.run_epoch(&unit_product_states(2, 1, 20), &perts, epoch), Ok(()));
    }
    assert_eq!(b.get_corrections_count(), 0);
    assert_eq!(b.get_state(), &target);
}

#[test]
fn identity_target_epoch_of_hundred_ends() {
    let mut b = RustBackend::new(&identity(4), 2, 2, AlgoMode::FSnQd).unwrap();
    let perts = vec![swap2(), identity(2), swap2()];
    assert_eq!(b.run_epoch(&unit_product_states(2, 2, 100), &perts, 0), Ok(()));
    let log = b.get_corrections();
    for w in log.windows(2) {
        assert!(w[0].objective < w[1].objective);
    }
}

#[test]
fn backend_refuses_other_modes_and_shapes() {
    for mode in [AlgoMode::SBiPa, AlgoMode::G3PaE3qD, AlgoMode::G4PaE3qD] {
        assert!(matches!(
            RustBackend::new(&identity(2), 2, 1, mode),
            Err(BackendError::UnsupportedMode)
        ));
    }
    let mut b = RustBackend::new(&identity(2), 2, 1, AlgoMode::FSnQd).unwrap();
    assert_eq!(
        b.run_epoch(&vec![identity(3)], &Vec::new(), 0),
        Err(BackendError::Matrix(MatrixError::DimensionMismatch))
    );
    b.set_symmetries(vec![vec![identity(2)]]);
    assert_eq!(b.symmetries, Some(vec![vec![identity(2)]]));
}

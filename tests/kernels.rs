use cssfinder_backend_rust::bench::measure;
use cssfinder_backend_rust::complex::Cx;
use cssfinder_backend_rust::matrix::{
    conj_transpose, identity, product, kronecker, multiply, project, rotate, MatrixError,
};
use cssfinder_backend_rust::state::{check_mode, AlgoMode, BackendError, SearchState};
use cssfinder_backend_rust::tensor::{checked_power, expand_d_fs, product_vector};

fn c(re: i32, im: i32) -> Cx {
    Cx { re, im }
}

fn real_matrix(rows: &[&[i32]]) -> Vec<Vec<Cx>> {
    rows.iter().map(|r| r.iter().map(|&x| c(x, 0)).collect()).collect()
}

#[test]
fn identity_inner_product_is_order() {
    for n in [1usize, 2, 4, 8] {
        let id = identity(n);
        assert_eq!(product(&id, &id), Ok(n as i128));
    }
}

#[test]
fn inner_product_is_real_part_of_trace() {
    // a = [[1+i, 2], [0, 3i]], b = [[1, i], [2, 1]]
    let a = vec![vec![c(1, 1), c(2, 0)], vec![c(0, 0), c(0, 3)]];
    let b = vec![vec![c(1, 0), c(0, 1)], vec![c(2, 0), c(1, 0)]];
    // a*b diagonal: (1+i)*1 + 2*2 = 5+i ; 0*i + 3i*1 = 3i ; real trace 5
    assert_eq!(product(&a, &b), Ok(5));
}

#[test]
fn inner_product_refuses_mismatched_orders() {
    let a = identity(2);
    let b = identity(3);
    assert_eq!(product(&a, &b), Err(MatrixError::DimensionMismatch));
    let ragged = vec![vec![c(1, 0), c(0, 0)], vec![c(1, 0)]];
    assert_eq!(product(&ragged, &ragged), Err(MatrixError::DimensionMismatch));
}

#[test]
fn kronecker_of_identities_is_identity() {
    for p in 0usize..4 {
        for q in 0usize..4 {
            assert_eq!(kronecker(&identity(p), &identity(q)), Ok(identity(p * q)));
        }
    }
}

#[test]
fn kronecker_index_law() {
    let a = real_matrix(&[&[1, 2], &[3, 4]]);
    let b = vec![vec![c(0, 1), c(5, 0)], vec![c(6, 0), c(7, -1)]];
    let k = kronecker(&a, &b).unwrap();
    assert_eq!(k.len(), 4);
    for i1 in 0..2 {
        for j1 in 0..2 {
            for i2 in 0..2 {
                for j2 in 0..2 {
                    let x = a[i1][j1];
                    let y = b[i2][j2];
                    let expect = c(x.re * y.re - x.im * y.im, x.re * y.im + x.im * y.re);
                    assert_eq!(k[i1 * 2 + i2][j1 * 2 + j2], expect);
                }
            }
        }
    }
    assert_eq!(k[0][1], c(5, 0));
}

#[test]
fn kronecker_is_associative() {
    let a = vec![vec![c(1, 2), c(-1, 0)], vec![c(0, 3), c(2, -2)]];
    let b = vec![vec![c(0, 1)]];
    let b2 = vec![vec![c(3, 0), c(1, 1)], vec![c(-2, 1), c(0, -1)]];
    let d = vec![vec![c(1, 0), c(2, 0), c(0, 0)], vec![c(0, 1), c(1, 1), c(4, 0)], vec![c(0, 0), c(-1, 0), c(2, 3)]];
    for m in [&b, &b2] {
        let left = kronecker(&kronecker(&a, m).unwrap(), &d).unwrap();
        let right = kronecker(&a, &kronecker(m, &d).unwrap()).unwrap();
        assert_eq!(left, right);
    }
}

#[test]
fn kronecker_errors() {
    let ragged = vec![vec![c(1, 0), c(0, 0)]];
    assert_eq!(kronecker(&ragged, &identity(2)), Err(MatrixError::DimensionMismatch));
    let big = vec![vec![c(i32::MAX, 0)]];
    assert_eq!(kronecker(&big, &big), Err(MatrixError::Overflow));
}

#[test]
fn project_trace_is_squared_norm() {
    let v = vec![c(1, 2), c(-3, 0), c(0, 4)];
    let p = project(&v).unwrap();
    // |1+2i|^2 + 9 + 16 = 30
    assert_eq!(product(&p, &identity(3)), Ok(30));
    // entry (0, 1) = (1+2i) * conj(-3) = -3-6i
    assert_eq!(p[0][1], c(-3, -6));
    // entry (1, 0) = -3 * conj(1+2i) = -3+6i
    assert_eq!(p[1][0], c(-3, 6));
}

#[test]
fn project_overflow() {
    let v = vec![c(100_000, 0), c(1, 0)];
    assert_eq!(project(&v), Err(MatrixError::Overflow));
}

#[test]
fn conj_transpose_values() {
    let u = vec![vec![c(1, 2), c(3, 4)], vec![c(5, 6), c(7, 8)]];
    let t = conj_transpose(&u).unwrap();
    assert_eq!(t, vec![vec![c(1, -2), c(5, -6)], vec![c(3, -4), c(7, -8)]]);
    let bad = vec![vec![c(0, i32::MIN)]];
    assert_eq!(conj_transpose(&bad), Err(MatrixError::Overflow));
}

#[test]
fn multiply_values() {
    let a = vec![vec![c(1, 1), c(0, 0)], vec![c(2, 0), c(0, 1)]];
    let b = vec![vec![c(0, 1), c(1, 0)], vec![c(1, 0), c(1, 1)]];
    let p = multiply(&a, &b).unwrap();
    // row 0: (1+i)*i = -1+i ; (1+i)*1 = 1+i
    // row 1: 2*i + i*1 = 3i ; 2*1 + i*(1+i) = 1+i
    assert_eq!(p, vec![vec![c(-1, 1), c(1, 1)], vec![c(0, 3), c(1, 1)]]);
    assert_eq!(multiply(&a, &identity(3)), Err(MatrixError::DimensionMismatch));
}

#[test]
fn rotate_by_unitary_keeps_trace() {
    // u = [[0, i], [1, 0]] is unitary
    let u = vec![vec![c(0, 0), c(0, 1)], vec![c(1, 0), c(0, 0)]];
    let m = vec![vec![c(2, 0), c(1, -1)], vec![c(1, 1), c(5, 0)]];
    let r = rotate(&m, &u).unwrap();
    assert_eq!(product(&r, &identity(2)), product(&m, &identity(2)));
    // by hand: u m u† = [[5, -1+i], [-1-i, 2]]
    assert_eq!(r[0][0], c(5, 0));
    assert_eq!(r[1][1], c(2, 0));
    assert_eq!(r[0][1], c(-1, 1));
    assert_eq!(r[1][0], c(-1, -1));
    assert_eq!(rotate(&m, &identity(3)), Err(MatrixError::DimensionMismatch));
}

#[test]
fn expand_single_subsystem_is_identity_map() {
    for d in 1usize..4 {
        let mut op = Vec::new();
        for i in 0..d {
            let mut row = Vec::new();
            for j in 0..d {
                row.push(c((i * 3 + j) as i32, i as i32 - j as i32));
            }
            op.push(row);
        }
        assert_eq!(expand_d_fs(&op, d, 1, 0), Ok(op.clone()));
    }
}

#[test]
fn expand_embeds_between_identities() {
    let op = vec![vec![c(1, 0), c(2, 0)], vec![c(3, 0), c(4, 0)]];
    let e = expand_d_fs(&op, 2, 3, 1).unwrap();
    let expect = kronecker(&kronecker(&identity(2), &op).unwrap(), &identity(2)).unwrap();
    assert_eq!(e.len(), 8);
    assert_eq!(e, expect);
    assert_eq!(e[2][6], c(0, 0));
    assert_eq!(e[0][2], c(2, 0));
}

#[test]
fn expand_errors() {
    let op = identity(2);
    assert_eq!(expand_d_fs(&op, 2, 2, 2), Err(MatrixError::DimensionMismatch));
    assert_eq!(expand_d_fs(&op, 3, 2, 0), Err(MatrixError::DimensionMismatch));
    assert_eq!(expand_d_fs(&op, 2, 200, 0), Err(MatrixError::Overflow));
}

#[test]
fn power_checks() {
    assert_eq!(checked_power(2, 10), Some(1024));
    assert_eq!(checked_power(0, 0), Some(1));
    assert_eq!(checked_power(2, 200), None);
}

#[test]
fn search_state_of_diagonal_target() {
    let target = real_matrix(&[&[1, 0], &[0, 0]]);
    let s = SearchState::new(&target, AlgoMode::FSnQd).unwrap();
    assert_eq!(s.visibility, target);
    assert_eq!(s.intermediate, target);
    assert_eq!(s.visibility_reduced, real_matrix(&[&[0, 0], &[0, 0]]));
    assert_eq!((s.aa4, s.aa6, s.dd1), (1, 1, 1));
}

#[test]
fn search_state_splits_off_diagonal() {
    let target = vec![vec![c(3, 0), c(1, -2)], vec![c(1, 2), c(1, 0)]];
    let s = SearchState::new(&target, AlgoMode::FSnQd).unwrap();
    assert_eq!(s.intermediate, real_matrix(&[&[3, 0], &[0, 1]]));
    assert_eq!(s.visibility_reduced, vec![vec![c(0, 0), c(1, -2)], vec![c(1, 2), c(0, 0)]]);
    assert_eq!((s.aa4, s.aa6, s.dd1), (10, 10, 10));
}

#[test]
fn search_state_errors() {
    let target = identity(2);
    for mode in [AlgoMode::SBiPa, AlgoMode::G3PaE3qD, AlgoMode::G4PaE3qD] {
        assert!(matches!(SearchState::new(&target, mode), Err(BackendError::UnsupportedMode)));
        assert_eq!(check_mode(mode), Err(BackendError::UnsupportedMode));
    }
    assert_eq!(check_mode(AlgoMode::FSnQd), Ok(()));
    let ragged = vec![vec![c(1, 0)], vec![c(0, 0)]];
    assert!(matches!(
        SearchState::new(&ragged, AlgoMode::FSnQd),
        Err(BackendError::Matrix(MatrixError::DimensionMismatch))
    ));
}

#[test]
fn measure_runs_operation() {
    let d = measure(3, || {
        let _ = identity(4);
    });
    assert!(d.as_secs() < 20);
}

#[test]
fn product_vector_is_ordered_tensor_product() {
    let rows = vec![vec![c(1, 0), c(2, 0)], vec![c(0, 1), c(3, 0), c(1, 1)]];
    let v = product_vector(&rows).unwrap();
    // entry t is rows[0][t / 3] * rows[1][t % 3]
    assert_eq!(v, vec![c(0, 1), c(3, 0), c(1, 1), c(0, 2), c(6, 0), c(2, 2)]);
    assert_eq!(product_vector(&Vec::new()), Ok(vec![c(1, 0)]));
    let big = vec![vec![c(70_000, 0)], vec![c(70_000, 0)]];
    assert_eq!(product_vector(&big), Err(MatrixError::Overflow));
}

#[test]
fn product_states_are_hermitian_with_unit_trace() {
    let units = [c(1, 0), c(0, 1), c(-1, 0), c(0, -1)];
    for depth in [2usize, 3] {
        for quantity in [1usize, 2, 3] {
            for trial in 0..100usize {
                let rows: Vec<Vec<Cx>> = (0..quantity)
                    .map(|k| {
                        let mut row = vec![c(0, 0); depth];
                        row[(trial + k) % depth] = units[(trial / depth + k) % 4];
                        row
                    })
                    .collect();
                let state = project(&product_vector(&rows).unwrap()).unwrap();
                let order = depth.pow(quantity as u32);
                assert_eq!(state.len(), order);
                assert_eq!(conj_transpose(&state), Ok(state.clone()));
                assert_eq!(product(&state, &identity(order)), Ok(1));
            }
        }
    }
}

#[test]
fn product_state_trace_is_product_of_norms() {
    // |1+i|^2 = 2 and |2|^2 + |i|^2 = 5
    let rows = vec![vec![c(1, 1), c(0, 0)], vec![c(2, 0), c(0, 1)]];
    let state = project(&product_vector(&rows).unwrap()).unwrap();
    assert_eq!(product(&state, &identity(4)), Ok(10));
}

use linalg::matrix::{all_near, MatError, Matrix};
use linalg::rat::Rat;
use linalg::solve::{backward_substitution, forward_substitution, linsolve, lu_decomposition};

fn mk(rows: Vec<Vec<i64>>) -> Matrix {
    Matrix::from_int_rows(rows).unwrap()
}

fn sample_mat() -> Matrix {
    mk(vec![
        vec![2, 1, -1, 2],
        vec![4, 3, -1, 4],
        vec![4, 1, -2, 3],
        vec![6, 3, 1, 7],
    ])
}

fn sample_b() -> Matrix {
    mk(vec![vec![1], vec![2], vec![3], vec![4]])
}

#[test]
fn main_test_lu_decomposition() {
    let mat = sample_mat();
    let (l, u) = lu_decomposition(&mat).unwrap();
    let check_lu = l.mul(&u).unwrap();
    assert!(check_lu.eq_exact(&mat));
}

#[test]
fn main_test_forward_substitution() {
    let mat = sample_mat();
    let b = sample_b();
    let (l, _) = lu_decomposition(&mat).unwrap();
    let y = forward_substitution(&l, &b).unwrap();
    let check_forward = l.mul(&y).unwrap();
    assert!(check_forward.eq_exact(&b));
}

#[test]
fn main_test_min_max() {
    let mat = sample_mat();
    let min = mat.min().unwrap();
    assert!(min.eq_val(&Rat::from_int(-2)));
    let max = mat.max().unwrap();
    assert!(max.eq_val(&Rat::from_int(7)));
}

#[test]
fn tests_test_lu_decomposition() {
    let mat = sample_mat();
    let (l, u) = lu_decomposition(&mat).unwrap();
    let check_lu = l.mul(&u).unwrap();
    assert!(check_lu.eq_exact(&mat));
}

#[test]
fn tests_test_forward_substitution() {
    let mat = sample_mat();
    let b = sample_b();
    let (l, _) = lu_decomposition(&mat).unwrap();
    let y = forward_substitution(&l, &b).unwrap();
    let check_forward = l.mul(&y).unwrap();
    assert!(all_near(&check_forward, &b).unwrap());
}

#[test]
fn test_backward_substitution() {
    let mat = sample_mat();
    let b = sample_b();
    let (l, u) = lu_decomposition(&mat).unwrap();
    let y = forward_substitution(&l, &b).unwrap();
    let x = backward_substitution(&u, &y).unwrap();
    let check_backward = u.mul(&x).unwrap();
    assert!(all_near(&check_backward, &y).unwrap());
}

#[test]
fn test_linsolve() {
    let mat = sample_mat();
    let b = sample_b();
    let x = linsolve(&mat, &b).unwrap();
    let check_solution = mat.mul(&x).unwrap();
    assert!(all_near(&check_solution, &b).unwrap());
}

#[test]
fn tests_test_min_max() {
    let mat = sample_mat();
    let min = mat.min().unwrap();
    assert!(min.eq_val(&Rat::from_int(-2)));
    let max = mat.max().unwrap();
    assert!(max.eq_val(&Rat::from_int(7)));
}

#[test]
fn test_transpose() {
    let mat = sample_mat();
    let expected = mk(vec![
        vec![2, 4, 4, 6],
        vec![1, 3, 1, 3],
        vec![-1, -1, -2, 1],
        vec![2, 4, 3, 7],
    ]);
    let transposed = mat.transpose();
    assert!(transposed.eq_exact(&expected));
}

#[test]
fn test_transpose_involution() {
    let mat = sample_mat();
    let back = mat.transpose().transpose();
    assert!(back.eq_exact(&mat));
}

#[test]
fn test_singular_zero_pivot() {
    let mat = mk(vec![vec![0, 1], vec![1, 0]]);
    assert_eq!(lu_decomposition(&mat).unwrap_err(), MatError::SingularMatrix);
}

#[test]
fn test_linsolve_singular() {
    let mat = mk(vec![vec![0, 1], vec![1, 0]]);
    let b = mk(vec![vec![1], vec![2]]);
    assert_eq!(linsolve(&mat, &b).unwrap_err(), MatError::SingularMatrix);
}

#[test]
fn test_shape_mismatch_add() {
    let a = mk(vec![vec![1, 2], vec![3, 4]]);
    let b = mk(vec![vec![1, 2, 3], vec![4, 5, 6]]);
    assert_eq!(a.add(&b).unwrap_err(), MatError::ShapeMismatch);
    assert_eq!(a.sub(&b).unwrap_err(), MatError::ShapeMismatch);
}

#[test]
fn test_shape_mismatch_mul() {
    let a = mk(vec![vec![1, 2], vec![3, 4]]);
    let b = mk(vec![vec![1, 2], vec![3, 4], vec![5, 6]]);
    assert_eq!(a.mul(&b).unwrap_err(), MatError::ShapeMismatch);
}

#[test]
fn test_shape_mismatch_lu() {
    let a = mk(vec![vec![1, 2, 3], vec![4, 5, 6]]);
    assert_eq!(lu_decomposition(&a).unwrap_err(), MatError::ShapeMismatch);
}

#[test]
fn test_invalid_shape_min_max() {
    let empty = mk(Vec::new());
    assert_eq!(empty.min().unwrap_err(), MatError::InvalidShape);
    assert_eq!(empty.max().unwrap_err(), MatError::InvalidShape);
}

#[test]
fn test_add_sub_values() {
    let a = mk(vec![vec![1, 2], vec![3, 4]]);
    let b = mk(vec![vec![5, 6], vec![7, 8]]);
    let sum = a.add(&b).unwrap();
    assert!(sum.eq_exact(&mk(vec![vec![6, 8], vec![10, 12]])));
    let diff = a.sub(&b).unwrap();
    assert!(diff.eq_exact(&mk(vec![vec![-4, -4], vec![-4, -4]])));
}

#[test]
fn test_mul_values() {
    let a = mk(vec![vec![1, 2], vec![3, 4]]);
    let b = mk(vec![vec![5, 6], vec![7, 8]]);
    let prod = a.mul(&b).unwrap();
    assert!(prod.eq_exact(&mk(vec![vec![19, 22], vec![43, 50]])));
}

#[test]
fn test_rat_arithmetic() {
    let third = Rat::new(1, 3).unwrap();
    let sixth = Rat::new(1, 6).unwrap();
    let half = Rat::new(1, 2).unwrap();
    assert!(third.add(&sixth).unwrap().eq_val(&half));
    assert!(half.sub(&third).unwrap().eq_val(&sixth));
    assert!(half.mul(&third).unwrap().eq_val(&Rat::new(1, 6).unwrap()));
    assert!(half.div(&third).unwrap().eq_val(&Rat::new(3, 2).unwrap()));
    assert!(Rat::new(-2, -4).unwrap().eq_val(&half));
}

#[test]
fn test_rat_zero_denominator() {
    assert!(Rat::new(1, 0).is_none());
}

#[test]
fn test_overflow_reported() {
    let big = mk(vec![vec![i64::MAX - 1]]);
    assert_eq!(big.add(&big).unwrap_err(), MatError::Overflow);
}

#[test]
fn test_lu_triangularity() {
    let mat = sample_mat();
    let (l, u) = lu_decomposition(&mat).unwrap();
    for i in 0..4 {
        assert!(l.get(i, i).eq_val(&Rat::from_int(1)));
        for j in 0..4 {
            if j > i {
                assert!(l.get(i, j).is_zero());
            }
            if j < i {
                assert!(u.get(i, j).is_zero());
            }
        }
    }
}

#[test]
fn test_solve_exact() {
    let mat = sample_mat();
    let b = sample_b();
    let x = linsolve(&mat, &b).unwrap();
    let check = mat.mul(&x).unwrap();
    assert!(check.eq_exact(&b));
}

#[test]
fn test_all_near() {
    let a = mk(vec![vec![1, 2], vec![3, 4]]);
    let b = mk(vec![vec![1, 2], vec![3, 4]]);
    assert!(all_near(&a, &b).unwrap());
    let c = mk(vec![vec![1, 2], vec![3, 5]]);
    assert!(!all_near(&a, &c).unwrap());
    let d = mk(vec![vec![1, 2, 3], vec![4, 5, 6]]);
    assert_eq!(all_near(&a, &d).unwrap_err(), MatError::ShapeMismatch);
}

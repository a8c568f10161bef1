use raytracer::{MatrixError, SquareMatrix, check_bounds, cofactor_sign};

fn eq_with_eps(a: f64, b: f64) -> bool {
    (a - b).abs() < 0.00001
}

fn matrix(order: usize, cells: Vec<f64>) -> SquareMatrix<f64> {
    SquareMatrix::from_cells(order, cells).unwrap()
}

#[test]
fn constructing_4_matrix() {
    let m = SquareMatrix::filled(4, 0.0f64);
    assert!(eq_with_eps(0.0, m.get(0, 0).unwrap()));
    assert!(eq_with_eps(0.0, m.get(0, 3).unwrap()));
    assert!(eq_with_eps(0.0, m.get(1, 0).unwrap()));
    assert!(eq_with_eps(0.0, m.get(1, 2).unwrap()));
    assert!(eq_with_eps(0.0, m.get(3, 1).unwrap()));
    assert!(eq_with_eps(0.0, m.get(3, 3).unwrap()));

    assert!(m.get(4, 4).is_err());
    assert!(m.get(0, 4).is_err());
    assert!(m.get(4, 0).is_err());
}

#[test]
fn constructing_with_values_4_matrix() {
    let m = matrix(
        4,
        vec![1.0, 2.0, 3.0, 4.0, 5.5, 6.5, 7.5, 8.5, 9.0, 10.0, 11.0, 12.0, 13.5, 14.5, 15.5, 16.5],
    );
    assert!(eq_with_eps(1.0, m.get(0, 0).unwrap()));
    assert!(eq_with_eps(4.0, m.get(0, 3).unwrap()));
    assert!(eq_with_eps(5.5, m.get(1, 0).unwrap()));
    assert!(eq_with_eps(7.5, m.get(1, 2).unwrap()));
    assert!(eq_with_eps(11.0, m.get(2, 2).unwrap()));
    assert!(eq_with_eps(13.5, m.get(3, 0).unwrap()));
    assert!(eq_with_eps(15.5, m.get(3, 2).unwrap()));
}

#[test]
fn constructing_3_matrix() {
    let m = SquareMatrix::filled(3, 0.0f64);
    assert!(eq_with_eps(0.0, m.get(0, 0).unwrap()));
    assert!(eq_with_eps(0.0, m.get(0, 2).unwrap()));
    assert!(eq_with_eps(0.0, m.get(1, 0).unwrap()));
    assert!(eq_with_eps(0.0, m.get(1, 2).unwrap()));
    assert!(eq_with_eps(0.0, m.get(2, 1).unwrap()));
    assert!(eq_with_eps(0.0, m.get(2, 2).unwrap()));

    assert!(m.get(3, 3).is_err());
    assert!(m.get(0, 3).is_err());
    assert!(m.get(3, 0).is_err());
}

#[test]
fn constructing_with_values_3_matrix() {
    let m = matrix(3, vec![-3.0, 5.0, 0.0, 1.0, -2.0, -7.0, 0.0, 1.0, 1.0]);
    assert!(eq_with_eps(-3.0, m.get(0, 0).unwrap()));
    assert!(eq_with_eps(-2.0, m.get(1, 1).unwrap()));
    assert!(eq_with_eps(1.0, m.get(2, 2).unwrap()));
}

#[test]
fn constructing_2_matrix() {
    let m = SquareMatrix::filled(2, 0.0f64);
    assert!(eq_with_eps(0.0, m.get(0, 0).unwrap()));
    assert!(eq_with_eps(0.0, m.get(0, 1).unwrap()));
    assert!(eq_with_eps(0.0, m.get(1, 0).unwrap()));
    assert!(eq_with_eps(0.0, m.get(1, 1).unwrap()));

    assert!(m.get(2, 2).is_err());
    assert!(m.get(0, 2).is_err());
    assert!(m.get(2, 0).is_err());
}

#[test]
fn constructing_with_values_2_matrix() {
    let m = matrix(2, vec![-3.0, 5.0, 1.0, -2.0]);
    assert!(eq_with_eps(-3.0, m.get(0, 0).unwrap()));
    assert!(eq_with_eps(5.0, m.get(0, 1).unwrap()));
    assert!(eq_with_eps(1.0, m.get(1, 0).unwrap()));
    assert!(eq_with_eps(-2.0, m.get(1, 1).unwrap()));
}

#[test]
fn transpose_matrix() {
    let a = matrix(
        4,
        vec![0.0, 9.0, 3.0, 0.0, 9.0, 8.0, 0.0, 8.0, 1.0, 8.0, 5.0, 3.0, 0.0, 0.0, 5.0, 8.0],
    );
    assert_eq!(
        vec![0.0, 9.0, 1.0, 0.0, 9.0, 8.0, 8.0, 0.0, 3.0, 0.0, 5.0, 5.0, 0.0, 8.0, 3.0, 8.0],
        a.transpose().to_cells()
    );
}

#[test]
fn transpose_identity_matrix() {
    let a = SquareMatrix::identity(4, 0.0f64, 1.0f64);
    assert_eq!(a.to_cells(), a.transpose().to_cells());
}

#[test]
fn identity_has_ones_on_the_diagonal() {
    let a = SquareMatrix::identity(4, 0.0f64, 1.0f64);
    assert_eq!(
        vec![1.0, 0.0, 0.0, 0.0, 0.0, 1.0, 0.0, 0.0, 0.0, 0.0, 1.0, 0.0, 0.0, 0.0, 0.0, 1.0],
        a.to_cells()
    );
}

#[test]
fn submatrix_of_3x3_is_2x2() {
    let a = matrix(3, vec![1.0, 5.0, 0.0, -3.0, 2.0, 7.0, 0.0, 6.0, -3.0]);
    let sub_a = a.submatrix(0, 2).unwrap();
    assert_eq!(2, sub_a.order());
    assert_eq!(vec![-3.0, 2.0, 0.0, 6.0], sub_a.to_cells());
}

#[test]
fn submatrix_of_4x4_is_3x3() {
    let a = matrix(
        4,
        vec![-6.0, 1.0, 1.0, 6.0, -8.0, 5.0, 8.0, 6.0, -1.0, 0.0, 8.0, 2.0, -7.0, 1.0, -1.0, 1.0],
    );
    let sub_a = a.submatrix(2, 1).unwrap();
    assert_eq!(3, sub_a.order());
    assert_eq!(vec![-6.0, 1.0, 6.0, -8.0, 8.0, 6.0, -7.0, -1.0, 1.0], sub_a.to_cells());
}

#[test]
fn submatrix_of_2x2_is_refused() {
    let a = matrix(2, vec![1.0, 5.0, -3.0, 2.0]);
    assert_eq!(Some(MatrixError::No2x2Submatrix), a.submatrix(0, 0).err());
    assert_eq!(Some(MatrixError::No2x2Submatrix), a.submatrix(7, 7).err());
}

#[test]
fn submatrix_outside_the_matrix_is_refused() {
    let a = SquareMatrix::filled(4, 1i64);
    assert_eq!(Some(MatrixError::OutOfMatrixBorder), a.submatrix(4, 0).err());
    assert_eq!(Some(MatrixError::OutOfMatrixBorder), a.submatrix(0, 4).err());
}

#[test]
fn set_writes_one_cell() {
    let mut m = SquareMatrix::filled(3, 0i64);
    assert!(m.set(1, 2, 7).is_ok());
    assert_eq!(vec![0, 0, 0, 0, 0, 7, 0, 0, 0], m.to_cells());
    assert_eq!(Ok(7), m.get(1, 2));
}

#[test]
fn set_outside_the_matrix_changes_nothing() {
    let mut m = SquareMatrix::filled(2, 0i64);
    assert_eq!(Err(MatrixError::OutOfMatrixBorder), m.set(2, 0, 7));
    assert_eq!(vec![0, 0, 0, 0], m.to_cells());
}

#[test]
fn from_cells_needs_a_full_square() {
    assert_eq!(
        Some(MatrixError::OutOfMatrixBorder),
        SquareMatrix::from_cells(3, vec![1.0f64; 8]).err()
    );
    assert!(SquareMatrix::from_cells(3, vec![1.0f64; 9]).is_ok());
    assert!(SquareMatrix::<f64>::from_cells(0, vec![]).is_ok());
}

#[test]
fn bounds_are_checked_per_order() {
    assert_eq!(Ok(()), check_bounds(4, 3, 3));
    assert_eq!(Err(MatrixError::OutOfMatrixBorder), check_bounds(4, 4, 0));
    assert_eq!(Err(MatrixError::OutOfMatrixBorder), check_bounds(3, 0, 3));
}

#[test]
fn cofactor_sign_alternates() {
    assert_eq!(1, cofactor_sign(0, 0));
    assert_eq!(-1, cofactor_sign(0, 1));
    assert_eq!(-1, cofactor_sign(1, 0));
    assert_eq!(1, cofactor_sign(1, 1));
    assert_eq!(-1, cofactor_sign(2, 3));
}

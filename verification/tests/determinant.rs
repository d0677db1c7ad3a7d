use matrix_inversion::matrix::{Matrix, NonZeroSquareMatrix};

fn square(rows: Vec<Vec<i64>>) -> NonZeroSquareMatrix<i64> {
    NonZeroSquareMatrix::try_from(Matrix::try_from(rows).unwrap()).unwrap()
}

fn rows(matrix: NonZeroSquareMatrix<i64>) -> Vec<Vec<i64>> {
    Matrix::from(matrix).into()
}

#[test]
fn determinant_of_one_element() {
    assert_eq!(square(vec![vec![5]]).det(), 5);
    assert_eq!(square(vec![vec![-3]]).det(), -3);
    assert_eq!(square(vec![vec![0]]).det(), 0);
}

#[test]
fn determinant_of_order_two() {
    assert_eq!(square(vec![vec![1, 2], vec![3, 4]]).det(), 1 * 4 - 2 * 3);
    assert_eq!(square(vec![vec![3, 8], vec![4, 6]]).det(), -14);
    assert_eq!(square(vec![vec![1, 2], vec![2, 4]]).det(), 0);
    assert_eq!(square(vec![vec![1, 0], vec![0, 1]]).det(), 1);
}

#[test]
fn determinant_of_identity_of_order_three() {
    assert_eq!(square(vec![vec![1, 0, 0], vec![0, 1, 0], vec![0, 0, 1]]).det(), 1);
}

#[test]
fn determinant_of_order_three() {
    assert_eq!(square(vec![vec![1, 2, 3], vec![4, 5, 6], vec![7, 8, 10]]).det(), -3);
    assert_eq!(square(vec![vec![1, 2, 3], vec![4, 5, 6], vec![7, 8, 9]]).det(), 0);
    assert_eq!(square(vec![vec![6, 1, 1], vec![4, -2, 5], vec![2, 8, 7]]).det(), -306);
    assert_eq!(square(vec![vec![0, 2, 0], vec![3, 0, 0], vec![0, 0, 5]]).det(), -30);
}

#[test]
fn determinant_of_order_four() {
    let m = square(vec![
        vec![1, 0, 2, -1],
        vec![3, 0, 0, 5],
        vec![2, 1, 4, -3],
        vec![1, 0, 5, 0],
    ]);
    assert_eq!(m.det(), 30);
    let identity = square(vec![
        vec![1, 0, 0, 0],
        vec![0, 1, 0, 0],
        vec![0, 0, 1, 0],
        vec![0, 0, 0, 1],
    ]);
    assert_eq!(identity.det(), 1);
}

#[test]
fn determinant_of_order_five() {
    let m = square(vec![
        vec![2, 0, 0, 0, 0],
        vec![1, 3, 0, 0, 0],
        vec![4, 5, 1, 0, 0],
        vec![7, 8, 9, -1, 0],
        vec![1, 1, 1, 1, 4],
    ]);
    assert_eq!(m.det(), -24);
}

#[test]
fn determinant_of_unsigned_elements() {
    let m: NonZeroSquareMatrix<u8> =
        NonZeroSquareMatrix::try_from(Matrix::try_from(vec![vec![5, 2], vec![3, 4]]).unwrap())
            .unwrap();
    assert_eq!(m.det(), 14);
}

#[test]
fn exclude_leaves_the_other_rows_and_columns_in_order() {
    let m = square(vec![vec![1, 2, 3], vec![4, 5, 6], vec![7, 8, 9]]);
    assert_eq!(rows(m.exclude(0, 0).unwrap()), vec![vec![5, 6], vec![8, 9]]);
    assert_eq!(rows(m.exclude(0, 1).unwrap()), vec![vec![4, 6], vec![7, 9]]);
    assert_eq!(rows(m.exclude(1, 1).unwrap()), vec![vec![1, 3], vec![7, 9]]);
    assert_eq!(rows(m.exclude(2, 0).unwrap()), vec![vec![2, 3], vec![5, 6]]);
    assert_eq!(rows(m.exclude(2, 2).unwrap()), vec![vec![1, 2], vec![4, 5]]);
    assert_eq!(rows(m.exclude(1, 2).unwrap()), vec![vec![1, 2], vec![7, 8]]);
}

#[test]
fn exclude_of_order_two_leaves_one_element() {
    let m = square(vec![vec![1, 2], vec![3, 4]]);
    assert_eq!(rows(m.exclude(0, 0).unwrap()), vec![vec![4]]);
    assert_eq!(rows(m.exclude(0, 1).unwrap()), vec![vec![3]]);
    assert_eq!(rows(m.exclude(1, 0).unwrap()), vec![vec![2]]);
    assert_eq!(rows(m.exclude(1, 1).unwrap()), vec![vec![1]]);
}

#[test]
fn exclude_of_order_one_is_none() {
    let m = square(vec![vec![1]]);
    assert!(m.exclude(0, 0).is_none());
}

#[test]
fn cofactors_of_order_two() {
    let m = square(vec![vec![1, 2], vec![3, 4]]);
    assert_eq!(rows(m.algebraic_additions().unwrap()), vec![vec![4, -3], vec![-2, 1]]);
}

#[test]
fn cofactors_of_order_three() {
    let m = square(vec![vec![1, 2, 3], vec![0, 4, 5], vec![1, 0, 6]]);
    assert_eq!(
        rows(m.algebraic_additions().unwrap()),
        vec![vec![24, 5, -4], vec![-12, 3, 2], vec![-2, -5, 4]]
    );
}

#[test]
fn cofactors_of_order_one_are_none() {
    let m = square(vec![vec![9]]);
    assert!(m.algebraic_additions().is_none());
}

#[test]
fn transposed_mirrors_at_the_diagonal() {
    let m = square(vec![vec![1, 2, 3], vec![4, 5, 6], vec![7, 8, 9]]);
    assert_eq!(rows(m.transposed()), vec![vec![1, 4, 7], vec![2, 5, 8], vec![3, 6, 9]]);
    let m = square(vec![vec![1, 2], vec![3, 4]]);
    assert_eq!(rows(m.transposed()), vec![vec![1, 3], vec![2, 4]]);
    let m = square(vec![vec![1]]);
    assert_eq!(rows(m.transposed()), vec![vec![1]]);
}

#[test]
fn transposed_twice_is_the_matrix() {
    let vec = vec![
        vec![1, 2, 3, 4],
        vec![5, 6, 7, 8],
        vec![9, 10, 11, 12],
        vec![13, 14, 15, 16],
    ];
    let m = square(vec.clone());
    assert_eq!(rows(m.transposed().transposed()), vec);
}

#[test]
fn division_by_a_scalar_divides_every_element() {
    let m = square(vec![vec![2, 4], vec![6, 8]]);
    assert_eq!(rows(m / 2), vec![vec![1, 2], vec![3, 4]]);
    let m = square(vec![vec![7, -7], vec![1, 0]]);
    assert_eq!(rows(m / 2), vec![vec![3, -3], vec![0, 0]]);
}

use matrix_inversion::error::MatrixError;
use matrix_inversion::matrix::{index, Matrix, NonZeroSquareMatrix};

#[test]
fn vec_convert() {
    let vec = vec![vec![1, 2, 3], vec![4, 5, 6], vec![7, 8, 9]];
    let matrix: Matrix<_> = vec.clone().try_into().unwrap();
    let later: Vec<Vec<_>> = matrix.into();

    assert_eq!(vec, later)
}

#[test]
#[should_panic]
fn vec_convert_fail() {
    let vec = vec![vec![1, 2, 3], vec![4, 5, 6], vec![7, 8, 9, 0]];
    let _: Matrix<_> = vec.try_into().unwrap();
}

#[test]
#[should_panic]
fn to_zero() {
    let matrix: Matrix<i32> = vec![].try_into().unwrap();
    NonZeroSquareMatrix::try_from(matrix).unwrap();
}

#[test]
#[should_panic]
fn to_non_square() {
    let matrix: Matrix<_> = vec![vec![1, 2, 3]].try_into().unwrap();
    NonZeroSquareMatrix::try_from(matrix).unwrap();
}

#[test]
fn to_non_zero_square() {
    let vec = vec![vec![1, 2, 3], vec![4, 5, 6], vec![7, 8, 9]];
    let matrix: Matrix<_> = vec.clone().try_into().unwrap();
    let non_zero_square = NonZeroSquareMatrix::try_from(matrix).unwrap();
    let later = Matrix::from(non_zero_square);
    let later_vec: Vec<Vec<_>> = later.into();

    assert_eq!(vec, later_vec)
}

#[test]
fn ragged_rows_are_a_shape_error() {
    let built = Matrix::try_from(vec![vec![1, 2, 3], vec![4, 5]]);
    assert_eq!(built.unwrap_err(), MatrixError::Shape { expected_cols: 3 });
}

#[test]
fn shape_error_carries_the_length_of_the_first_row() {
    let built = Matrix::try_from(vec![vec![1], vec![2, 3], vec![4, 5, 6]]);
    assert_eq!(built.unwrap_err(), MatrixError::Shape { expected_cols: 1 });
    let built = Matrix::try_from(vec![vec![], vec![2]]);
    assert_eq!(built.unwrap_err(), MatrixError::Shape { expected_cols: 0 });
}

#[test]
fn no_rows_make_an_empty_matrix() {
    let matrix: Matrix<i32> = Matrix::try_from(vec![]).unwrap();
    assert_eq!(matrix.get(0, 0), None);
    let later: Vec<Vec<i32>> = matrix.into();
    assert_eq!(later, Vec::<Vec<i32>>::new());
}

#[test]
fn empty_rows_survive_the_round_trip() {
    let vec: Vec<Vec<u8>> = vec![vec![], vec![]];
    let matrix = Matrix::try_from(vec.clone()).unwrap();
    let later: Vec<Vec<u8>> = matrix.into();
    assert_eq!(vec, later);
}

#[test]
fn wide_matrix_round_trip() {
    let vec = vec![vec![1, 2, 3], vec![4, 5, 6]];
    let matrix = Matrix::try_from(vec.clone()).unwrap();
    let later: Vec<Vec<i32>> = matrix.into();
    assert_eq!(vec, later);
}

#[test]
fn tall_matrix_round_trip() {
    let vec = vec![vec![1u64, 2], vec![3, 4], vec![5, 6], vec![7, 8]];
    let matrix = Matrix::try_from(vec.clone()).unwrap();
    let later: Vec<Vec<u64>> = matrix.into();
    assert_eq!(vec, later);
}

#[test]
fn round_trip_of_strings() {
    let vec = vec![
        vec![String::from("a"), String::from("b")],
        vec![String::from("c"), String::from("d")],
        vec![String::from("e"), String::from("f")],
    ];
    let matrix = Matrix::try_from(vec.clone()).unwrap();
    let later: Vec<Vec<String>> = matrix.into();
    assert_eq!(vec, later);
}

#[test]
fn get_reads_row_major() {
    let matrix = Matrix::try_from(vec![vec![1, 2, 3], vec![4, 5, 6]]).unwrap();
    assert_eq!(matrix.get(0, 0), Some(1));
    assert_eq!(matrix.get(0, 2), Some(3));
    assert_eq!(matrix.get(1, 0), Some(4));
    assert_eq!(matrix.get(1, 1), Some(5));
    assert_eq!(matrix.get(1, 2), Some(6));
}

#[test]
fn get_out_of_range_is_none() {
    let matrix = Matrix::try_from(vec![vec![1, 2, 3], vec![4, 5, 6]]).unwrap();
    assert_eq!(matrix.get(2, 0), None);
    assert_eq!(matrix.get(0, 3), None);
    assert_eq!(matrix.get(1, 3), None);
    assert_eq!(matrix.get(usize::MAX, usize::MAX), None);
}

#[test]
fn one_row_is_not_square() {
    let matrix = Matrix::try_from(vec![vec![1, 2, 3]]).unwrap();
    let admitted = NonZeroSquareMatrix::try_from(matrix);
    assert_eq!(admitted.unwrap_err(), MatrixError::NotSquare);
}

#[test]
fn one_column_is_not_square() {
    let matrix = Matrix::try_from(vec![vec![1], vec![2]]).unwrap();
    let admitted = NonZeroSquareMatrix::try_from(matrix);
    assert_eq!(admitted.unwrap_err(), MatrixError::NotSquare);
}

#[test]
fn rows_without_columns_are_not_square() {
    let matrix: Matrix<i32> = Matrix::try_from(vec![vec![], vec![]]).unwrap();
    let admitted = NonZeroSquareMatrix::try_from(matrix);
    assert_eq!(admitted.unwrap_err(), MatrixError::NotSquare);
}

#[test]
fn empty_matrix_is_degenerate() {
    let matrix: Matrix<i32> = Matrix::try_from(vec![]).unwrap();
    let admitted = NonZeroSquareMatrix::try_from(matrix);
    assert_eq!(admitted.unwrap_err(), MatrixError::Degenerate);
}

#[test]
fn square_matrix_knows_its_size() {
    let matrix = Matrix::try_from(vec![vec![1, 2], vec![3, 4]]).unwrap();
    let square = NonZeroSquareMatrix::try_from(matrix).unwrap();
    assert_eq!(square.size(), 2);
    let matrix = Matrix::try_from(vec![vec![7]]).unwrap();
    let square = NonZeroSquareMatrix::try_from(matrix).unwrap();
    assert_eq!(square.size(), 1);
}

#[test]
fn clone_keeps_the_elements() {
    let vec = vec![vec![1, 2], vec![3, 4]];
    let matrix = Matrix::try_from(vec.clone()).unwrap();
    let copy = matrix.clone();
    let square = NonZeroSquareMatrix::try_from(copy).unwrap();
    let twin = square.clone();
    assert_eq!(Vec::<Vec<i32>>::from(matrix), vec);
    assert_eq!(Vec::<Vec<i32>>::from(Matrix::from(square)), vec);
    assert_eq!(Vec::<Vec<i32>>::from(Matrix::from(twin)), vec);
}

#[test]
fn index_is_row_major() {
    assert_eq!(index(3, 1, 1), 4);
    assert_eq!(index(3, 2, 2), 8);
    assert_eq!(index(3, 10, 10), 40);
    assert_eq!(index(5, 0, 4), 4);
    assert_eq!(index(0, 9, 2), 2);
}

#[test]
fn array_holds_the_rows_one_after_the_other() {
    let matrix = Matrix::try_from(vec![vec![1, 2, 3], vec![4, 5, 6]]).unwrap();
    assert_eq!(matrix.array(), &vec![1, 2, 3, 4, 5, 6]);
    let matrix: Matrix<i32> = Matrix::try_from(vec![]).unwrap();
    assert!(matrix.array().is_empty());
    let square =
        NonZeroSquareMatrix::try_from(Matrix::try_from(vec![vec![1, 2], vec![3, 4]]).unwrap())
            .unwrap();
    assert_eq!(Matrix::from(square).array(), &vec![1, 2, 3, 4]);
}

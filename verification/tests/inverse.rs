use matrix_inversion::error::MatrixError;
use matrix_inversion::inverse::invert;
use matrix_inversion::matrix::{Matrix, NonZeroSquareMatrix};
use matrix_inversion::numeric::Numeric;
use std::ops::{Add, Div, Mul, Sub};

#[derive(Debug, Clone, Copy, PartialEq)]
struct Real(f64);

impl Add for Real {
    type Output = Real;

    fn add(self, rhs: Real) -> Real {
        Real(self.0 + rhs.0)
    }
}

impl Sub for Real {
    type Output = Real;

    fn sub(self, rhs: Real) -> Real {
        Real(self.0 - rhs.0)
    }
}

impl Mul for Real {
    type Output = Real;

    fn mul(self, rhs: Real) -> Real {
        Real(self.0 * rhs.0)
    }
}

impl Div for Real {
    type Output = Real;

    fn div(self, rhs: Real) -> Real {
        Real(self.0 / rhs.0)
    }
}

impl Numeric for Real {
    const ZERO: Self = Real(0.0);
    const ONE: Self = Real(1.0);

    fn lemma_operators_obey() {
    }
}

fn real_square(rows: Vec<Vec<f64>>) -> NonZeroSquareMatrix<Real> {
    let rows: Vec<Vec<Real>> =
        rows.into_iter().map(|row| row.into_iter().map(Real).collect()).collect();
    NonZeroSquareMatrix::try_from(Matrix::try_from(rows).unwrap()).unwrap()
}

fn real_rows(matrix: NonZeroSquareMatrix<Real>) -> Vec<Vec<f64>> {
    let rows: Vec<Vec<Real>> = Matrix::from(matrix).into();
    rows.into_iter().map(|row| row.into_iter().map(|x| x.0).collect()).collect()
}

fn int_square(rows: Vec<Vec<i32>>) -> NonZeroSquareMatrix<i32> {
    NonZeroSquareMatrix::try_from(Matrix::try_from(rows).unwrap()).unwrap()
}

fn int_rows(matrix: NonZeroSquareMatrix<i32>) -> Vec<Vec<i32>> {
    Matrix::from(matrix).into()
}

fn multiply(a: &Vec<Vec<f64>>, b: &Vec<Vec<f64>>) -> Vec<Vec<f64>> {
    let n = a.len();
    let mut out = vec![vec![0.0; n]; n];
    for i in 0..n {
        for j in 0..n {
            for k in 0..n {
                out[i][j] += a[i][k] * b[k][j];
            }
        }
    }
    out
}

fn assert_close_to_identity(product: &Vec<Vec<f64>>) {
    for i in 0..product.len() {
        for j in 0..product.len() {
            let expected = if i == j { 1.0 } else { 0.0 };
            assert!((product[i][j] - expected).abs() < 1e-9);
        }
    }
}

#[test]
fn inverse_of_identity_is_identity() {
    let m = int_square(vec![vec![1, 0], vec![0, 1]]);
    assert_eq!(int_rows(invert(m).unwrap()), vec![vec![1, 0], vec![0, 1]]);
    let m = real_square(vec![vec![1.0, 0.0], vec![0.0, 1.0]]);
    assert_eq!(real_rows(invert(m).unwrap()), vec![vec![1.0, 0.0], vec![0.0, 1.0]]);
}

#[test]
fn inverse_of_twice_the_identity_is_half_of_it() {
    let m = real_square(vec![vec![2.0, 0.0], vec![0.0, 2.0]]);
    assert_eq!(real_rows(invert(m).unwrap()), vec![vec![0.5, 0.0], vec![0.0, 0.5]]);
}

#[test]
fn inverse_of_order_two() {
    let m = real_square(vec![vec![4.0, 7.0], vec![2.0, 6.0]]);
    assert_eq!(real_rows(invert(m).unwrap()), vec![vec![0.6, -0.7], vec![-0.2, 0.4]]);
}

#[test]
fn inverse_of_order_three() {
    let m = real_square(vec![vec![2.0, 0.0, 0.0], vec![0.0, 4.0, 0.0], vec![0.0, 0.0, 8.0]]);
    assert_eq!(
        real_rows(invert(m).unwrap()),
        vec![vec![0.5, 0.0, 0.0], vec![0.0, 0.25, 0.0], vec![0.0, 0.0, 0.125]]
    );
}

#[test]
fn matrix_with_determinant_zero_is_singular() {
    let m = int_square(vec![vec![1, 2], vec![2, 4]]);
    assert_eq!(invert(m).unwrap_err(), MatrixError::Singular);
    let m = real_square(vec![vec![1.0, 2.0], vec![2.0, 4.0]]);
    assert_eq!(invert(m).unwrap_err(), MatrixError::Singular);
    let m = int_square(vec![vec![1, 2, 3], vec![4, 5, 6], vec![7, 8, 9]]);
    assert_eq!(invert(m).unwrap_err(), MatrixError::Singular);
}

#[test]
fn inverse_of_one_element_is_its_reciprocal() {
    let m = real_square(vec![vec![5.0]]);
    assert_eq!(real_rows(invert(m).unwrap()), vec![vec![0.2]]);
    let m = int_square(vec![vec![1]]);
    assert_eq!(int_rows(invert(m).unwrap()), vec![vec![1]]);
    let m = int_square(vec![vec![-1]]);
    assert_eq!(int_rows(invert(m).unwrap()), vec![vec![-1]]);
}

#[test]
fn one_element_zero_is_singular() {
    let m = real_square(vec![vec![0.0]]);
    assert_eq!(invert(m).unwrap_err(), MatrixError::Singular);
    let m = int_square(vec![vec![0]]);
    assert_eq!(invert(m).unwrap_err(), MatrixError::Singular);
}

#[test]
fn determinant_close_to_zero_is_not_singular() {
    let m = real_square(vec![vec![1e-300, 0.0], vec![0.0, 1.0]]);
    assert!(invert(m).is_ok());
    let m = real_square(vec![vec![f64::powi(2.0, -1000)]]);
    assert_eq!(real_rows(invert(m).unwrap()), vec![vec![f64::powi(2.0, 1000)]]);
}

#[test]
fn integer_inverse_divides_as_integers_do() {
    let m = int_square(vec![vec![2, 0], vec![0, 2]]);
    assert_eq!(int_rows(invert(m).unwrap()), vec![vec![0, 0], vec![0, 0]]);
    let m = int_square(vec![vec![2, 1], vec![1, 1]]);
    assert_eq!(int_rows(invert(m).unwrap()), vec![vec![1, -1], vec![-1, 2]]);
    let m = int_square(vec![vec![2]]);
    assert_eq!(int_rows(invert(m).unwrap()), vec![vec![0]]);
}

#[test]
fn integer_inverse_of_order_three() {
    let m = int_square(vec![vec![1, 2, 3], vec![0, 1, 4], vec![5, 6, 0]]);
    assert_eq!(
        int_rows(invert(m).unwrap()),
        vec![vec![-24, 18, 5], vec![20, -15, -4], vec![-5, 4, 1]]
    );
}

#[test]
fn matrix_times_inverse_is_close_to_identity() {
    let vec = vec![vec![4.0, 7.0, 2.0], vec![3.0, 6.0, 1.0], vec![2.0, 5.0, 3.0]];
    let inv = real_rows(invert(real_square(vec.clone())).unwrap());
    assert_close_to_identity(&multiply(&vec, &inv));
    assert_close_to_identity(&multiply(&inv, &vec));
    let vec = vec![
        vec![1.5, -2.0, 0.25, 3.0],
        vec![0.0, 4.0, -1.0, 2.0],
        vec![7.0, 0.5, 2.0, -3.0],
        vec![1.0, 1.0, 1.0, 9.0],
    ];
    let inv = real_rows(invert(real_square(vec.clone())).unwrap());
    assert_close_to_identity(&multiply(&vec, &inv));
    assert_close_to_identity(&multiply(&inv, &vec));
}

#[test]
fn determinant_of_reals() {
    let m = real_square(vec![vec![1.5, 2.0], vec![-0.5, 4.0]]);
    assert_eq!(m.det(), Real(7.0));
    let m = real_square(vec![vec![1.0, 0.0, 0.0], vec![0.0, 1.0, 0.0], vec![0.0, 0.0, 1.0]]);
    assert_eq!(m.det(), Real(1.0));
}

#[test]
fn division_by_real_zero_is_not_looked_for() {
    let m = real_square(vec![vec![1.0, -1.0], vec![0.0, 2.0]]);
    let q = real_rows(m / Real(0.0));
    assert_eq!(q[0][0], f64::INFINITY);
    assert_eq!(q[0][1], f64::NEG_INFINITY);
    assert!(q[1][0].is_nan());
    assert_eq!(q[1][1], f64::INFINITY);
}

fn int_multiply(a: &Vec<Vec<i32>>, b: &Vec<Vec<i32>>) -> Vec<Vec<i32>> {
    let n = a.len();
    let mut out = vec![vec![0; n]; n];
    for i in 0..n {
        for j in 0..n {
            for k in 0..n {
                out[i][j] += a[i][k] * b[k][j];
            }
        }
    }
    out
}

#[test]
fn matrix_times_adjugate_is_determinant_times_identity() {
    let vec = vec![vec![1, 2, 3], vec![0, 4, 5], vec![1, 0, 6]];
    let det = int_square(vec.clone()).det();
    assert_eq!(det, 22);
    let adjugate = int_rows(int_square(vec.clone()).algebraic_additions().unwrap().transposed());
    assert_eq!(adjugate, vec![vec![24, -12, -2], vec![5, 3, -5], vec![-4, 2, 4]]);
    assert_eq!(
        int_multiply(&vec, &adjugate),
        vec![vec![22, 0, 0], vec![0, 22, 0], vec![0, 0, 22]]
    );
    assert_eq!(
        int_multiply(&adjugate, &vec),
        vec![vec![22, 0, 0], vec![0, 22, 0], vec![0, 0, 22]]
    );
}

#[test]
fn integer_matrix_times_its_integral_inverse_is_identity() {
    let vec = vec![vec![2, 1], vec![1, 1]];
    let inv = int_rows(invert(int_square(vec.clone())).unwrap());
    assert_eq!(int_multiply(&vec, &inv), vec![vec![1, 0], vec![0, 1]]);
    let vec = vec![vec![1, 2, 3], vec![0, 1, 4], vec![5, 6, 0]];
    let inv = int_rows(invert(int_square(vec.clone())).unwrap());
    assert_eq!(int_multiply(&vec, &inv), vec![vec![1, 0, 0], vec![0, 1, 0], vec![0, 0, 1]]);
    assert_eq!(int_multiply(&inv, &vec), vec![vec![1, 0, 0], vec![0, 1, 0], vec![0, 0, 1]]);
    let vec = vec![vec![-1]];
    let inv = int_rows(invert(int_square(vec.clone())).unwrap());
    assert_eq!(int_multiply(&vec, &inv), vec![vec![1]]);
}

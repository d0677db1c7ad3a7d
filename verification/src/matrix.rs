//! The rectangular matrix, the square matrix with at least one row, and
//! their operations.

use crate::algebra::{
    cofactor, cofactor_defined, cofactors, cofactors_defined, determinant, determinant_defined,
    expansion, expansion_step_defined, kept, lemma_minor, minor, quotient, quotient_defined,
    skip, square, transpose,
};
use crate::error::MatrixError;
use crate::model::{
    cloned_each, cloned_rows, lemma_flatten_offsets, lemma_offset_in_range,
    lemma_offset_injective, lemma_offset_split, lemma_unflatten_flatten, nested, rectangular,
    unflatten, width,
};
use crate::numeric::Numeric;
use std::ops::Div;
use vstd::prelude::*;
use vstd::std_specs::convert::{FromSpecImpl, TryFromSpecImpl};
use vstd::std_specs::ops::{AddSpec, DivSpec, DivSpecImpl, MulSpec, SubSpec};

verus! {

/// A rectangular matrix, stored row by row in one flat vector.
#[derive(Debug)]
pub struct Matrix<T> {
    array: Vec<T>,
    rows: usize,
    cols: usize,
}

impl<T> Matrix<T> {
    #[verifier::type_invariant]
    spec fn well_formed(&self) -> bool {
        self.array@.len() == self.rows * self.cols
    }

    /// The elements in storage order.
    pub closed spec fn elements(&self) -> Seq<T> {
        self.array@
    }

    /// The number of rows.
    pub closed spec fn row_count(&self) -> nat {
        self.rows as nat
    }

    /// The number of columns.
    pub closed spec fn col_count(&self) -> nat {
        self.cols as nat
    }

    /// The flat store: the rows one after the other.
    pub fn array(&self) -> (flat: &Vec<T>)
        ensures
            flat@ == self.elements(),
            flat@.len() == self.row_count() * self.col_count(),
    {
        proof {
            use_type_invariant(self);
        }
        &self.array
    }
}

impl<T: Clone> Matrix<T> {
    /// The element of row `row` and column `col`, cloned, or `None` where
    /// either index is out of range.
    pub fn get(&self, row: usize, col: usize) -> (r: Option<T>)
        ensures
            match r {
                Some(x) => {
                    &&& row < self.row_count()
                    &&& col < self.col_count()
                    &&& cloned(self@[row as int][col as int], x)
                },
                None => row >= self.row_count() || col >= self.col_count(),
            },
    {
        proof {
            use_type_invariant(self);
        }
        if row < self.rows && col < self.cols {
            proof {
                lemma_offset_in_range(row as int, col as int, self.rows as int, self.cols as int);
                assert(self.array.len() == self.array@.len());
            }
            Some(self.array[row * self.cols + col].clone())
        } else {
            None
        }
    }
}

impl<T: Clone> Clone for Matrix<T> {
    fn clone(&self) -> (copy: Self)
        ensures
            copy.row_count() == self.row_count(),
            copy.col_count() == self.col_count(),
            cloned_each(self.elements(), copy.elements()),
    {
        proof {
            use_type_invariant(self);
        }
        Matrix { array: self.array.clone(), rows: self.rows, cols: self.cols }
    }
}

impl<T> View for Matrix<T> {
    type V = Seq<Seq<T>>;

    /// The matrix as its rows.
    open spec fn view(&self) -> Seq<Seq<T>> {
        unflatten(self.elements(), self.row_count(), self.col_count())
    }
}

/// What the conversion returns is stated by the contract of `try_from` itself:
/// a vector cannot be written down in a specification, so the functional form
/// is left open.
impl<T> TryFromSpecImpl<Vec<Vec<T>>> for Matrix<T> {
    open spec fn obeys_try_from_spec() -> bool {
        false
    }

    open spec fn try_from_spec(value: Vec<Vec<T>>) -> Result<Self, Self::Error> {
        arbitrary()
    }
}

impl<T> TryFrom<Vec<Vec<T>>> for Matrix<T> {
    type Error = MatrixError;

    /// Flattens the rows in order. Fails where a row is not as long as the
    /// first one; no rows at all give the empty matrix.
    fn try_from(value: Vec<Vec<T>>) -> (r: Result<Self, Self::Error>)
        ensures
            match r {
                Ok(m) => {
                    &&& rectangular(nested(value@))
                    &&& m.row_count() == value@.len()
                    &&& m.col_count() == width(nested(value@))
                    &&& m.elements() == nested(value@).flatten()
                    &&& m@ == nested(value@)
                },
                Err(e) => {
                    &&& !rectangular(nested(value@))
                    &&& e matches MatrixError::Shape { expected_cols }
                    &&& expected_cols == width(nested(value@))
                },
            },
    {
        let ghost lines = nested(value@);
        let rows = value.len();
        let cols = if rows == 0 {
            0
        } else {
            value[0].len()
        };
        let mut row_no: usize = 0;
        while row_no < rows
            invariant
                rows == value@.len(),
                lines == nested(value@),
                cols == width(lines),
                row_no <= rows,
                forall|r: int| 0 <= r < row_no ==> (#[trigger] lines[r]).len() == cols,
            decreases rows - row_no,
        {
            if value[row_no].len() != cols {
                assert(lines[row_no as int].len() != width(lines));
                return Err(MatrixError::Shape { expected_cols: cols });
            }
            row_no += 1;
        }
        let mut array: Vec<T> = Vec::new();
        for row in it: value
            invariant
                lines == nested(it.seq()),
                array@ == lines.take(it.index() as int).flatten(),
        {
            let mut row = row;
            proof {
                let done = it.index() as int;
                assert(lines.take(done + 1) =~= lines.take(done).push(lines[done]));
                lines.take(done).lemma_flatten_push(lines[done]);
            }
            array.append(&mut row);
        }
        proof {
            assert(lines.take(lines.len() as int) =~= lines);
            lemma_flatten_offsets(lines, cols as nat);
            lemma_unflatten_flatten(lines, cols as nat);
        }
        Ok(Matrix { array, rows, cols })
    }
}

/// What the conversion returns is stated by the contract of `from` itself: it
/// depends on what `clone` gives, so it has no functional form.
impl<T: Clone> FromSpecImpl<Matrix<T>> for Vec<Vec<T>> {
    open spec fn obeys_from_spec() -> bool {
        false
    }

    open spec fn from_spec(mat: Matrix<T>) -> Self {
        arbitrary()
    }
}

impl<T: Clone> From<Matrix<T>> for Vec<Vec<T>> {
    /// Rebuilds the rows from the flat store, row by row, cloning each element.
    fn from(mat: Matrix<T>) -> (out: Self)
        ensures
            cloned_rows(mat@, nested(out@)),
    {
        let mut out: Vec<Vec<T>> = Vec::with_capacity(mat.rows);
        for row_no in 0..mat.rows
            invariant
                out@.len() == row_no,
                forall|r: int| 0 <= r < row_no ==> cloned_each(#[trigger] mat@[r], out@[r]@),
        {
            let mut row: Vec<T> = Vec::with_capacity(mat.cols);
            for col_no in 0..mat.cols
                invariant
                    row_no < mat.rows,
                    row@.len() == col_no,
                    forall|c: int|
                        0 <= c < col_no ==> cloned(#[trigger] mat@[row_no as int][c], row@[c]),
            {
                let elem = mat.get(row_no, col_no);
                row.push(elem.unwrap());
            }
            out.push(row);
        }
        out
    }
}

/// A square matrix with at least one row, stored row by row in one flat vector.
#[derive(Debug)]
pub struct NonZeroSquareMatrix<T> {
    array: Vec<T>,
    size: usize,
}

impl<T> NonZeroSquareMatrix<T> {
    #[verifier::type_invariant]
    spec fn well_formed(&self) -> bool {
        &&& self.size >= 1
        &&& self.array@.len() == self.size * self.size
    }

    /// The elements in storage order.
    pub closed spec fn elements(&self) -> Seq<T> {
        self.array@
    }

    /// The number of rows, which is the number of columns.
    pub closed spec fn order(&self) -> nat {
        self.size as nat
    }

    /// The number of rows, which is the number of columns; it is at least 1.
    pub fn size(&self) -> (n: usize)
        ensures
            n == self.order(),
            n >= 1,
            self.elements().len() == n * n,
            self@.len() == n,
            square(self@),
    {
        proof {
            use_type_invariant(self);
        }
        self.size
    }
}

impl<T> View for NonZeroSquareMatrix<T> {
    type V = Seq<Seq<T>>;

    /// The matrix as its rows.
    open spec fn view(&self) -> Seq<Seq<T>> {
        unflatten(self.elements(), self.order(), self.order())
    }
}

impl<T: Clone> Clone for NonZeroSquareMatrix<T> {
    fn clone(&self) -> (copy: Self)
        ensures
            copy.order() == self.order(),
            cloned_each(self.elements(), copy.elements()),
    {
        proof {
            use_type_invariant(self);
        }
        NonZeroSquareMatrix { array: self.array.clone(), size: self.size }
    }
}

/// The admission as a function of the matrix.
impl<T> TryFromSpecImpl<Matrix<T>> for NonZeroSquareMatrix<T> {
    open spec fn obeys_try_from_spec() -> bool {
        true
    }

    closed spec fn try_from_spec(matrix: Matrix<T>) -> Result<Self, Self::Error> {
        if matrix.rows != matrix.cols {
            Err(MatrixError::NotSquare)
        } else if matrix.rows == 0 {
            Err(MatrixError::Degenerate)
        } else {
            Ok(NonZeroSquareMatrix { array: matrix.array, size: matrix.rows })
        }
    }
}

impl<T> TryFrom<Matrix<T>> for NonZeroSquareMatrix<T> {
    type Error = MatrixError;

    /// Admits a matrix that has as many rows as columns, and at least one;
    /// the elements are kept as they are.
    fn try_from(matrix: Matrix<T>) -> (r: Result<Self, Self::Error>)
        ensures
            match r {
                Ok(sq) => {
                    &&& matrix.row_count() == matrix.col_count()
                    &&& matrix.row_count() >= 1
                    &&& sq.order() == matrix.row_count()
                    &&& sq.elements() == matrix.elements()
                    &&& sq@ == matrix@
                },
                Err(e) => if matrix.row_count() != matrix.col_count() {
                    e == MatrixError::NotSquare
                } else {
                    matrix.row_count() == 0 && e == MatrixError::Degenerate
                },
            },
    {
        proof {
            use_type_invariant(&matrix);
        }
        let Matrix { array, rows, cols } = matrix;
        if rows == cols {
            if rows != 0 {
                Ok(Self { array, size: rows })
            } else {
                Err(MatrixError::Degenerate)
            }
        } else {
            Err(MatrixError::NotSquare)
        }
    }
}

/// The conversion as a function of the square matrix.
impl<T> FromSpecImpl<NonZeroSquareMatrix<T>> for Matrix<T> {
    open spec fn obeys_from_spec() -> bool {
        true
    }

    closed spec fn from_spec(matrix: NonZeroSquareMatrix<T>) -> Self {
        Matrix { array: matrix.array, rows: matrix.size, cols: matrix.size }
    }
}

impl<T> From<NonZeroSquareMatrix<T>> for Matrix<T> {
    /// The same elements, with the order as the number of rows and of columns.
    fn from(matrix: NonZeroSquareMatrix<T>) -> (m: Self)
        ensures
            m.row_count() == matrix.order(),
            m.col_count() == matrix.order(),
            m.elements() == matrix.elements(),
            m@ == matrix@,
    {
        proof {
            use_type_invariant(&matrix);
        }
        let NonZeroSquareMatrix { array, size } = matrix;
        Self { array, rows: size, cols: size }
    }
}

impl<T: Numeric> NonZeroSquareMatrix<T> {
    /// The determinant: the single element at order 1, the difference of the
    /// two diagonal products at order 2, and above that the expansion along the
    /// first row, whose minors are expanded in turn. The number of operations
    /// grows with the factorial of the order.
    pub fn det(&self) -> (d: T)
        requires
            determinant_defined(self@),
        ensures
            d == determinant(self@),
        decreases self.order(),
    {
        proof {
            use_type_invariant(self);
            T::lemma_operators_obey();
        }
        let size = self.size;
        if size == 1 {
            assert(size * size == 1) by (nonlinear_arith)
                requires
                    size == 1,
            ;
            self.array[0]
        } else if size == 2 {
            assert(size * size == 4) by (nonlinear_arith)
                requires
                    size == 2,
            ;
            self.array[0] * self.array[3] - self.array[1] * self.array[2]
        } else {
            let mut res = T::ZERO;
            let row_no: usize = 0;
            for col_no in 0..size
                invariant
                    size == self.size,
                    size >= 3,
                    row_no == 0,
                    self.array@.len() == size * size,
                    determinant_defined(self@),
                    T::obeys_add_spec(),
                    T::obeys_sub_spec(),
                    T::obeys_mul_spec(),
                    res == expansion(self@, col_no as nat),
            {
                proof {
                    lemma_offset_in_range(0, col_no as int, size as int, size as int);
                    assert(self@[0][col_no as int] == self.array@[0 * size + col_no]);
                    assert(expansion_step_defined(self@, col_no as int));
                }
                let sign = if col_no % 2 == 0 {
                    T::ONE
                } else {
                    T::ZERO - T::ONE
                };
                let scaled = sign * self.array[index(size, row_no, col_no)];
                let part = self.exclude(row_no, col_no).unwrap();
                let term = scaled * part.det();
                res = res + term;
            }
            res
        }
    }

    /// The matrix of cofactors, or `None` at order 1, where no minor exists.
    pub fn algebraic_additions(self) -> (r: Option<Self>)
        requires
            self.order() > 1 ==> cofactors_defined(self@),
        ensures
            match r {
                Some(c) => {
                    &&& self.order() > 1
                    &&& c.order() == self.order()
                    &&& c@ == cofactors(self@)
                },
                None => self.order() == 1,
            },
    {
        proof {
            use_type_invariant(&self);
            T::lemma_operators_obey();
            assert(self.array.len() == self.array@.len());
        }
        let size = self.size;
        if size == 1 {
            return None;
        }
        let ghost target = cofactors(self@);
        let mut array: Vec<T> = Vec::with_capacity(size * size);
        for row_no in 0..size
            invariant
                size == self.size,
                size >= 2,
                self.array@.len() == size * size,
                cofactors_defined(self@),
                T::obeys_sub_spec(),
                T::obeys_mul_spec(),
                target == cofactors(self@),
                array@ == target.take(row_no as int).flatten(),
        {
            for col_no in 0..size
                invariant
                    size == self.size,
                    size >= 2,
                    self.array@.len() == size * size,
                    row_no < size,
                    cofactors_defined(self@),
                    T::obeys_sub_spec(),
                    T::obeys_mul_spec(),
                    target == cofactors(self@),
                    array@ == target.take(row_no as int).flatten() + target[row_no as int].take(
                        col_no as int,
                    ),
            {
                proof {
                    assert(cofactor_defined(self@, row_no as int, col_no as int));
                    assert(target[row_no as int][col_no as int] == cofactor(
                        self@,
                        row_no as int,
                        col_no as int,
                    ));
                    assert(target[row_no as int].take(col_no + 1) =~= target[row_no as int].take(
                        col_no as int,
                    ).push(target[row_no as int][col_no as int]));
                    assert((target.take(row_no as int).flatten() + target[row_no as int].take(
                        col_no as int,
                    )).push(target[row_no as int][col_no as int]) =~= target.take(
                        row_no as int,
                    ).flatten() + target[row_no as int].take(col_no + 1));
                    assert(2 * size <= size * size) by (nonlinear_arith)
                        requires
                            size >= 2,
                    ;
                }
                let sign = if (row_no + col_no) % 2 == 1 {
                    T::ZERO - T::ONE
                } else {
                    T::ONE
                };
                let part = self.exclude(row_no, col_no).unwrap();
                array.push(sign * part.det());
            }
            proof {
                assert(target.take(row_no + 1) =~= target.take(row_no as int).push(
                    target[row_no as int],
                ));
                target.take(row_no as int).lemma_flatten_push(target[row_no as int]);
            }
        }
        proof {
            assert(target.take(size as int) =~= target);
            lemma_flatten_offsets(target, size as nat);
            lemma_unflatten_flatten(target, size as nat);
        }
        Some(Self { array, size })
    }

    /// The matrix without row `row_no` and column `col_no`, or `None` where
    /// the order is 1 and nothing would be left.
    pub fn exclude(&self, row_no: usize, col_no: usize) -> (r: Option<NonZeroSquareMatrix<T>>)
        requires
            row_no < self.order(),
            col_no < self.order(),
        ensures
            match r {
                Some(part) => {
                    &&& self.order() > 1
                    &&& part.order() == self.order() - 1
                    &&& part@ == minor(self@, row_no as int, col_no as int)
                },
                None => self.order() == 1,
            },
    {
        proof {
            use_type_invariant(self);
        }
        let size = self.size;
        if size == 1 {
            return None;
        }
        let new_size = size - 1;
        let ghost target = minor(self@, row_no as int, col_no as int);
        proof {
            lemma_minor(self@, row_no as int, col_no as int);
            assert(new_size * new_size <= size * size) by (nonlinear_arith)
                requires
                    new_size == size - 1,
                    size >= 1,
            ;
            assert(self.array.len() == self.array@.len());
        }
        let mut array: Vec<T> = Vec::with_capacity(new_size * new_size);
        for row_no_old in 0..size
            invariant
                size == self.size,
                size >= 2,
                self.array@.len() == size * size,
                row_no < size,
                col_no < size,
                target == minor(self@, row_no as int, col_no as int),
                target.len() == size - 1,
                square(target),
                forall|i: int, j: int|
                    0 <= i < size - 1 && 0 <= j < size - 1 ==> #[trigger] target[i][j]
                        == self@[skip(i, row_no as int)][skip(j, col_no as int)],
                array@ == target.take(kept(row_no_old as int, row_no as int)).flatten(),
        {
            let ghost done = kept(row_no_old as int, row_no as int);
            for col_no_old in 0..size
                invariant
                    size == self.size,
                    size >= 2,
                    self.array@.len() == size * size,
                    row_no < size,
                    col_no < size,
                    row_no_old < size,
                    done == kept(row_no_old as int, row_no as int),
                    target.len() == size - 1,
                    square(target),
                    forall|i: int, j: int|
                        0 <= i < size - 1 && 0 <= j < size - 1 ==> #[trigger] target[i][j]
                            == self@[skip(i, row_no as int)][skip(j, col_no as int)],
                    array@ == target.take(done).flatten() + (if row_no_old == row_no {
                        Seq::<T>::empty()
                    } else {
                        target[done].take(kept(col_no_old as int, col_no as int))
                    }),
            {
                if row_no != row_no_old && col_no != col_no_old {
                    proof {
                        lemma_offset_in_range(
                            row_no_old as int,
                            col_no_old as int,
                            size as int,
                            size as int,
                        );
                        assert(self.array.len() == self.array@.len());
                        let ahead = kept(col_no_old as int, col_no as int);
                        assert(target[done].take(ahead + 1) =~= target[done].take(ahead).push(
                            target[done][ahead],
                        ));
                        assert((target.take(done).flatten() + target[done].take(ahead)).push(
                            target[done][ahead],
                        ) =~= target.take(done).flatten() + target[done].take(ahead + 1));
                    }
                    array.push(self.array[index(size, row_no_old, col_no_old)]);
                }
            }
            proof {
                if row_no_old != row_no {
                    assert(target.take(done + 1) =~= target.take(done).push(target[done]));
                    target.take(done).lemma_flatten_push(target[done]);
                }
            }
        }
        proof {
            assert(target.take(size - 1) =~= target);
            lemma_flatten_offsets(target, new_size as nat);
            lemma_unflatten_flatten(target, new_size as nat);
        }
        Some(Self { array, size: new_size })
    }

    /// The matrix mirrored at its diagonal: the elements of each pair of
    /// places on either side of it change places.
    pub fn transposed(self) -> (t: Self)
        ensures
            t.order() == self.order(),
            t@ == transpose(self@),
    {
        proof {
            use_type_invariant(&self);
        }
        let ghost before = self@;
        let NonZeroSquareMatrix { array, size } = self;
        let mut array = array;
        for row_no in 0..size
            invariant
                size >= 1,
                array@.len() == size * size,
                before.len() == size,
                square(before),
                forall|r: int, c: int|
                    0 <= r < size && 0 <= c < size ==> #[trigger] unflatten(
                        array@,
                        size as nat,
                        size as nat,
                    )[r][c] == (if mirrored(r, c, row_no as int, 0) {
                        before[c][r]
                    } else {
                        before[r][c]
                    }),
        {
            for col_no in (row_no + 1)..size
                invariant
                    size >= 1,
                    row_no < size,
                    array@.len() == size * size,
                    before.len() == size,
                    square(before),
                    forall|r: int, c: int|
                        0 <= r < size && 0 <= c < size ==> #[trigger] unflatten(
                            array@,
                            size as nat,
                            size as nat,
                        )[r][c] == (if mirrored(r, c, row_no as int, col_no as int) {
                            before[c][r]
                        } else {
                            before[r][c]
                        }),
            {
                let ghost earlier = array@;
                proof {
                    lemma_offset_in_range(row_no as int, col_no as int, size as int, size as int);
                    lemma_offset_in_range(col_no as int, row_no as int, size as int, size as int);
                    assert(array.len() == array@.len());
                }
                let left = index(size, row_no, col_no);
                let right = index(size, col_no, row_no);
                let upper = array[left];
                let lower = array[right];
                array.set(left, lower);
                array.set(right, upper);
                proof {
                    let now = unflatten(array@, size as nat, size as nat);
                    let was = unflatten(earlier, size as nat, size as nat);
                    assert forall|r: int, c: int| 0 <= r < size && 0 <= c < size implies #[trigger] now[r][c]
                        == (if mirrored(r, c, row_no as int, col_no + 1) {
                        before[c][r]
                    } else {
                        before[r][c]
                    }) by {
                        lemma_offset_in_range(r, c, size as int, size as int);
                        if r * size + c == left {
                            lemma_offset_injective(r, c, row_no as int, col_no as int, size as int);
                        }
                        if r * size + c == right {
                            lemma_offset_injective(r, c, col_no as int, row_no as int, size as int);
                        }
                        assert(was[r][c] == earlier[r * size + c]);
                        assert(was[row_no as int][col_no as int] == earlier[left as int]);
                        assert(was[col_no as int][row_no as int] == earlier[right as int]);
                    }
                }
            }
        }
        proof {
            let now = unflatten(array@, size as nat, size as nat);
            let goal = transpose(before);
            assert forall|r: int| 0 <= r < size implies now[r] == goal[r] by {
                assert forall|c: int| 0 <= c < size implies now[r][c] == goal[r][c] by {
                    assert(now[r][c] == (if mirrored(r, c, size as int, 0) {
                        before[c][r]
                    } else {
                        before[r][c]
                    }));
                }
            }
        }
        NonZeroSquareMatrix { array, size }
    }
}

/// In a transposition that goes through the places above the diagonal row by
/// row, the place of row `r` and column `c` has changed its element with the
/// mirrored place once the run has come to row `row` and column `col`.
spec fn mirrored(r: int, c: int, row: int, col: int) -> bool {
    let upper = if r < c {
        r
    } else {
        c
    };
    let lower = if r < c {
        c
    } else {
        r
    };
    r != c && (upper < row || (upper == row && lower < col))
}

/// The division is defined where every element can be divided; what it
/// returns is stated by the contract of `div` itself.
impl<T: Numeric> DivSpecImpl<T> for NonZeroSquareMatrix<T> {
    open spec fn obeys_div_spec() -> bool {
        false
    }

    open spec fn div_req(self, rhs: T) -> bool {
        quotient_defined(self@, rhs)
    }

    open spec fn div_spec(self, rhs: T) -> Self::Output {
        arbitrary()
    }
}

impl<T: Numeric> Div<T> for NonZeroSquareMatrix<T> {
    type Output = NonZeroSquareMatrix<T>;

    /// Divides every element by `rhs`. A `rhs` of zero is not looked for
    /// here: what a division by it does is the element type's affair.
    fn div(self, rhs: T) -> (q: Self::Output)
        ensures
            q.order() == self.order(),
            q@ == quotient(self@, rhs),
    {
        proof {
            use_type_invariant(&self);
            T::lemma_operators_obey();
        }
        let ghost before = self@;
        let ghost elements = self.array@;
        let NonZeroSquareMatrix { array, size } = self;
        let mut array = array;
        let count = array.len();
        for i in 0..count
            invariant
                size >= 1,
                count == size * size,
                array@.len() == count,
                elements.len() == count,
                before == unflatten(elements, size as nat, size as nat),
                quotient_defined(before, rhs),
                T::obeys_div_spec(),
                forall|k: int| 0 <= k < i ==> array@[k] == (#[trigger] elements[k]).div_spec(rhs),
                forall|k: int| i <= k < count ==> array@[k] == #[trigger] elements[k],
        {
            proof {
                lemma_offset_split(i as int, size as int, size as int);
                let r = i as int / size as int;
                let c = i as int % size as int;
                assert(before[r][c] == elements[r * size + c]);
            }
            let elem = array[i];
            array.set(i, elem / rhs);
        }
        proof {
            let now = unflatten(array@, size as nat, size as nat);
            let goal = quotient(before, rhs);
            assert forall|r: int| 0 <= r < size implies now[r] == goal[r] by {
                assert forall|c: int| 0 <= c < size implies now[r][c] == goal[r][c] by {
                    lemma_offset_in_range(r, c, size as int, size as int);
                }
            }
        }
        NonZeroSquareMatrix { array, size }
    }
}

/// The offset in a flat store with rows of `row_count` elements of the element
/// of row `row_no` and column `col_no`.
pub fn index(row_count: usize, row_no: usize, col_no: usize) -> (offset: usize)
    requires
        row_no * row_count + col_no <= usize::MAX,
    ensures
        offset == row_no * row_count + col_no,
{
    row_no * row_count + col_no
}

} // verus!

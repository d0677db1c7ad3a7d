//! Rows and their flat store: the shape of a list of rows, and where an
//! element lies once the rows are laid end to end.

use vstd::prelude::*;

verus! {

/// The rows that a vector of vectors holds, each as a sequence.
pub open spec fn nested<T>(rows: Seq<Vec<T>>) -> Seq<Seq<T>> {
    rows.map_values(|row: Vec<T>| row@)
}

/// The column count of a list of rows: the length of the first row, and 0 where there is none.
pub open spec fn width<T>(rows: Seq<Seq<T>>) -> nat {
    if rows.len() == 0 {
        0
    } else {
        rows[0].len()
    }
}

/// Every row is as long as the first one.
pub open spec fn rectangular<T>(rows: Seq<Seq<T>>) -> bool {
    forall|r: int| 0 <= r < rows.len() ==> (#[trigger] rows[r]).len() == width(rows)
}

/// The rows of a matrix of `rows` by `cols` elements that is stored row by row
/// in `flat`: the element of row `r` and column `c` is `flat[r * cols + c]`.
pub open spec fn unflatten<T>(flat: Seq<T>, rows: nat, cols: nat) -> Seq<Seq<T>> {
    Seq::new(rows, |r: int| Seq::new(cols, |c: int| flat[r * cols + c]))
}

/// `copy` has the length of `source`, and each of its elements is one that
/// `clone` may return for the element in the same place.
pub open spec fn cloned_each<T: Clone>(source: Seq<T>, copy: Seq<T>) -> bool {
    &&& copy.len() == source.len()
    &&& forall|i: int| 0 <= i < source.len() ==> cloned(#[trigger] source[i], copy[i])
}

/// `copy` has the shape of `source`, row by row, and each of its elements is
/// one that `clone` may return for the element in the same place.
pub open spec fn cloned_rows<T: Clone>(source: Seq<Seq<T>>, copy: Seq<Seq<T>>) -> bool {
    &&& copy.len() == source.len()
    &&& forall|r: int| 0 <= r < source.len() ==> cloned_each(#[trigger] source[r], copy[r])
}

/// In a store of `rows` by `cols` elements the offset of row `r` and column `c`
/// lies within the store.
pub proof fn lemma_offset_in_range(r: int, c: int, rows: int, cols: int)
    requires
        0 <= r < rows,
        0 <= c < cols,
    ensures
        0 <= r * cols + c < rows * cols,
{
    assert(0 <= r * cols && r * cols + cols <= rows * cols) by (nonlinear_arith)
        requires
            0 <= r < rows,
            0 < cols,
    ;
}

/// Two places of one store with the same offset are the same place.
pub proof fn lemma_offset_injective(r1: int, c1: int, r2: int, c2: int, cols: int)
    requires
        0 <= c1 < cols,
        0 <= c2 < cols,
        r1 * cols + c1 == r2 * cols + c2,
    ensures
        r1 == r2,
        c1 == c2,
{
    assert(r1 == r2) by (nonlinear_arith)
        requires
            0 <= c1 < cols,
            0 <= c2 < cols,
            r1 * cols + c1 == r2 * cols + c2,
    ;
}

/// Every offset into a store of `rows` by `cols` elements is the offset of
/// one row and one column.
pub proof fn lemma_offset_split(offset: int, rows: int, cols: int)
    requires
        0 <= offset < rows * cols,
        0 < cols,
    ensures
        0 <= offset / cols < rows,
        0 <= offset % cols < cols,
        (offset / cols) * cols + offset % cols == offset,
{
    vstd::arithmetic::div_mod::lemma_fundamental_div_mod(offset, cols);
    vstd::arithmetic::div_mod::lemma_mod_bound(offset, cols);
    let q = offset / cols;
    assert(0 <= q < rows) by (nonlinear_arith)
        requires
            0 <= offset < rows * cols,
            0 < cols,
            offset == cols * q + offset % cols,
            0 <= offset % cols < cols,
    ;
    assert(q * cols == cols * q) by (nonlinear_arith);
}

/// Rows of one length, laid end to end, hold the element of row `r` and column
/// `c` at offset `r * cols + c`.
pub proof fn lemma_flatten_offsets<T>(lines: Seq<Seq<T>>, cols: nat)
    requires
        forall|r: int| 0 <= r < lines.len() ==> (#[trigger] lines[r]).len() == cols,
    ensures
        lines.flatten().len() == lines.len() * cols,
        forall|r: int, c: int|
            0 <= r < lines.len() && 0 <= c < cols ==> lines.flatten()[r * cols + c]
                == #[trigger] lines[r][c],
    decreases lines.len(),
{
    if lines.len() == 0 {
        assert(lines.flatten() =~= Seq::<T>::empty());
    } else {
        let front = lines.drop_last();
        let last = lines.last();
        let n = front.len();
        lemma_flatten_offsets(front, cols);
        assert(lines =~= front.push(last));
        front.lemma_flatten_push(last);
        assert(lines.flatten() =~= front.flatten() + last);
        assert((n + 1) * cols == n * cols + cols) by (nonlinear_arith);
        assert forall|r: int, c: int| 0 <= r < lines.len() && 0 <= c < cols implies lines.flatten()[r
            * cols + c] == #[trigger] lines[r][c] by {
            if r < n {
                assert(r * cols + c < n * cols) by (nonlinear_arith)
                    requires
                        0 <= r < n,
                        0 <= c < cols,
                ;
                assert(0 <= r * cols + c) by (nonlinear_arith)
                    requires
                        0 <= r,
                        0 <= c,
                        0 <= cols,
                ;
                assert(front[r][c] == lines[r][c]);
            } else {
                assert(r * cols + c - n * cols == c);
            }
        }
    }
}

/// Rows of one length that are laid end to end and cut again at that length
/// are the rows that one began with.
pub proof fn lemma_unflatten_flatten<T>(lines: Seq<Seq<T>>, cols: nat)
    requires
        forall|r: int| 0 <= r < lines.len() ==> (#[trigger] lines[r]).len() == cols,
    ensures
        unflatten(lines.flatten(), lines.len(), cols) == lines,
{
    lemma_flatten_offsets(lines, cols);
    let back = unflatten(lines.flatten(), lines.len(), cols);
    assert forall|r: int| 0 <= r < lines.len() implies back[r] == lines[r] by {
        assert forall|c: int| 0 <= c < cols implies back[r][c] == lines[r][c] by {
            assert(lines.flatten()[r * cols + c] == lines[r][c]);
        }
        assert(back[r] =~= lines[r]);
    }
    assert(back =~= lines);
}

} // verus!

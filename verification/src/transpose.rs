//! Transposition of the matrix of all individuals' values.

use vstd::prelude::*;

verus! {

/// Turn a rectangular matrix of rows into the matrix of its columns, in
/// place; an empty matrix stays as it is.
pub fn transpose_matrix_in_place<T: Copy>(matrix: &mut Vec<Vec<T>>)
    requires
        forall|i: int|
            0 <= i < old(matrix)@.len() ==> (#[trigger] old(matrix)@[i]@).len() == old(
                matrix,
            )@[0]@.len(),
    ensures
        old(matrix)@.len() == 0 ==> final(matrix)@ == old(matrix)@,
        old(matrix)@.len() > 0 ==> {
            &&& final(matrix)@.len() == old(matrix)@[0]@.len()
            &&& forall|j: int|
                0 <= j < final(matrix)@.len() ==> (#[trigger] final(matrix)@[j]@).len() == old(
                    matrix,
                )@.len()
            &&& forall|i: int, j: int|
                0 <= i < old(matrix)@.len() && 0 <= j < final(matrix)@.len() ==> (
                #[trigger] final(matrix)@[j]@[i]) == old(matrix)@[i]@[j]
        },
{
    let ghost orig = matrix@;
    if matrix.len() == 0 {
        return ;
    }
    let rows = matrix.len();
    let cols = matrix[0].len();
    let mut transposed: Vec<Vec<T>> = Vec::new();
    let mut j: usize = 0;
    while j < cols
        invariant
            j <= cols,
            matrix@ == orig,
            rows == orig.len(),
            rows > 0,
            cols == orig[0]@.len(),
            forall|i: int| 0 <= i < orig.len() ==> (#[trigger] orig[i]@).len() == cols,
            transposed@.len() == j,
            forall|j0: int|
                0 <= j0 < j ==> (#[trigger] transposed@[j0]@).len() == rows,
            forall|i: int, j0: int|
                0 <= i < rows && 0 <= j0 < j ==> (#[trigger] transposed@[j0]@[i]) == orig[i]@[j0],
        decreases cols - j,
    {
        let mut column: Vec<T> = Vec::new();
        let mut i: usize = 0;
        while i < rows
            invariant
                i <= rows,
                j < cols,
                matrix@ == orig,
                rows == orig.len(),
                cols == orig[0]@.len(),
                forall|i0: int| 0 <= i0 < orig.len() ==> (#[trigger] orig[i0]@).len() == cols,
                column@.len() == i,
                forall|i0: int| 0 <= i0 < i ==> (#[trigger] column@[i0]) == orig[i0]@[j as int],
            decreases rows - i,
        {
            let row = &matrix[i];
            column.push(row[j]);
            i += 1;
        }
        transposed.push(column);
        j += 1;
    }
    *matrix = transposed;
}

} // verus!

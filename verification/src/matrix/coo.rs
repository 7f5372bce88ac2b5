use vstd::prelude::*;

use crate::matrix::common::{Index, Scalar};
use crate::matrix::dense::{dense_nonzeros, lemma_flat_index, row_nonzeros, DenseMatrix};

verus! {

/// A sparse matrix as three parallel lists: entry `k` has value `values[k]` at
/// `(row_indices[k], col_indices[k])`.
pub struct CooContainer<I: Index, V: Scalar> {
    pub row_indices: Vec<I>,
    pub col_indices: Vec<I>,
    pub values: Vec<V>,
    pub shape: (usize, usize),
}

/// Three parallel lists hold exactly the entries `nz`, each position written in the index type.
pub open spec fn encodes_entries<I: Index, V: Scalar>(
    row_indices: Seq<I>,
    col_indices: Seq<I>,
    values: Seq<V>,
    nz: Seq<(int, int, V)>,
) -> bool {
    &&& row_indices.len() == nz.len()
    &&& col_indices.len() == nz.len()
    &&& values.len() == nz.len()
    &&& forall|k: int|
        0 <= k < nz.len() ==> {
            &&& #[trigger] row_indices[k] == I::spec_from_usize(nz[k].0 as usize)
            &&& col_indices[k] == I::spec_from_usize(nz[k].1 as usize)
            &&& values[k] == nz[k].2
        }
}

/// An entry `(row, column, value)` with its two positions read as integers.
pub open spec fn entry_view<I: Index, V>(e: (I, I, V)) -> (int, int, V) {
    (e.0.spec_to_usize() as int, e.1.spec_to_usize() as int, e.2)
}

/// The entries `(row, column, value)` that three parallel lists hold, as far as the values go.
pub open spec fn coo_entries<I: Index, V: Scalar>(
    row_indices: Seq<I>,
    col_indices: Seq<I>,
    values: Seq<V>,
) -> Seq<(int, int, V)> {
    Seq::new(
        values.len(),
        |k: int|
            (
                row_indices[k].spec_to_usize() as int,
                col_indices[k].spec_to_usize() as int,
                values[k],
            ),
    )
}

/// What listing the nonzeros of the dense `rows x ncols` matrix `d` gives: its shape, and its
/// nonzeros in row-major order, positions written in the index type.
pub open spec fn coo_of_dense<I: Index, V: Scalar>(
    coo: CooContainer<I, V>,
    d: Seq<V>,
    rows: int,
    ncols: int,
) -> bool {
    &&& coo.shape == (rows as usize, ncols as usize)
    &&& encodes_entries(
        coo.row_indices@,
        coo.col_indices@,
        coo.values@,
        dense_nonzeros(d, ncols, rows),
    )
}

/// The entries `(row, column, value)` that three parallel lists hold, as far as the values go,
/// with the row read as an integer and the column kept as the index value it is.
pub open spec fn coo_index_entries<I: Index, V: Scalar>(
    row_indices: Seq<I>,
    col_indices: Seq<I>,
    values: Seq<V>,
) -> Seq<(int, I, V)> {
    Seq::new(
        values.len(),
        |k: int| (row_indices[k].spec_to_usize() as int, col_indices[k], values[k]),
    )
}

impl<I: Index, V: Scalar> CooContainer<I, V> {
    pub fn new(row_indices: Vec<I>, col_indices: Vec<I>, values: Vec<V>, shape: (usize, usize)) -> (r:
        Self)
        ensures
            r.row_indices@ == row_indices@,
            r.col_indices@ == col_indices@,
            r.values@ == values@,
            r.shape == shape,
    {
        CooContainer { row_indices, col_indices, values, shape }
    }

    /// The nonzero entries of a dense matrix, in row-major order.
    pub fn from_ndarray(array: &DenseMatrix<V>) -> (r: Self)
        ensures
            coo_of_dense(r, array.spec_data(), array.spec_dim().0 as int, array.spec_dim().1 as int),
    {
        let shape = array.dim();
        let rows = shape.0;
        let ncols = shape.1;
        let data = array.as_slice();
        let ghost d = data@;
        let total = data.len();
        let mut row_indices: Vec<I> = Vec::new();
        let mut col_indices: Vec<I> = Vec::new();
        let mut values: Vec<V> = Vec::new();
        let mut i: usize = 0;
        while i < rows
            invariant
                i <= rows,
                d == data@,
                d.len() == rows * ncols,
                total == d.len(),
                encodes_entries(
                    row_indices@,
                    col_indices@,
                    values@,
                    dense_nonzeros(d, ncols as int, i as int),
                ),
            decreases rows - i,
        {
            let ghost before = dense_nonzeros(d, ncols as int, i as int);
            let mut j: usize = 0;
            while j < ncols
                invariant
                    i < rows,
                    j <= ncols,
                    d == data@,
                    d.len() == rows * ncols,
                total == d.len(),
                    encodes_entries(
                        row_indices@,
                        col_indices@,
                        values@,
                        before + row_nonzeros(d, ncols as int, i as int, j as int),
                    ),
                decreases ncols - j,
            {
                proof {
                    lemma_flat_index(i as int, j as int, rows as int, ncols as int);
                }
                let value = data[i * ncols + j];
                let ghost prev = before + row_nonzeros(d, ncols as int, i as int, j as int);
                if !value.is_zero() {
                    row_indices.push(I::from_usize(i));
                    col_indices.push(I::from_usize(j));
                    values.push(value);
                    assert(before + row_nonzeros(d, ncols as int, i as int, j + 1) =~= prev.push(
                        (i as int, j as int, value),
                    ));
                } else {
                    assert(before + row_nonzeros(d, ncols as int, i as int, j + 1) =~= prev);
                }
                j = j + 1;
            }
            assert(dense_nonzeros(d, ncols as int, i + 1) =~= before + row_nonzeros(
                d,
                ncols as int,
                i as int,
                ncols as int,
            ));
            i = i + 1;
        }
        CooContainer { row_indices, col_indices, values, shape }
    }
}

} // verus!

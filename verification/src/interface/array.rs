use vstd::prelude::*;

use crate::interface::error::{SparsersError, SparsersResult};
use crate::matrix::common::{index_seq, value_seq, Index, Scalar};
use crate::matrix::csr::{dense_fits_index, encodes_columns, CsrContainer};
use crate::matrix::dense::{
    dense_nonzeros,
    lemma_dense_nonzeros_bounds,
    lemma_dense_nonzeros_prefix,
    lemma_dense_nonzeros_row,
    lemma_flat_index,
    lemma_row_nonzeros_bounds,
    row_nonzeros,
    DenseMatrix,
};
use crate::matrix::kernel::{
    row_term,
    row_times_dense,
    row_times_dense_fits,
    spmm_dense,
    spmm_entry,
    spmm_entry_fits,
};

verus! {

/// The `p`-th product of row `i` of `a` (`a_cols` columns) with column `j` of `b` (`b_cols`
/// columns), both stored row by row.
pub open spec fn dense_term<V: Scalar>(
    a: Seq<V>,
    b: Seq<V>,
    a_cols: int,
    b_cols: int,
    i: int,
    j: int,
    p: int,
) -> int {
    a[i * a_cols + p].spec_value() * b[p * b_cols + j].spec_value()
}

/// The first `n` products of row `i` of `a` with column `j` of `b`, summed in order: with
/// `n == a_cols`, entry `(i, j)` of the matrix product.
pub open spec fn dense_dot<V: Scalar>(
    a: Seq<V>,
    b: Seq<V>,
    a_cols: int,
    b_cols: int,
    i: int,
    j: int,
    n: int,
) -> int
    decreases n,
{
    if n <= 0 {
        0
    } else {
        dense_dot(a, b, a_cols, b_cols, i, j, n - 1) + dense_term(a, b, a_cols, b_cols, i, j, n - 1)
    }
}

/// Every product, and every running sum, of the first `n` terms fits the value type.
pub open spec fn dense_dot_fits<V: Scalar>(
    a: Seq<V>,
    b: Seq<V>,
    a_cols: int,
    b_cols: int,
    i: int,
    j: int,
    n: int,
) -> bool {
    forall|p: int|
        0 <= p < n ==> V::spec_in_range(#[trigger] dense_term(a, b, a_cols, b_cols, i, j, p))
            && V::spec_in_range(dense_dot(a, b, a_cols, b_cols, i, j, p + 1))
}

/// A sparse row's sum depends only on its first `n` columns and values.
proof fn lemma_row_times_dense_prefix(
    c1: Seq<int>,
    v1: Seq<int>,
    c2: Seq<int>,
    v2: Seq<int>,
    b: Seq<int>,
    b_cols: int,
    j: int,
    n: int,
)
    requires
        forall|t: int| 0 <= t < n ==> c1[t] == c2[t] && v1[t] == v2[t],
    ensures
        row_times_dense(c1, v1, b, b_cols, j, n) == row_times_dense(c2, v2, b, b_cols, j, n),
    decreases n,
{
    if n > 0 {
        lemma_row_times_dense_prefix(c1, v1, c2, v2, b, b_cols, j, n - 1);
    }
}

/// Row `i`'s nonzeros among its first `p` columns, times column `j` of `b`, sum to the dense dot
/// product of those `p` columns; where every dense running sum fits, so does every sparse one.
proof fn lemma_nonzeros_times_dense<V: Scalar>(
    a: Seq<V>,
    b: Seq<V>,
    a_cols: int,
    b_cols: int,
    i: int,
    j: int,
    p: int,
)
    requires
        0 <= p <= a_cols,
        0 <= j < b_cols,
        b.len() >= a_cols * b_cols,
    ensures
        ({
            let row = row_nonzeros(a, a_cols, i, p);
            let cols = row.map_values(|e: (int, int, V)| e.1);
            let vals = row.map_values(|e: (int, int, V)| e.2.spec_value());
            &&& row_times_dense(cols, vals, value_seq(b), b_cols, j, row.len() as int) == dense_dot(
                a,
                b,
                a_cols,
                b_cols,
                i,
                j,
                p,
            )
            &&& dense_dot_fits::<V>(a, b, a_cols, b_cols, i, j, p) ==> row_times_dense_fits::<V>(
                cols,
                vals,
                value_seq(b),
                b_cols,
                j,
                row.len() as int,
            )
        }),
    decreases p,
{
    if p > 0 {
        let q = p - 1;
        lemma_nonzeros_times_dense(a, b, a_cols, b_cols, i, j, q);
        lemma_row_nonzeros_bounds(a, a_cols, i, q);
        let prev = row_nonzeros(a, a_cols, i, q);
        let pc = prev.map_values(|e: (int, int, V)| e.1);
        let pv = prev.map_values(|e: (int, int, V)| e.2.spec_value());
        let row = row_nonzeros(a, a_cols, i, p);
        let cols = row.map_values(|e: (int, int, V)| e.1);
        let vals = row.map_values(|e: (int, int, V)| e.2.spec_value());
        let bv = value_seq(b);
        let n = prev.len() as int;
        let v = a[i * a_cols + q];
        if v.spec_value() != 0 {
            assert(row == prev.push((i, q, v)));
            lemma_row_times_dense_prefix(cols, vals, pc, pv, bv, b_cols, j, n);
            assert(cols[n] == q);
            assert(vals[n] == v.spec_value());
            lemma_flat_index(q, j, a_cols, b_cols);
            assert(bv[q * b_cols + j] == b[q * b_cols + j].spec_value());
            assert(row_term(cols, vals, bv, b_cols, j, n) == dense_term(a, b, a_cols, b_cols, i, j, q));
            if dense_dot_fits::<V>(a, b, a_cols, b_cols, i, j, p) {
                assert(dense_dot_fits::<V>(a, b, a_cols, b_cols, i, j, q)) by {
                    assert forall|pp: int| 0 <= pp < q implies V::spec_in_range(
                        #[trigger] dense_term(a, b, a_cols, b_cols, i, j, pp),
                    ) && V::spec_in_range(dense_dot(a, b, a_cols, b_cols, i, j, pp + 1)) by {
                        assert(V::spec_in_range(dense_term(a, b, a_cols, b_cols, i, j, pp)));
                    }
                }
                assert(V::spec_in_range(dense_term(a, b, a_cols, b_cols, i, j, q)));
                assert forall|t: int| 0 <= t < n + 1 implies V::spec_in_range(
                    #[trigger] row_term(cols, vals, bv, b_cols, j, t),
                ) && V::spec_in_range(row_times_dense(cols, vals, bv, b_cols, j, t + 1)) by {
                    if t < n {
                        assert(row_term(cols, vals, bv, b_cols, j, t) == row_term(
                            pc,
                            pv,
                            bv,
                            b_cols,
                            j,
                            t,
                        ));
                        lemma_row_times_dense_prefix(cols, vals, pc, pv, bv, b_cols, j, t + 1);
                    } else {
                        lemma_flat_index(q, j, a_cols, b_cols);
                        assert(bv[q * b_cols + j] == b[q * b_cols + j].spec_value());
                        assert(row_term(cols, vals, bv, b_cols, j, t) == dense_term(
                            a,
                            b,
                            a_cols,
                            b_cols,
                            i,
                            j,
                            q,
                        ));
                    }
                }
            }
        } else {
            assert(row == prev);
            assert(dense_term(a, b, a_cols, b_cols, i, j, q) == 0);
            if dense_dot_fits::<V>(a, b, a_cols, b_cols, i, j, p) {
                assert(dense_dot_fits::<V>(a, b, a_cols, b_cols, i, j, q)) by {
                    assert forall|pp: int| 0 <= pp < q implies V::spec_in_range(
                        #[trigger] dense_term(a, b, a_cols, b_cols, i, j, pp),
                    ) && V::spec_in_range(dense_dot(a, b, a_cols, b_cols, i, j, pp + 1)) by {
                        assert(V::spec_in_range(dense_term(a, b, a_cols, b_cols, i, j, pp)));
                    }
                }
            }
        }
    }
}

/// Row `i` of the compressed-row form of dense `a`, times column `j` of `b`, is row `i` of `a`
/// times column `j` of `b`; where the dense running sums fit, so do the sparse ones.
proof fn lemma_csr_row_times_dense<I: Index, V: Scalar>(
    a: Seq<V>,
    b: Seq<V>,
    rows: int,
    a_cols: int,
    b_cols: int,
    row_ptrs: Seq<I>,
    col_indices: Seq<I>,
    values: Seq<V>,
    i: int,
    j: int,
)
    requires
        a.len() == rows * a_cols,
        b.len() == a_cols * b_cols,
        0 <= i < rows,
        0 <= j < b_cols,
        index_seq(row_ptrs).len() == rows + 1,
        forall|ii: int|
            0 <= ii <= rows ==> #[trigger] index_seq(row_ptrs)[ii] == dense_nonzeros(
                a,
                a_cols,
                ii,
            ).len(),
        encodes_columns(col_indices, values, dense_nonzeros(a, a_cols, rows)),
        forall|k: int|
            0 <= k < dense_nonzeros(a, a_cols, rows).len() ==> #[trigger] index_seq(col_indices)[k]
                == dense_nonzeros(a, a_cols, rows)[k].1,
    ensures
        spmm_entry(index_seq(row_ptrs), col_indices, values, b, b_cols, i, j) == dense_dot(
            a,
            b,
            a_cols,
            b_cols,
            i,
            j,
            a_cols,
        ),
        dense_dot_fits::<V>(a, b, a_cols, b_cols, i, j, a_cols) ==> spmm_entry_fits(
            index_seq(row_ptrs),
            col_indices,
            values,
            b,
            b_cols,
            i,
            j,
        ),
{
    let nz = dense_nonzeros(a, a_cols, rows);
    let rp = index_seq(row_ptrs);
    assert(0 <= a_cols) by (nonlinear_arith)
        requires
            a.len() == rows * a_cols,
            0 <= i < rows,
    ;
    lemma_dense_nonzeros_row(a, a_cols, i, rows);
    lemma_dense_nonzeros_prefix(a, a_cols, i + 1, rows);
    lemma_dense_nonzeros_prefix(a, a_cols, i, i + 1);
    lemma_dense_nonzeros_bounds(a, a_cols, rows);
    lemma_nonzeros_times_dense(a, b, a_cols, b_cols, i, j, a_cols);
    let row = row_nonzeros(a, a_cols, i, a_cols);
    let lo = rp[i];
    let hi = rp[i + 1];
    assert(nz.subrange(lo, hi) == row);
    assert(index_seq(col_indices).subrange(lo, hi) =~= row.map_values(|e: (int, int, V)| e.1)) by {
        assert forall|t: int| 0 <= t < hi - lo implies index_seq(col_indices)[lo + t]
            == #[trigger] row[t].1 by {
            assert(nz.subrange(lo, hi)[t] == nz[lo + t]);
        }
    }
    assert(value_seq(values).subrange(lo, hi) =~= row.map_values(
        |e: (int, int, V)| e.2.spec_value(),
    )) by {
        assert forall|t: int| 0 <= t < hi - lo implies value_seq(values)[lo + t] == (
        #[trigger] row[t]).2.spec_value() by {
            assert(nz.subrange(lo, hi)[t] == nz[lo + t]);
            assert(col_indices[lo + t] == I::spec_from_usize(nz[lo + t].1 as usize));
        }
    }
}

/// Dense times dense through the compressed-row form of the first factor.
///
/// Fails with `DimensionMismatch` when `sparse` has not as many columns as `dense` has rows;
/// otherwise entry `(i, j)` of the result is row `i` of `sparse` times column `j` of `dense`.
/// `I` is the index type of the compressed-row form built on the way.
pub fn spmm_ndarray<I: Index, V: Scalar>(sparse: &DenseMatrix<V>, dense: &DenseMatrix<V>) -> (r:
    SparsersResult<DenseMatrix<V>>)
    requires
        sparse.spec_dim().1 == dense.spec_dim().0 ==> {
            let a = sparse.spec_data();
            let b = dense.spec_data();
            let rows = sparse.spec_dim().0 as int;
            let a_cols = sparse.spec_dim().1 as int;
            let b_cols = dense.spec_dim().1 as int;
            &&& dense_fits_index::<I, V>(a, rows, a_cols)
            &&& rows * b_cols <= usize::MAX
            &&& forall|i: int, j: int|
                0 <= i < rows && 0 <= j < b_cols ==> #[trigger] dense_dot_fits::<V>(
                    a,
                    b,
                    a_cols,
                    b_cols,
                    i,
                    j,
                    a_cols,
                )
        },
    ensures
        sparse.spec_dim().1 != dense.spec_dim().0 ==> (r == Err::<DenseMatrix<V>, SparsersError>(
            SparsersError::DimensionMismatch {
                sparse_cols: sparse.spec_dim().1,
                dense_rows: dense.spec_dim().0,
            },
        )),
        sparse.spec_dim().1 == dense.spec_dim().0 ==> (r matches Ok(c) && {
            let rows = sparse.spec_dim().0 as int;
            let a_cols = sparse.spec_dim().1 as int;
            let b_cols = dense.spec_dim().1 as int;
            &&& c.spec_dim() == (sparse.spec_dim().0, dense.spec_dim().1)
            &&& forall|i: int, j: int|
                0 <= i < rows && 0 <= j < b_cols ==> (#[trigger] c.spec_data()[i * b_cols
                    + j]).spec_value() == dense_dot(
                    sparse.spec_data(),
                    dense.spec_data(),
                    a_cols,
                    b_cols,
                    i,
                    j,
                    a_cols,
                )
        }),
{
    let (sparse_row, sparse_col) = sparse.dim();
    let (dense_row, dense_col) = dense.dim();

    if sparse_col != dense_row {
        return Err(SparsersError::DimensionMismatch { sparse_cols: sparse_col, dense_rows: dense_row });
    }
    let ghost a = sparse.spec_data();
    let ghost b = dense.spec_data();
    let csr_matrix: CsrContainer<I, V> = CsrContainer::from_ndarray(sparse);
    let ghost rp = index_seq(csr_matrix.row_ptrs@);
    let ghost nz = dense_nonzeros(a, sparse_col as int, sparse_row as int);
    let n = sparse_row * dense_col;
    let mut output: Vec<V> = Vec::new();
    let mut k: usize = 0;
    while k < n
        invariant
            k <= n,
            output@.len() == k,
        decreases n - k,
    {
        output.push(V::zero());
        k = k + 1;
    }
    proof {
        assert forall|i: int, j: int|
            0 <= i < sparse_row && 0 <= j < dense_col implies #[trigger] spmm_entry_fits(
            rp,
            csr_matrix.col_indices@,
            csr_matrix.values@,
            b,
            dense_col as int,
            i,
            j,
        ) && spmm_entry(
            rp,
            csr_matrix.col_indices@,
            csr_matrix.values@,
            b,
            dense_col as int,
            i,
            j,
        ) == dense_dot(a, b, sparse_col as int, dense_col as int, i, j, sparse_col as int) by {
            lemma_csr_row_times_dense(
                a,
                b,
                sparse_row as int,
                sparse_col as int,
                dense_col as int,
                csr_matrix.row_ptrs@,
                csr_matrix.col_indices@,
                csr_matrix.values@,
                i,
                j,
            );
        }
    }
    spmm_dense(&csr_matrix, dense.as_slice(), output.as_mut_slice(), dense_col);
    proof {
        assert forall|i: int, j: int|
            0 <= i < sparse_row && 0 <= j < dense_col implies (#[trigger] output@[i * dense_col
            + j]).spec_value() == dense_dot(
            a,
            b,
            sparse_col as int,
            dense_col as int,
            i,
            j,
            sparse_col as int,
        ) by {
            assert(spmm_entry_fits(
                rp,
                csr_matrix.col_indices@,
                csr_matrix.values@,
                b,
                dense_col as int,
                i,
                j,
            ));
        }
    }
    Ok(DenseMatrix::from_parts((sparse_row, dense_col), output))
}

} // verus!

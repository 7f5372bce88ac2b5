use vstd::prelude::*;

use crate::matrix::common::Scalar;

verus! {

/// A dense matrix stored row by row: entry `(i, j)` sits at `i * ncols + j`.
pub struct DenseMatrix<V> {
    data: Vec<V>,
    shape: (usize, usize),
}

/// Position `(i, j)` of a `rows x ncols` row-major matrix lies inside its storage, and rows
/// follow one another without gaps.
pub proof fn lemma_flat_index(i: int, j: int, rows: int, ncols: int)
    by (nonlinear_arith)
    requires
        0 <= i < rows,
        0 <= j < ncols,
    ensures
        0 <= i * ncols,
        0 <= i * ncols + j < rows * ncols,
        (i + 1) * ncols == i * ncols + ncols,
        (i + 1) * ncols <= rows * ncols,
{
}

/// The nonzero entries `(i, j, value)` of row `i` among its first `j` columns, left to right.
pub open spec fn row_nonzeros<V: Scalar>(data: Seq<V>, ncols: int, i: int, j: int) -> Seq<
    (int, int, V),
>
    decreases j,
{
    if j <= 0 {
        Seq::empty()
    } else {
        let prev = row_nonzeros(data, ncols, i, j - 1);
        let v = data[i * ncols + j - 1];
        if v.spec_value() != 0 {
            prev.push((i, j - 1, v))
        } else {
            prev
        }
    }
}

/// The nonzero entries `(i, j, value)` of the first `r` rows, in row-major order.
pub open spec fn dense_nonzeros<V: Scalar>(data: Seq<V>, ncols: int, r: int) -> Seq<(int, int, V)>
    decreases r,
{
    if r <= 0 {
        Seq::empty()
    } else {
        dense_nonzeros(data, ncols, r - 1) + row_nonzeros(data, ncols, r - 1, ncols)
    }
}

/// The nonzero entries of row `i` sit in row `i`, in columns below `j`, in increasing column order.
pub proof fn lemma_row_nonzeros_bounds<V: Scalar>(data: Seq<V>, ncols: int, i: int, j: int)
    requires
        0 <= j,
    ensures
        row_nonzeros(data, ncols, i, j).len() <= j,
        forall|k: int|
            0 <= k < row_nonzeros(data, ncols, i, j).len() ==> {
                let e = #[trigger] row_nonzeros(data, ncols, i, j)[k];
                &&& e.0 == i
                &&& 0 <= e.1 < j
                &&& e.2 == data[i * ncols + e.1]
                &&& e.2.spec_value() != 0
            },
        forall|a: int, b: int|
            0 <= a < b < row_nonzeros(data, ncols, i, j).len() ==> #[trigger] row_nonzeros(
                data,
                ncols,
                i,
                j,
            )[a].1 < #[trigger] row_nonzeros(data, ncols, i, j)[b].1,
    decreases j,
{
    if j > 0 {
        lemma_row_nonzeros_bounds(data, ncols, i, j - 1);
    }
}

/// The nonzero entries of the first `r` rows sit in rows below `r`, inside the matrix.
pub proof fn lemma_dense_nonzeros_bounds<V: Scalar>(data: Seq<V>, ncols: int, r: int)
    requires
        0 <= r,
        0 <= ncols,
    ensures
        dense_nonzeros(data, ncols, r).len() <= r * ncols,
        forall|k: int|
            0 <= k < dense_nonzeros(data, ncols, r).len() ==> {
                let e = #[trigger] dense_nonzeros(data, ncols, r)[k];
                &&& 0 <= e.0 < r
                &&& 0 <= e.1 < ncols
                &&& e.2 == data[e.0 * ncols + e.1]
                &&& e.2.spec_value() != 0
            },
    decreases r,
{
    if r > 0 {
        lemma_dense_nonzeros_bounds(data, ncols, r - 1);
        lemma_row_nonzeros_bounds(data, ncols, r - 1, ncols);
        let a = dense_nonzeros(data, ncols, r - 1);
        let b = row_nonzeros(data, ncols, r - 1, ncols);
        assert((r - 1) * ncols + ncols == r * ncols) by (nonlinear_arith)
            requires
                r >= 1,
        ;
        assert forall|k: int| 0 <= k < dense_nonzeros(data, ncols, r).len() implies {
            let e = #[trigger] dense_nonzeros(data, ncols, r)[k];
            &&& 0 <= e.0 < r
            &&& 0 <= e.1 < ncols
            &&& e.2 == data[e.0 * ncols + e.1]
            &&& e.2.spec_value() != 0
        } by {
            if k < a.len() {
                assert(dense_nonzeros(data, ncols, r)[k] == a[k]);
            } else {
                assert(dense_nonzeros(data, ncols, r)[k] == b[k - a.len()]);
            }
        }
    }
}

/// The nonzeros of the first `r` rows are a prefix of those of the first `big` rows, and row `i`
/// fills the stretch between the prefixes of `i` and `i + 1` rows.
pub proof fn lemma_dense_nonzeros_prefix<V: Scalar>(data: Seq<V>, ncols: int, r: int, big: int)
    requires
        0 <= r <= big,
    ensures
        dense_nonzeros(data, ncols, r).len() <= dense_nonzeros(data, ncols, big).len(),
        dense_nonzeros(data, ncols, big).take(dense_nonzeros(data, ncols, r).len() as int)
            == dense_nonzeros(data, ncols, r),
    decreases big - r,
{
    if big > r {
        lemma_dense_nonzeros_prefix(data, ncols, r, big - 1);
        let a = dense_nonzeros(data, ncols, big - 1);
        let n = dense_nonzeros(data, ncols, r).len() as int;
        assert((a + row_nonzeros(data, ncols, big - 1, ncols)).take(n) =~= a.take(n));
    } else {
        assert(dense_nonzeros(data, ncols, big).take(dense_nonzeros(data, ncols, r).len() as int)
            =~= dense_nonzeros(data, ncols, r));
    }
}

/// Row `i`'s nonzeros sit, in the row-major list of all nonzeros, between the nonzeros of the
/// rows above it and those of the rows up to it.
pub proof fn lemma_dense_nonzeros_row<V: Scalar>(data: Seq<V>, ncols: int, i: int, big: int)
    requires
        0 <= i < big,
    ensures
        dense_nonzeros(data, ncols, i + 1).len() == dense_nonzeros(data, ncols, i).len()
            + row_nonzeros(data, ncols, i, ncols).len(),
        dense_nonzeros(data, ncols, big).subrange(
            dense_nonzeros(data, ncols, i).len() as int,
            dense_nonzeros(data, ncols, i + 1).len() as int,
        ) == row_nonzeros(data, ncols, i, ncols),
{
    lemma_dense_nonzeros_prefix(data, ncols, i + 1, big);
    let all = dense_nonzeros(data, ncols, big);
    let lo = dense_nonzeros(data, ncols, i).len() as int;
    let hi = dense_nonzeros(data, ncols, i + 1).len() as int;
    assert(dense_nonzeros(data, ncols, i + 1) == dense_nonzeros(data, ncols, i) + row_nonzeros(
        data,
        ncols,
        i,
        ncols,
    ));
    assert(all.subrange(lo, hi) =~= all.take(hi).subrange(lo, hi));
    assert(all.subrange(lo, hi) =~= row_nonzeros(data, ncols, i, ncols));
}

impl<V> DenseMatrix<V> {
    #[verifier::type_invariant]
    spec fn storage_matches_shape(self) -> bool {
        self.data@.len() == self.shape.0 * self.shape.1
    }

    /// `(rows, ncols)`.
    pub closed spec fn spec_dim(&self) -> (usize, usize) {
        self.shape
    }

    /// The entries, row by row.
    pub closed spec fn spec_data(&self) -> Seq<V> {
        self.data@
    }
}

impl<V: Scalar> DenseMatrix<V> {
    /// Builds a matrix of the given shape from its entries in row-major order, or `None` when
    /// the number of entries is not `rows * ncols`.
    pub fn from_shape_vec(shape: (usize, usize), data: Vec<V>) -> (r: Option<Self>)
        ensures
            r is Some <==> data@.len() == shape.0 * shape.1,
            r matches Some(m) ==> m.spec_dim() == shape && m.spec_data() == data@,
    {
        let len = data.len();
        match shape.0.checked_mul(shape.1) {
            Some(n) => {
                if n == len {
                    Some(DenseMatrix { data, shape })
                } else {
                    None
                }
            },
            None => None,
        }
    }

    /// A matrix of the given shape over entries that are known to number `rows * ncols`.
    pub(crate) fn from_parts(shape: (usize, usize), data: Vec<V>) -> (r: Self)
        requires
            data@.len() == shape.0 * shape.1,
        ensures
            r.spec_dim() == shape,
            r.spec_data() == data@,
    {
        DenseMatrix { data, shape }
    }

    /// A matrix of the given shape whose entries are all zero.
    pub fn zeros(shape: (usize, usize)) -> (r: Self)
        requires
            shape.0 * shape.1 <= usize::MAX,
        ensures
            r.spec_dim() == shape,
            r.spec_data().len() == shape.0 * shape.1,
            forall|k: int| 0 <= k < r.spec_data().len() ==> (#[trigger] r.spec_data()[k]).spec_value()
                == 0,
    {
        let n = shape.0 * shape.1;
        let mut data: Vec<V> = Vec::new();
        let mut k: usize = 0;
        while k < n
            invariant
                k <= n,
                data@.len() == k,
                forall|t: int| 0 <= t < k ==> (#[trigger] data@[t]).spec_value() == 0,
            decreases n - k,
        {
            data.push(V::zero());
            k = k + 1;
        }
        DenseMatrix { data, shape }
    }

    /// `(rows, ncols)`; the storage holds exactly `rows * ncols` entries.
    pub fn dim(&self) -> (r: (usize, usize))
        ensures
            r == self.spec_dim(),
            self.spec_data().len() == r.0 * r.1,
    {
        proof {
            use_type_invariant(self);
        }
        self.shape
    }

    /// The entries, row by row.
    pub fn as_slice(&self) -> (r: &[V])
        ensures
            r@ == self.spec_data(),
    {
        self.data.as_slice()
    }
}

} // verus!

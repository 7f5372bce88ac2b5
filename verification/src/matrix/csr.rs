use vstd::prelude::*;

use crate::matrix::common::{
    csr_wf,
    index_seq,
    row_readable,
    ExecutionPolicy,
    Index,
    RowChunkProducer,
    Scalar,
    SparseMatrix,
};
use crate::matrix::coo::{coo_entries, coo_index_entries, coo_of_dense, entry_view, CooContainer};
use crate::matrix::counting::{
    count_below,
    count_equal,
    keys_below,
    lemma_count_below_concat,
    lemma_count_below_none,
    lemma_count_below_permutation,
    lemma_count_ends,
    lemma_count_monotone,
    lemma_count_step,
    lemma_map_to_multiset,
    lemma_sorted_entries_are_csr,
    nondecreasing,
};
use crate::matrix::dense::{
    dense_nonzeros,
    lemma_dense_nonzeros_bounds,
    lemma_dense_nonzeros_prefix,
    lemma_dense_nonzeros_row,
    lemma_flat_index,
    lemma_row_nonzeros_bounds,
    row_nonzeros,
    DenseMatrix,
};

verus! {

/// Every nonzero of a dense matrix, and every column that holds one, fits the index type.
pub open spec fn dense_fits_index<I: Index, V: Scalar>(data: Seq<V>, rows: int, ncols: int) -> bool {
    let nz = dense_nonzeros(data, ncols, rows);
    &&& nz.len() <= I::max_index()
    &&& forall|k: int| 0 <= k < nz.len() ==> #[trigger] nz[k].1 <= I::max_index()
}

/// `cols` and `vals` list the columns and values of the nonzeros of the first `rows` rows.
spec fn lists_nonzeros<V: Scalar>(d: Seq<V>, ncols: int, rows: int, cols: Seq<int>, vals: Seq<V>) -> bool {
    &&& cols.len() == dense_nonzeros(d, ncols, rows).len()
    &&& vals.len() == dense_nonzeros(d, ncols, rows).len()
    &&& forall|k: int|
        0 <= k < cols.len() ==> #[trigger] cols[k] == dense_nonzeros(d, ncols, rows)[k].1
            && vals[k] == dense_nonzeros(d, ncols, rows)[k].2
}

/// Row offsets that count the nonzeros above each row, with the nonzeros' columns and values
/// in row-major order, read back the first `r` rows' nonzeros.
proof fn lemma_nonzeros_prefix_as_csr<V: Scalar>(
    d: Seq<V>,
    rows: int,
    ncols: int,
    rp: Seq<int>,
    cols: Seq<int>,
    vals: Seq<V>,
    r: int,
)
    requires
        0 <= r <= rows,
        0 <= ncols,
        rp.len() == rows + 1,
        forall|i: int| 0 <= i <= rows ==> #[trigger] rp[i] == dense_nonzeros(d, ncols, i).len(),
        lists_nonzeros(d, ncols, rows, cols, vals),
    ensures
        csr_entries(rp, cols, vals, r) == dense_nonzeros(d, ncols, r),
    decreases r,
{
    if r > 0 {
        let i = r - 1;
        lemma_nonzeros_prefix_as_csr(d, rows, ncols, rp, cols, vals, i);
        lemma_dense_nonzeros_row(d, ncols, i, rows);
        lemma_dense_nonzeros_prefix(d, ncols, r, rows);
        lemma_row_nonzeros_bounds(d, ncols, i, ncols);
        let all = dense_nonzeros(d, ncols, rows);
        let row = row_nonzeros(d, ncols, i, ncols);
        let lo = rp[i];
        assert forall|t: int| 0 <= t < row.len() implies #[trigger] row_entries(rp, cols, vals, i)[t]
            == row[t] by {
            assert(all.subrange(lo, rp[r])[t] == all[lo + t]);
        }
        assert(row_entries(rp, cols, vals, i) =~= row);
    }
}

/// The offsets, columns and values of a dense matrix's nonzeros in row-major order make a
/// well-formed compressed-row matrix that reads back exactly those nonzeros.
proof fn lemma_nonzeros_as_csr<V: Scalar>(
    d: Seq<V>,
    rows: int,
    ncols: int,
    rp: Seq<int>,
    cols: Seq<int>,
    vals: Seq<V>,
)
    requires
        0 <= rows,
        0 <= ncols,
        rp.len() == rows + 1,
        forall|i: int| 0 <= i <= rows ==> #[trigger] rp[i] == dense_nonzeros(d, ncols, i).len(),
        lists_nonzeros(d, ncols, rows, cols, vals),
    ensures
        csr_wf(rows, ncols, rp, cols, vals.len() as int),
        csr_entries(rp, cols, vals, rows) == dense_nonzeros(d, ncols, rows),
{
    lemma_nonzeros_prefix_as_csr(d, rows, ncols, rp, cols, vals, rows);
    lemma_dense_nonzeros_bounds(d, ncols, rows);
    assert forall|i: int, j: int| 0 <= i <= j <= rows implies #[trigger] rp[i] <= #[trigger] rp[j] by {
        lemma_dense_nonzeros_prefix(d, ncols, i, j);
    }
    assert forall|k: int| 0 <= k < cols.len() implies 0 <= #[trigger] cols[k] < ncols by {
        assert(cols[k] == dense_nonzeros(d, ncols, rows)[k].1);
    }
}

/// What converting `coo` to compressed-row form gives: `rows + 1` offsets, offset `i` being the
/// number of entries in rows above `i` written in the index type (so from 0 up to the number of
/// entries, never decreasing), and rows that together hold the entries of `coo`, each as often,
/// every column kept as the index value that `coo` gives it.
pub open spec fn csr_of_coo<I: Index, V: Scalar>(r: CsrContainer<I, V>, coo: CooContainer<I, V>) -> bool {
    let rows = coo.shape.0 as int;
    let rp = index_seq(r.row_ptrs@);
    &&& r.shape == coo.shape
    &&& rp.len() == rows + 1
    &&& rp[0] == 0
    &&& rp[rows] == coo.values@.len()
    &&& forall|i: int, j: int| 0 <= i <= j <= rows ==> #[trigger] rp[i] <= #[trigger] rp[j]
    &&& r.col_indices@.len() == coo.values@.len()
    &&& r.values@.len() == coo.values@.len()
    &&& forall|i: int|
        0 <= i <= rows ==> #[trigger] r.row_ptrs@[i] == I::spec_from_usize(
            count_below(
                coo_entries(coo.row_indices@, coo.col_indices@, coo.values@).map_values(
                    |e: (int, int, V)| e.0,
                ),
                i,
            ) as usize,
        )
    &&& csr_entries(rp, r.col_indices@, r.values@, rows).to_multiset() == coo_index_entries(
        coo.row_indices@,
        coo.col_indices@,
        coo.values@,
    ).to_multiset()
    &&& csr_entries(rp, index_seq(r.col_indices@), r.values@, rows).to_multiset() == coo_entries(
        coo.row_indices@,
        coo.col_indices@,
        coo.values@,
    ).to_multiset()
}

/// What converting the dense `rows x ncols` matrix `d` to compressed-row form gives: offset `i`
/// is the number of nonzeros above row `i`, and the columns and values list the nonzeros in
/// row-major order, positions written in the index type. Where those positions fit the index
/// type, the result is a well-formed matrix that reads back exactly the nonzeros.
pub open spec fn csr_of_dense<I: Index, V: Scalar>(
    r: CsrContainer<I, V>,
    d: Seq<V>,
    rows: int,
    ncols: int,
) -> bool {
    let nz = dense_nonzeros(d, ncols, rows);
    &&& r.shape == (rows as usize, ncols as usize)
    &&& r.row_ptrs@.len() == rows + 1
    &&& forall|i: int|
        0 <= i <= rows ==> #[trigger] r.row_ptrs@[i] == I::spec_from_usize(
            dense_nonzeros(d, ncols, i).len() as usize,
        )
    &&& encodes_columns(r.col_indices@, r.values@, nz)
    &&& dense_fits_index::<I, V>(d, rows, ncols) ==> {
        &&& csr_wf(
            rows,
            ncols,
            index_seq(r.row_ptrs@),
            index_seq(r.col_indices@),
            r.values@.len() as int,
        )
        &&& csr_entries(index_seq(r.row_ptrs@), index_seq(r.col_indices@), r.values@, rows) == nz
        &&& forall|i: int|
            0 <= i <= rows ==> #[trigger] index_seq(r.row_ptrs@)[i] == dense_nonzeros(
                d,
                ncols,
                i,
            ).len()
        &&& forall|k: int| 0 <= k < nz.len() ==> #[trigger] index_seq(r.col_indices@)[k] == nz[k].1
    }
}

/// The first `r` rows of a compressed-row matrix hold `rp[r]` entries, all in rows below `r`.
proof fn lemma_csr_entries_prefix<C, V>(rp: Seq<int>, cols: Seq<C>, vals: Seq<V>, r: int)
    requires
        0 <= r,
        r < rp.len(),
        rp[0] == 0,
        forall|i: int, j: int| 0 <= i <= j < rp.len() ==> #[trigger] rp[i] <= #[trigger] rp[j],
    ensures
        csr_entries(rp, cols, vals, r).len() == rp[r],
        forall|k: int|
            0 <= k < csr_entries(rp, cols, vals, r).len() ==> 0 <= (#[trigger] csr_entries(
                rp,
                cols,
                vals,
                r,
            )[k]).0 < r,
    decreases r,
{
    if r > 0 {
        lemma_csr_entries_prefix(rp, cols, vals, r - 1);
        assert(rp[r - 1] <= rp[r]);
        let a = csr_entries(rp, cols, vals, r - 1);
        let b = row_entries(rp, cols, vals, r - 1);
        assert forall|k: int| 0 <= k < csr_entries(rp, cols, vals, r).len() implies 0 <= (
        #[trigger] csr_entries(rp, cols, vals, r)[k]).0 < r by {
            if k < a.len() {
                assert(csr_entries(rp, cols, vals, r)[k] == a[k]);
            } else {
                assert(csr_entries(rp, cols, vals, r)[k] == b[k - a.len()]);
            }
        }
    }
}

/// In a compressed-row matrix, the entries in rows below `i` number `rp[i]`.
proof fn lemma_csr_count_below<C, V>(
    rp: Seq<int>,
    cols: Seq<C>,
    vals: Seq<V>,
    rows: int,
    i: int,
    r: int,
)
    requires
        0 <= i <= r <= rows,
        rp.len() == rows + 1,
        rp[0] == 0,
        forall|a: int, b: int| 0 <= a <= b <= rows ==> #[trigger] rp[a] <= #[trigger] rp[b],
    ensures
        count_below(csr_entries(rp, cols, vals, r).map_values(|e: (int, C, V)| e.0), i) == rp[i],
    decreases r,
{
    if r == i {
        lemma_csr_entries_prefix(rp, cols, vals, i);
        let keys = csr_entries(rp, cols, vals, i).map_values(|e: (int, C, V)| e.0);
        assert(keys_below(keys, i));
        lemma_count_ends(keys, i);
    } else {
        lemma_csr_count_below(rp, cols, vals, rows, i, r - 1);
        let a = csr_entries(rp, cols, vals, r - 1);
        let b = row_entries(rp, cols, vals, r - 1);
        let f = |e: (int, C, V)| e.0;
        assert(csr_entries(rp, cols, vals, r).map_values(f) =~= a.map_values(f) + b.map_values(f));
        lemma_count_below_concat(a.map_values(f), b.map_values(f), i);
        lemma_count_below_none(b.map_values(f), i);
    }
}

/// The row that offset `k` falls in among the first `r` rows.
pub open spec fn row_of(rp: Seq<int>, r: int, k: int) -> int
    decreases r,
{
    if r <= 0 {
        0
    } else if k >= rp[r - 1] {
        r - 1
    } else {
        row_of(rp, r - 1, k)
    }
}

/// Entry `k` of the first `r` rows is `(row_of(k), cols[k], vals[k])`.
proof fn lemma_csr_entries_pointwise<C, V>(rp: Seq<int>, cols: Seq<C>, vals: Seq<V>, r: int)
    requires
        0 <= r,
        r < rp.len(),
        rp[0] == 0,
        forall|i: int, j: int| 0 <= i <= j < rp.len() ==> #[trigger] rp[i] <= #[trigger] rp[j],
    ensures
        csr_entries(rp, cols, vals, r).len() == rp[r],
        forall|k: int|
            0 <= k < rp[r] ==> #[trigger] csr_entries(rp, cols, vals, r)[k] == (
                row_of(rp, r, k),
                cols[k],
                vals[k],
            ),
    decreases r,
{
    if r > 0 {
        lemma_csr_entries_pointwise(rp, cols, vals, r - 1);
        assert(rp[r - 1] <= rp[r]);
        let a = csr_entries(rp, cols, vals, r - 1);
        assert forall|k: int| 0 <= k < rp[r] implies #[trigger] csr_entries(rp, cols, vals, r)[k] == (
            row_of(rp, r, k),
            cols[k],
            vals[k],
        ) by {
            if k < a.len() {
                assert(csr_entries(rp, cols, vals, r)[k] == a[k]);
            }
        }
    }
}

/// The entries of row `i` are exactly the entries of the whole matrix that lie in row `i`.
proof fn lemma_row_entries_multiset<C, V>(rp: Seq<int>, cols: Seq<C>, vals: Seq<V>, r: int, i: int)
    requires
        0 <= i < r,
        r < rp.len(),
        forall|a: int, b: int| 0 <= a <= b < rp.len() ==> #[trigger] rp[a] <= #[trigger] rp[b],
    ensures
        row_entries(rp, cols, vals, i).to_multiset() == csr_entries(rp, cols, vals, r).to_multiset().filter(
            |e: (int, C, V)| e.0 == i,
        ),
    decreases r,
{
    broadcast use vstd::seq_lib::group_to_multiset_ensures;
    broadcast use vstd::multiset::group_multiset_axioms;

    let f = |e: (int, C, V)| e.0 == i;
    let row = row_entries(rp, cols, vals, i);
    assert forall|x: (int, C, V)| x.0 != i implies row.to_multiset().count(x) == 0 by {
        if row.to_multiset().count(x) > 0 {
            assert(row.contains(x));
        }
    }
    let last = row_entries(rp, cols, vals, r - 1);
    let a = csr_entries(rp, cols, vals, r - 1);
    assert(csr_entries(rp, cols, vals, r) == a + last);
    vstd::seq_lib::lemma_multiset_commutative(a, last);
    if r - 1 == i {
        assert forall|x: (int, C, V)| x.0 == i implies a.to_multiset().count(x) == 0 by {
            lemma_csr_entries_rows_below(rp, cols, vals, r - 1);
            if a.to_multiset().count(x) > 0 {
                assert(a.contains(x));
            }
        }
    } else {
        lemma_row_entries_multiset(rp, cols, vals, r - 1, i);
        assert forall|x: (int, C, V)| x.0 == i implies last.to_multiset().count(x) == 0 by {
            if last.to_multiset().count(x) > 0 {
                assert(last.contains(x));
            }
        }
    }
    assert(row.to_multiset() =~= csr_entries(rp, cols, vals, r).to_multiset().filter(f));
}

/// The entries of the first `r` rows all lie in rows below `r`.
proof fn lemma_csr_entries_rows_below<C, V>(rp: Seq<int>, cols: Seq<C>, vals: Seq<V>, r: int)
    ensures
        forall|k: int|
            0 <= k < csr_entries(rp, cols, vals, r).len() ==> (#[trigger] csr_entries(
                rp,
                cols,
                vals,
                r,
            )[k]).0 < r,
    decreases r,
{
    if r > 0 {
        lemma_csr_entries_rows_below(rp, cols, vals, r - 1);
        let a = csr_entries(rp, cols, vals, r - 1);
        let b = row_entries(rp, cols, vals, r - 1);
        assert forall|k: int| 0 <= k < csr_entries(rp, cols, vals, r).len() implies (
        #[trigger] csr_entries(rp, cols, vals, r)[k]).0 < r by {
            if k < a.len() {
                assert(csr_entries(rp, cols, vals, r)[k] == a[k]);
            } else {
                assert(csr_entries(rp, cols, vals, r)[k] == b[k - a.len()]);
            }
        }
    }
}

/// Converting a dense matrix to compressed-row form directly, or through its coordinate list,
/// gives the same shape, the same row offsets (as index values), as many values, and in every
/// row the same entries, each as often, wherever the nonzeros' positions fit the index type.
pub proof fn lemma_conversions_agree<I: Index, V: Scalar>(
    d: Seq<V>,
    rows: usize,
    ncols: usize,
    coo: CooContainer<I, V>,
    via_coo: CsrContainer<I, V>,
    direct: CsrContainer<I, V>,
)
    requires
        d.len() == rows * ncols,
        dense_fits_index::<I, V>(d, rows as int, ncols as int),
        forall|k: int|
            0 <= k < dense_nonzeros(d, ncols as int, rows as int).len() ==> #[trigger] dense_nonzeros(
                d,
                ncols as int,
                rows as int,
            )[k].0 <= I::max_index(),
        coo_of_dense(coo, d, rows as int, ncols as int),
        csr_of_coo(via_coo, coo),
        csr_of_dense(direct, d, rows as int, ncols as int),
    ensures
        via_coo.shape == direct.shape,
        via_coo.row_ptrs@ == direct.row_ptrs@,
        via_coo.values@.len() == direct.values@.len(),
        forall|i: int|
            0 <= i < rows ==> (#[trigger] row_entries(
                index_seq(via_coo.row_ptrs@),
                via_coo.col_indices@,
                via_coo.values@,
                i,
            )).to_multiset() == row_entries(
                index_seq(direct.row_ptrs@),
                direct.col_indices@,
                direct.values@,
                i,
            ).to_multiset(),
        index_seq(via_coo.row_ptrs@) == index_seq(direct.row_ptrs@),
        csr_entries(
            index_seq(via_coo.row_ptrs@),
            index_seq(via_coo.col_indices@),
            via_coo.values@,
            rows as int,
        ).to_multiset() == csr_entries(
            index_seq(direct.row_ptrs@),
            index_seq(direct.col_indices@),
            direct.values@,
            rows as int,
        ).to_multiset(),
{
    let nz = dense_nonzeros(d, ncols as int, rows as int);
    lemma_dense_nonzeros_bounds(d, ncols as int, rows as int);
    let ce = coo_entries(coo.row_indices@, coo.col_indices@, coo.values@);
    assert forall|k: int| 0 <= k < nz.len() implies #[trigger] ce[k] == nz[k] by {
        assert(coo.row_indices@[k] == I::spec_from_usize(nz[k].0 as usize));
        assert(nz[k].0 <= I::max_index());
        assert(nz[k].1 <= I::max_index());
        I::lemma_round_trip(nz[k].0 as usize);
        I::lemma_round_trip(nz[k].1 as usize);
    }
    assert(ce =~= nz);
    let via_rp = index_seq(via_coo.row_ptrs@);
    let dir_rp = index_seq(direct.row_ptrs@);
    let via_e = csr_entries(via_rp, index_seq(via_coo.col_indices@), via_coo.values@, rows as int);
    let dir_e = csr_entries(dir_rp, index_seq(direct.col_indices@), direct.values@, rows as int);
    assert(dir_e == nz);
    assert forall|i: int| 0 <= i <= rows implies #[trigger] via_rp[i] == dir_rp[i] by {
        lemma_csr_count_below(
            via_rp,
            index_seq(via_coo.col_indices@),
            via_coo.values@,
            rows as int,
            i,
            rows as int,
        );
        lemma_csr_count_below(
            dir_rp,
            index_seq(direct.col_indices@),
            direct.values@,
            rows as int,
            i,
            rows as int,
        );
        lemma_count_below_permutation(via_e, dir_e, i);
    }
    assert(via_rp =~= dir_rp);
    // the offsets as index values
    assert forall|i: int| 0 <= i <= rows implies #[trigger] via_coo.row_ptrs@[i]
        == direct.row_ptrs@[i] by {
        lemma_csr_count_below(
            dir_rp,
            index_seq(direct.col_indices@),
            direct.values@,
            rows as int,
            i,
            rows as int,
        );
        assert(ce.map_values(|e: (int, int, V)| e.0) =~= dir_e.map_values(|e: (int, int, V)| e.0));
    }
    assert(via_coo.row_ptrs@ =~= direct.row_ptrs@);
    // the entries with their columns as index values
    let t = coo_index_entries(coo.row_indices@, coo.col_indices@, coo.values@);
    let dir_ie = csr_entries(dir_rp, direct.col_indices@, direct.values@, rows as int);
    let via_ie = csr_entries(via_rp, via_coo.col_indices@, via_coo.values@, rows as int);
    lemma_csr_entries_pointwise(dir_rp, direct.col_indices@, direct.values@, rows as int);
    lemma_csr_entries_pointwise(dir_rp, index_seq(direct.col_indices@), direct.values@, rows as int);
    assert forall|k: int| 0 <= k < nz.len() implies #[trigger] dir_ie[k] == t[k] by {
        assert(dir_e[k] == nz[k]);
        assert(direct.col_indices@[k] == I::spec_from_usize(nz[k].1 as usize));
        I::lemma_round_trip(nz[k].0 as usize);
    }
    assert(dir_ie =~= t);
    assert forall|i: int| 0 <= i < rows implies (#[trigger] row_entries(
        via_rp,
        via_coo.col_indices@,
        via_coo.values@,
        i,
    )).to_multiset() == row_entries(dir_rp, direct.col_indices@, direct.values@, i).to_multiset() by {
        lemma_row_entries_multiset(via_rp, via_coo.col_indices@, via_coo.values@, rows as int, i);
        lemma_row_entries_multiset(dir_rp, direct.col_indices@, direct.values@, rows as int, i);
    }
}

/// Whether the row positions of the entries `s` never decrease.
pub open spec fn sorted_by_row<I: Index, V>(s: Seq<(I, I, V)>) -> bool {
    forall|a: int, b: int|
        0 <= a <= b < s.len() ==> (#[trigger] s[a]).0.spec_to_usize() <= (#[trigger] s[
            b
        ]).0.spec_to_usize()
}

/// Merges two runs that are sorted by row into one sorted run holding the entries of both,
/// each as often; on equal rows the left run's entry comes first.
fn merge_by_row<I: Index, V: Scalar>(left: Vec<(I, I, V)>, right: Vec<(I, I, V)>) -> (r: Vec<
    (I, I, V),
>)
    requires
        sorted_by_row(left@),
        sorted_by_row(right@),
    ensures
        sorted_by_row(r@),
        r@.to_multiset() == left@.to_multiset().add(right@.to_multiset()),
{
    broadcast use vstd::seq_lib::group_to_multiset_ensures;
    broadcast use vstd::multiset::group_multiset_axioms;

    let mut out: Vec<(I, I, V)> = Vec::new();
    let mut i: usize = 0;
    let mut j: usize = 0;
    proof {
        assert(left@.take(0) =~= Seq::<(I, I, V)>::empty());
        assert(right@.take(0) =~= Seq::<(I, I, V)>::empty());
        assert(out@.to_multiset() =~= left@.take(0).to_multiset().add(right@.take(0).to_multiset()));
    }
    while i < left.len() || j < right.len()
        invariant
            i <= left@.len(),
            j <= right@.len(),
            sorted_by_row(left@),
            sorted_by_row(right@),
            sorted_by_row(out@),
            out@.len() == i + j,
            out@.to_multiset() == left@.take(i as int).to_multiset().add(
                right@.take(j as int).to_multiset(),
            ),
            out@.len() > 0 && i < left@.len() ==> out@.last().0.spec_to_usize()
                <= left@[i as int].0.spec_to_usize(),
            out@.len() > 0 && j < right@.len() ==> out@.last().0.spec_to_usize()
                <= right@[j as int].0.spec_to_usize(),
        decreases left@.len() + right@.len() - i - j,
    {
        let take_left = if j >= right.len() {
            true
        } else if i >= left.len() {
            false
        } else {
            left[i].0.to_usize() <= right[j].0.to_usize()
        };
        let ghost before = out@;
        if take_left {
            let e = left[i];
            out.push(e);
            proof {
                assert(left@.take(i + 1) =~= left@.take(i as int).push(e));
                assert(out@ =~= before.push(e));
                vstd::seq_lib::to_multiset_build(before, e);
                vstd::seq_lib::to_multiset_build(left@.take(i as int), e);
                assert(out@.to_multiset() =~= left@.take(i + 1).to_multiset().add(
                    right@.take(j as int).to_multiset(),
                ));
                assert forall|a: int, b: int| 0 <= a <= b < out@.len() implies (
                #[trigger] out@[a]).0.spec_to_usize() <= (#[trigger] out@[b]).0.spec_to_usize() by {
                    if b == out@.len() - 1 && a < b {
                        assert(before[a].0.spec_to_usize() <= before.last().0.spec_to_usize());
                    } else if b < out@.len() - 1 {
                        assert(out@[a] == before[a] && out@[b] == before[b]);
                    }
                }
            }
            i = i + 1;
        } else {
            let e = right[j];
            out.push(e);
            proof {
                assert(right@.take(j + 1) =~= right@.take(j as int).push(e));
                assert(out@ =~= before.push(e));
                vstd::seq_lib::to_multiset_build(before, e);
                vstd::seq_lib::to_multiset_build(right@.take(j as int), e);
                assert(out@.to_multiset() =~= left@.take(i as int).to_multiset().add(
                    right@.take(j + 1).to_multiset(),
                ));
                assert forall|a: int, b: int| 0 <= a <= b < out@.len() implies (
                #[trigger] out@[a]).0.spec_to_usize() <= (#[trigger] out@[b]).0.spec_to_usize() by {
                    if b == out@.len() - 1 && a < b {
                        assert(before[a].0.spec_to_usize() <= before.last().0.spec_to_usize());
                    } else if b < out@.len() - 1 {
                        assert(out@[a] == before[a] && out@[b] == before[b]);
                    }
                }
            }
            j = j + 1;
        }
    }
    proof {
        assert(left@.take(i as int) =~= left@);
        assert(right@.take(j as int) =~= right@);
    }
    out
}

/// Sorts the entries `v[lo..hi]` by row: the result holds those entries, each as often, with
/// row positions that never decrease.
fn sort_run_by_row<I: Index, V: Scalar>(v: &Vec<(I, I, V)>, lo: usize, hi: usize) -> (r: Vec<
    (I, I, V),
>)
    requires
        lo <= hi <= v@.len(),
    ensures
        sorted_by_row(r@),
        r@.to_multiset() == v@.subrange(lo as int, hi as int).to_multiset(),
    decreases hi - lo,
{
    broadcast use vstd::seq_lib::group_to_multiset_ensures;

    if hi - lo <= 1 {
        let mut r: Vec<(I, I, V)> = Vec::new();
        if hi - lo == 1 {
            r.push(v[lo]);
        }
        proof {
            assert(r@ =~= v@.subrange(lo as int, hi as int));
        }
        r
    } else {
        let mid = lo + (hi - lo) / 2;
        let left = sort_run_by_row(v, lo, mid);
        let right = sort_run_by_row(v, mid, hi);
        proof {
            assert(v@.subrange(lo as int, hi as int) =~= v@.subrange(lo as int, mid as int) + v@.subrange(
                mid as int,
                hi as int,
            ));
            vstd::seq_lib::lemma_multiset_commutative(
                v@.subrange(lo as int, mid as int),
                v@.subrange(mid as int, hi as int),
            );
        }
        merge_by_row(left, right)
    }
}

/// Sorts entries by their row position (a merge sort): the entries after the call are those
/// before, each as often, and their row positions never decrease.
fn sort_entries_by_row<I: Index, V: Scalar>(entries: &mut Vec<(I, I, V)>)
    ensures
        final(entries)@.to_multiset() == old(entries)@.to_multiset(),
        forall|a: int, b: int|
            0 <= a <= b < final(entries)@.len() ==> (#[trigger] final(entries)@[a]).0.spec_to_usize()
                <= (#[trigger] final(entries)@[b]).0.spec_to_usize(),
{
    let n = entries.len();
    let sorted = sort_run_by_row(entries, 0, n);
    proof {
        assert(entries@.subrange(0, n as int) =~= entries@);
    }
    *entries = sorted;
}

/// Two parallel lists hold the columns and values of the entries `nz`, each column written in the
/// index type.
pub open spec fn encodes_columns<I: Index, V: Scalar>(
    col_indices: Seq<I>,
    values: Seq<V>,
    nz: Seq<(int, int, V)>,
) -> bool {
    &&& col_indices.len() == nz.len()
    &&& values.len() == nz.len()
    &&& forall|k: int|
        0 <= k < nz.len() ==> {
            &&& #[trigger] col_indices[k] == I::spec_from_usize(nz[k].1 as usize)
            &&& values[k] == nz[k].2
        }
}

/// The entries `(i, column, value)` of row `i` of a compressed-row matrix, in storage order.
pub open spec fn row_entries<C, V>(rp: Seq<int>, cols: Seq<C>, vals: Seq<V>, i: int) -> Seq<
    (int, C, V),
> {
    Seq::new((rp[i + 1] - rp[i]) as nat, |t: int| (i, cols[rp[i] + t], vals[rp[i] + t]))
}

/// The entries of the first `r` rows of a compressed-row matrix, row after row.
pub open spec fn csr_entries<C, V>(rp: Seq<int>, cols: Seq<C>, vals: Seq<V>, r: int) -> Seq<
    (int, C, V),
>
    decreases r,
{
    if r <= 0 {
        Seq::empty()
    } else {
        csr_entries(rp, cols, vals, r - 1) + row_entries(rp, cols, vals, r - 1)
    }
}

/// A sparse matrix in compressed-row form that owns its arrays.
///
/// Row `i` holds the entries `row_ptrs[i] .. row_ptrs[i + 1]` of `col_indices` and `values`.
pub struct CsrContainer<I: Index, V> {
    pub row_ptrs: Vec<I>,
    pub col_indices: Vec<I>,
    pub values: Vec<V>,
    pub shape: (usize, usize),
}

impl<I: Index, V: Scalar> CsrContainer<I, V> {
    pub fn new(shape: (usize, usize), row_ptrs: Vec<I>, col_indices: Vec<I>, values: Vec<V>) -> (r:
        Self)
        ensures
            r.shape == shape,
            r.row_ptrs@ == row_ptrs@,
            r.col_indices@ == col_indices@,
            r.values@ == values@,
    {
        CsrContainer { shape, row_ptrs, col_indices, values }
    }

    /// The compressed-row form of a coordinate-list matrix: the same entries, each as often,
    /// grouped by row in increasing row order, with row `i` spanning the offsets
    /// `row_ptrs[i] .. row_ptrs[i + 1]`. Entries of one row keep no particular order.
    pub fn from_coo(coo: &CooContainer<I, V>) -> (r: CsrContainer<I, V>)
        requires
            coo.values@.len() <= coo.row_indices@.len(),
            coo.values@.len() <= coo.col_indices@.len(),
            coo.shape.0 < usize::MAX,
            coo.values@.len() <= I::max_index(),
            forall|k: int|
                0 <= k < coo.values@.len() ==> (#[trigger] coo.row_indices@[k]).spec_to_usize()
                    < coo.shape.0,
        ensures
            csr_of_coo(r, *coo),
    {
        let rows = coo.shape.0;
        let nnz = coo.values.len();
        let mut entries: Vec<(I, I, V)> = Vec::new();
        let mut idx: usize = 0;
        while idx < nnz
            invariant
                idx <= nnz,
                nnz == coo.values@.len(),
                nnz <= coo.row_indices@.len(),
                nnz <= coo.col_indices@.len(),
                entries@ == Seq::new(
                    idx as nat,
                    |k: int| (coo.row_indices@[k], coo.col_indices@[k], coo.values@[k]),
                ),
            decreases nnz - idx,
        {
            entries.push((coo.row_indices[idx], coo.col_indices[idx], coo.values[idx]));
            idx = idx + 1;
        }
        let ghost unsorted = entries@;
        sort_entries_by_row(&mut entries);
        let ghost sorted = entries@;
        let ghost view = sorted.map_values(|e: (I, I, V)| entry_view(e));
        let ghost keys = view.map_values(|e: (int, int, V)| e.0);
        proof {
            broadcast use vstd::seq_lib::group_to_multiset_ensures;

            assert(sorted.len() == nnz) by {
                assert(sorted.to_multiset().len() == unsorted.to_multiset().len());
            }
            lemma_map_to_multiset(unsorted, sorted, |e: (I, I, V)| entry_view(e));
            assert(unsorted.map_values(|e: (I, I, V)| entry_view(e)) =~= coo_entries(
                coo.row_indices@,
                coo.col_indices@,
                coo.values@,
            ));
            assert forall|k: int| 0 <= k < nnz implies 0 <= #[trigger] keys[k] < rows by {
                assert(unsorted.to_multiset().count(sorted[k]) > 0);
                assert(unsorted.contains(sorted[k]));
            }
            assert(nondecreasing(keys));
            assert(keys_below(keys, rows as int));
            I::lemma_round_trip(0);
        }

        let mut row_ptrs: Vec<I> = Vec::new();
        let mut t: usize = 0;
        while t <= rows
            invariant
                t <= rows + 1,
                rows < usize::MAX,
                row_ptrs@.len() == t,
                I::spec_from_usize(0).spec_to_usize() == 0,
                forall|q: int| 0 <= q < t ==> #[trigger] row_ptrs@[q] == I::spec_from_usize(0),
            decreases rows + 1 - t,
        {
            row_ptrs.push(I::from_usize(0));
            t = t + 1;
        }
        proof {
            assert(keys.take(0) =~= Seq::<int>::empty());
        }

        let mut k: usize = 0;
        while k < nnz
            invariant
                k <= nnz,
                nnz == sorted.len(),
                nnz <= I::max_index(),
                entries@ == sorted,
                keys == sorted.map_values(|e: (I, I, V)| entry_view(e)).map_values(
                    |e: (int, int, V)| e.0,
                ),
                keys_below(keys, rows as int),
                row_ptrs@.len() == rows + 1,
                I::spec_from_usize(0).spec_to_usize() == 0,
                row_ptrs@[0] == I::spec_from_usize(0),
                forall|q: int|
                    1 <= q <= rows ==> (#[trigger] row_ptrs@[q]).spec_to_usize() == count_equal(
                        keys.take(k as int),
                        q - 1,
                    ),
            decreases nnz - k,
        {
            let r = entries[k].0.to_usize();
            assert(keys[k as int] == r as int);
            let cur = row_ptrs[r + 1].to_usize();
            proof {
                lemma_count_step(keys.take(k as int), r as int);
                assert(keys.take(k + 1).drop_last() =~= keys.take(k as int));
                I::lemma_round_trip((cur + 1) as usize);
            }
            row_ptrs[r + 1] = I::from_usize(cur + 1);
            proof {
                assert forall|q: int| 1 <= q <= rows implies (#[trigger] row_ptrs@[q]).spec_to_usize()
                    == count_equal(keys.take(k + 1), q - 1) by {
                    assert(keys.take(k + 1).drop_last() =~= keys.take(k as int));
                    assert(keys.take(k + 1).last() == r);
                }
            }
            k = k + 1;
        }
        proof {
            assert(keys.take(nnz as int) =~= keys);
            lemma_count_ends(keys, rows as int);
        }

        let mut i: usize = 0;
        while i < rows
            invariant
                i <= rows,
                nnz == keys.len(),
                nnz <= I::max_index(),
                keys_below(keys, rows as int),
                row_ptrs@.len() == rows + 1,
                forall|q: int|
                    0 <= q <= i ==> (#[trigger] row_ptrs@[q]).spec_to_usize() == count_below(keys, q),
                forall|q: int|
                    0 <= q <= i ==> #[trigger] row_ptrs@[q] == I::spec_from_usize(
                        count_below(keys, q) as usize,
                    ),
                forall|q: int|
                    i < q <= rows ==> (#[trigger] row_ptrs@[q]).spec_to_usize() == count_equal(
                        keys,
                        q - 1,
                    ),
            decreases rows - i,
        {
            proof {
                lemma_count_ends(keys, rows as int);
                lemma_count_step(keys, i as int);
            }
            let prev = row_ptrs[i].to_usize();
            let curr = row_ptrs[i + 1].to_usize();
            proof {
                I::lemma_round_trip((prev + curr) as usize);
                assert(prev + curr == count_below(keys, i + 1));
            }
            row_ptrs[i + 1] = I::from_usize(prev + curr);
            i = i + 1;
        }

        let mut col_indices: Vec<I> = Vec::new();
        let mut values: Vec<V> = Vec::new();
        let mut k: usize = 0;
        while k < nnz
            invariant
                k <= nnz,
                nnz == sorted.len(),
                entries@ == sorted,
                col_indices@ == Seq::new(k as nat, |q: int| sorted[q].1),
                values@ == Seq::new(k as nat, |q: int| sorted[q].2),
            decreases nnz - k,
        {
            col_indices.push(entries[k].1);
            values.push(entries[k].2);
            k = k + 1;
        }
        proof {
            let rp = index_seq(row_ptrs@);
            let rp_counted = Seq::new((rows + 1) as nat, |q: int| count_below(keys, q) as int);
            assert(rp =~= rp_counted);
            assert(index_seq(col_indices@) =~= view.map_values(|e: (int, int, V)| e.1));
            assert(values@ =~= view.map_values(|e: (int, int, V)| e.2));
            lemma_sorted_entries_are_csr(view, rows as int);
            lemma_count_ends(keys, rows as int);
            let ce = coo_entries(coo.row_indices@, coo.col_indices@, coo.values@);
            assert forall|q: int| 0 <= q <= rows implies #[trigger] row_ptrs@[q] == I::spec_from_usize(
                count_below(ce.map_values(|e: (int, int, V)| e.0), q) as usize,
            ) by {
                lemma_count_below_permutation(view, ce, q);
            }
            let f2 = |e: (I, I, V)| (e.0.spec_to_usize() as int, e.1, e.2);
            let view2 = sorted.map_values(f2);
            lemma_map_to_multiset(unsorted, sorted, f2);
            assert(unsorted.map_values(f2) =~= coo_index_entries(
                coo.row_indices@,
                coo.col_indices@,
                coo.values@,
            ));
            assert(view2.map_values(|e: (int, I, V)| e.0) =~= keys);
            assert(col_indices@ =~= view2.map_values(|e: (int, I, V)| e.1));
            assert(values@ =~= view2.map_values(|e: (int, I, V)| e.2));
            lemma_sorted_entries_are_csr(view2, rows as int);
            assert forall|a: int, b: int| 0 <= a <= b <= rows implies #[trigger] rp[a]
                <= #[trigger] rp[b] by {
                lemma_count_monotone(keys, a, b);
            }
        }
        CsrContainer { shape: coo.shape, row_ptrs, col_indices, values }
    }

    /// The compressed-row form of a dense matrix: its nonzero entries in row-major order, with
    /// row `i` starting after the nonzeros of the rows above it.
    pub fn from_ndarray(array: &DenseMatrix<V>) -> (r: Self)
        ensures
            csr_of_dense(
                r,
                array.spec_data(),
                array.spec_dim().0 as int,
                array.spec_dim().1 as int,
            ),
    {
        let shape = array.dim();
        let rows = shape.0;
        let ncols = shape.1;
        let data = array.as_slice();
        let ghost d = data@;
        let total = data.len();
        let mut row_ptrs: Vec<I> = Vec::new();
        let mut col_indices: Vec<I> = Vec::new();
        let mut values: Vec<V> = Vec::new();
        row_ptrs.push(I::from_usize(0));
        let mut i: usize = 0;
        while i < rows
            invariant
                i <= rows,
                d == data@,
                d.len() == rows * ncols,
                total == d.len(),
                row_ptrs@.len() == i + 1,
                forall|t: int|
                    0 <= t <= i ==> #[trigger] row_ptrs@[t] == I::spec_from_usize(
                        dense_nonzeros(d, ncols as int, t).len() as usize,
                    ),
                encodes_columns(col_indices@, values@, dense_nonzeros(d, ncols as int, i as int)),
            decreases rows - i,
        {
            let ghost before = dense_nonzeros(d, ncols as int, i as int);
            let mut j: usize = 0;
            while j < ncols
                invariant
                    i < rows,
                    j <= ncols,
                    d == data@,
                    d.len() == rows * ncols,
                    total == d.len(),
                    encodes_columns(
                        col_indices@,
                        values@,
                        before + row_nonzeros(d, ncols as int, i as int, j as int),
                    ),
                decreases ncols - j,
            {
                proof {
                    lemma_flat_index(i as int, j as int, rows as int, ncols as int);
                }
                let value = data[i * ncols + j];
                let ghost prev = before + row_nonzeros(d, ncols as int, i as int, j as int);
                if !value.is_zero() {
                    col_indices.push(I::from_usize(j));
                    values.push(value);
                    assert(before + row_nonzeros(d, ncols as int, i as int, j + 1) =~= prev.push(
                        (i as int, j as int, value),
                    ));
                } else {
                    assert(before + row_nonzeros(d, ncols as int, i as int, j + 1) =~= prev);
                }
                j = j + 1;
            }
            assert(dense_nonzeros(d, ncols as int, i + 1) =~= before + row_nonzeros(
                d,
                ncols as int,
                i as int,
                ncols as int,
            ));
            row_ptrs.push(I::from_usize(values.len()));
            i = i + 1;
        }
        let nnz = values.len();
        proof {
            let nz = dense_nonzeros(d, ncols as int, rows as int);
            assert(nz.len() == nnz);
            if dense_fits_index::<I, V>(d, rows as int, ncols as int) {
                let rp = index_seq(row_ptrs@);
                let cs = index_seq(col_indices@);
                assert forall|t: int| 0 <= t <= rows implies #[trigger] rp[t] == dense_nonzeros(
                    d,
                    ncols as int,
                    t,
                ).len() by {
                    lemma_dense_nonzeros_prefix(d, ncols as int, t, rows as int);
                    I::lemma_round_trip(dense_nonzeros(d, ncols as int, t).len() as usize);
                }
                let vs = values@;
                assert forall|k: int| 0 <= k < cs.len() implies #[trigger] cs[k] == dense_nonzeros(
                    d,
                    ncols as int,
                    rows as int,
                )[k].1 && vs[k] == dense_nonzeros(d, ncols as int, rows as int)[k].2 by {
                    lemma_dense_nonzeros_bounds(d, ncols as int, rows as int);
                    assert(col_indices@[k] == I::spec_from_usize(nz[k].1 as usize));
                    assert(nz[k].1 <= I::max_index());
                    assert(0 <= nz[k].1 < ncols);
                    I::lemma_round_trip(nz[k].1 as usize);
                    assert(cs[k] == col_indices@[k].spec_to_usize());
                }
                assert(lists_nonzeros(d, ncols as int, rows as int, cs, vs));
                lemma_nonzeros_as_csr(d, rows as int, ncols as int, rp, cs, vs);
            }
        }
        CsrContainer { shape, row_ptrs, col_indices, values }
    }

    /// A borrowed view of the same matrix.
    pub fn view(&self) -> (r: CsrView<'_, I, V>)
        ensures
            r.shape == self.shape,
            r.row_ptrs@ == self.row_ptrs@,
            r.col_indices@ == self.col_indices@,
            r.values@ == self.values@,
    {
        CsrView::new(
            self.shape,
            self.row_ptrs.as_slice(),
            self.col_indices.as_slice(),
            self.values.as_slice(),
        )
    }
}

impl<I: Index, V: Scalar> SparseMatrix<I, V> for CsrContainer<I, V> {
    open spec fn spec_shape(&self) -> (usize, usize) {
        self.shape
    }

    open spec fn spec_row_ptrs(&self) -> Seq<I> {
        self.row_ptrs@
    }

    open spec fn spec_col_indices(&self) -> Seq<I> {
        self.col_indices@
    }

    open spec fn spec_values(&self) -> Seq<V> {
        self.values@
    }

    /// An owning container answers only for its rows, not for the end offset.
    open spec fn spec_row_offset_ok(&self, idx: usize) -> bool {
        idx < self.shape.0 && idx < self.row_ptrs@.len()
    }

    fn shape(&self) -> (r: (usize, usize)) {
        self.shape
    }

    fn nnz(&self) -> (r: usize) {
        self.values.len()
    }

    fn outer_slice(&self, idx: usize) -> (r: Option<(&[I], &[V])>) {
        if idx >= self.shape.0 {
            return None;
        }
        let start = self.row_ptrs[idx].to_usize();
        let end = self.row_ptrs[idx + 1].to_usize();
        Some((&self.col_indices.as_slice()[start..end], &self.values.as_slice()[start..end]))
    }

    fn row_offset(&self, idx: usize) -> (r: usize) {
        self.row_ptrs[idx].to_usize()
    }
}

/// A sparse matrix in compressed-row form over borrowed arrays.
pub struct CsrView<'a, I: Index, V: Scalar> {
    pub row_ptrs: &'a [I],
    pub col_indices: &'a [I],
    pub values: &'a [V],
    pub shape: (usize, usize),
}

impl<'a, I: Index, V: Scalar> CsrView<'a, I, V> {
    pub fn new(shape: (usize, usize), row_ptrs: &'a [I], col_indices: &'a [I], values: &'a [V]) -> (r:
        Self)
        ensures
            r.shape == shape,
            r.row_ptrs@ == row_ptrs@,
            r.col_indices@ == col_indices@,
            r.values@ == values@,
    {
        CsrView { shape, row_ptrs, col_indices, values }
    }

    pub fn shape(&self) -> (r: (usize, usize))
        ensures
            r == self.shape,
    {
        self.shape
    }

    /// The column positions and values of row `idx`, or `None` past the last row.
    pub fn row(&self, idx: usize) -> (r: Option<(&[I], &[V])>)
        requires
            idx < self.shape.0 ==> row_readable(
                index_seq(self.row_ptrs@),
                self.col_indices@.len() as int,
                self.values@.len() as int,
                idx as int,
            ),
        ensures
            idx >= self.shape.0 ==> r is None,
            idx < self.shape.0 ==> (r matches Some((c, v)) && ({
                let start = self.row_ptrs@[idx as int].spec_to_usize() as int;
                let end = self.row_ptrs@[idx + 1].spec_to_usize() as int;
                &&& c@ == self.col_indices@.subrange(start, end)
                &&& v@ == self.values@.subrange(start, end)
            })),
    {
        if idx >= self.shape.0 {
            return None;
        }
        let start = self.row_ptrs[idx].to_usize();
        let end = self.row_ptrs[idx + 1].to_usize();
        Some((&self.col_indices[start..end], &self.values[start..end]))
    }
}

impl<'a, I: Index, V: Scalar> CsrView<'a, I, V> {
    /// All rows as one block, writing the output buffer `out`.
    pub fn par_zip_out<P: ExecutionPolicy>(&'a self, out: &'a mut [V], policy: P) -> (r:
        RowChunkProducer<'a, Self, I, V, P>)
        ensures
            r.matrix == self,
            r.out@ == old(out)@,
            final(r.out)@ == final(out)@,
            r.start_row == 0,
            r.num_rows == self.shape.0,
            r.policy == policy,
    {
        RowChunkProducer::new(self, out, 0, self.shape.0, policy)
    }
}

impl<'a, I: Index, V: Scalar> SparseMatrix<I, V> for CsrView<'a, I, V> {
    open spec fn spec_shape(&self) -> (usize, usize) {
        self.shape
    }

    open spec fn spec_row_ptrs(&self) -> Seq<I> {
        self.row_ptrs@
    }

    open spec fn spec_col_indices(&self) -> Seq<I> {
        self.col_indices@
    }

    open spec fn spec_values(&self) -> Seq<V> {
        self.values@
    }

    /// A view answers for every stored offset, the end offset included.
    open spec fn spec_row_offset_ok(&self, idx: usize) -> bool {
        idx < self.row_ptrs@.len()
    }

    fn shape(&self) -> (r: (usize, usize)) {
        self.shape
    }

    fn nnz(&self) -> (r: usize) {
        self.values.len()
    }

    fn outer_slice(&self, idx: usize) -> (r: Option<(&[I], &[V])>) {
        self.row(idx)
    }

    fn row_offset(&self, idx: usize) -> (r: usize) {
        self.row_ptrs[idx].to_usize()
    }
}

} // verus!

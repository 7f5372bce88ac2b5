use vstd::prelude::*;

use crate::matrix::common::{
    csr_wf,
    index_seq,
    value_seq,
    ExecutionPolicy,
    Index,
    RowChunkProducer,
    Scalar,
    SddmmPolicy,
    SparseMatrix,
    SpmmPolicy,
};
use crate::matrix::dense::lemma_flat_index;

verus! {

/// `(i + 1) * n` is one more `n` than `i * n`.
pub proof fn lemma_mul_succ(i: int, n: int)
    by (nonlinear_arith)
    ensures
        (i + 1) * n == i * n + n,
{
}

/// The `t`-th product of a sparse row with column `j` of a dense matrix of `b_cols` columns.
pub open spec fn row_term(cols: Seq<int>, vals: Seq<int>, b: Seq<int>, b_cols: int, j: int, t: int) -> int {
    vals[t] * b[cols[t] * b_cols + j]
}

/// The first `n` products of a sparse row with column `j` of a dense matrix, summed in order.
pub open spec fn row_times_dense(
    cols: Seq<int>,
    vals: Seq<int>,
    b: Seq<int>,
    b_cols: int,
    j: int,
    n: int,
) -> int
    decreases n,
{
    if n <= 0 {
        0
    } else {
        row_times_dense(cols, vals, b, b_cols, j, n - 1) + row_term(cols, vals, b, b_cols, j, n - 1)
    }
}

/// Every product, and every running sum, of the first `n` terms fits the value type.
pub open spec fn row_times_dense_fits<V: Scalar>(
    cols: Seq<int>,
    vals: Seq<int>,
    b: Seq<int>,
    b_cols: int,
    j: int,
    n: int,
) -> bool {
    forall|t: int|
        0 <= t < n ==> V::spec_in_range(#[trigger] row_term(cols, vals, b, b_cols, j, t))
            && V::spec_in_range(row_times_dense(cols, vals, b, b_cols, j, t + 1))
}

/// Entry `(i, j)` of the product of a compressed-row matrix with a dense matrix of `b_cols`
/// columns: row `i`'s stored entries times column `j`, summed in storage order.
pub open spec fn spmm_entry<I: Index, V: Scalar>(
    rp: Seq<int>,
    cols: Seq<I>,
    vals: Seq<V>,
    b: Seq<V>,
    b_cols: int,
    i: int,
    j: int,
) -> int {
    row_times_dense(
        index_seq(cols).subrange(rp[i], rp[i + 1]),
        value_seq(vals).subrange(rp[i], rp[i + 1]),
        value_seq(b),
        b_cols,
        j,
        rp[i + 1] - rp[i],
    )
}

/// Computing entry `(i, j)` of the product stays in the value type's range.
pub open spec fn spmm_entry_fits<I: Index, V: Scalar>(
    rp: Seq<int>,
    cols: Seq<I>,
    vals: Seq<V>,
    b: Seq<V>,
    b_cols: int,
    i: int,
    j: int,
) -> bool {
    row_times_dense_fits::<V>(
        index_seq(cols).subrange(rp[i], rp[i + 1]),
        value_seq(vals).subrange(rp[i], rp[i + 1]),
        value_seq(b),
        b_cols,
        j,
        rp[i + 1] - rp[i],
    )
}

/// One row of the product: `c[out_start + j]` becomes the row times column `j` of `b`.
fn spmm_row<I: Index, V: Scalar>(
    cols: &[I],
    vals: &[V],
    b: &[V],
    c: &mut [V],
    out_start: usize,
    b_cols: usize,
    a_cols: usize,
)
    requires
        cols@.len() == vals@.len(),
        out_start + b_cols <= old(c)@.len(),
        a_cols * b_cols <= b@.len(),
        forall|t: int| 0 <= t < cols@.len() ==> #[trigger] index_seq(cols@)[t] < a_cols,
        forall|j: int|
            0 <= j < b_cols ==> #[trigger] row_times_dense_fits::<V>(
                index_seq(cols@),
                value_seq(vals@),
                value_seq(b@),
                b_cols as int,
                j,
                cols@.len() as int,
            ),
    ensures
        final(c)@.len() == old(c)@.len(),
        forall|j: int|
            0 <= j < b_cols ==> (#[trigger] final(c)@[out_start + j]).spec_value()
                == row_times_dense(
                index_seq(cols@),
                value_seq(vals@),
                value_seq(b@),
                b_cols as int,
                j,
                cols@.len() as int,
            ),
        forall|q: int|
            0 <= q < old(c)@.len() && (q < out_start || q >= out_start + b_cols) ==> final(c)@[q]
                == old(c)@[q],
{
    let ghost c0 = c@;
    let ghost ic = index_seq(cols@);
    let ghost iv = value_seq(vals@);
    let ghost ib = value_seq(b@);
    let c_len = c.len();
    let b_len = b.len();
    let mut j: usize = 0;
    while j < b_cols
        invariant
            j <= b_cols,
            out_start + b_cols <= c@.len(),
            c@.len() == c0.len(),
            c_len == c@.len(),
            b_len == b@.len(),
            forall|jj: int| 0 <= jj < j ==> (#[trigger] c@[out_start + jj]).spec_value() == 0,
            forall|q: int|
                0 <= q < c0.len() && (q < out_start || q >= out_start + b_cols) ==> c@[q] == c0[q],
        decreases b_cols - j,
    {
        c[out_start + j] = V::zero();
        j = j + 1;
    }
    let n = cols.len();
    let mut t: usize = 0;
    while t < n
        invariant
            t <= n,
            n == cols@.len(),
            n == vals@.len(),
            ic == index_seq(cols@),
            iv == value_seq(vals@),
            ib == value_seq(b@),
            out_start + b_cols <= c@.len(),
            c@.len() == c0.len(),
            c_len == c@.len(),
            b_len == b@.len(),
            a_cols * b_cols <= b@.len(),
            forall|tt: int| 0 <= tt < n ==> #[trigger] ic[tt] < a_cols,
            forall|jj: int|
                0 <= jj < b_cols ==> #[trigger] row_times_dense_fits::<V>(
                    ic,
                    iv,
                    ib,
                    b_cols as int,
                    jj,
                    n as int,
                ),
            forall|jj: int|
                0 <= jj < b_cols ==> (#[trigger] c@[out_start + jj]).spec_value() == row_times_dense(
                    ic,
                    iv,
                    ib,
                    b_cols as int,
                    jj,
                    t as int,
                ),
            forall|q: int|
                0 <= q < c0.len() && (q < out_start || q >= out_start + b_cols) ==> c@[q] == c0[q],
        decreases n - t,
    {
        let col = cols[t].to_usize();
        let a_val = vals[t];
        assert(ic[t as int] == col);
        assert(iv[t as int] == a_val.spec_value());
        let ghost before = c@;
        if b_cols > 0 {
            proof {
                lemma_flat_index(col as int, 0, a_cols as int, b_cols as int);
            }
        }
        proof {
            assert(col * b_cols <= a_cols * b_cols) by (nonlinear_arith)
                requires
                    col < a_cols,
            ;
        }
        let b_start = col * b_cols;
        let mut j: usize = 0;
        while j < b_cols
            invariant
                j <= b_cols,
                t < n,
                col < a_cols,
                b_start == col * b_cols,
                a_cols * b_cols <= b@.len(),
                ic == index_seq(cols@),
                iv == value_seq(vals@),
                ib == value_seq(b@),
                ic[t as int] == col,
                iv[t as int] == a_val.spec_value(),
                out_start + b_cols <= c@.len(),
                c@.len() == c0.len(),
                c_len == c@.len(),
                b_len == b@.len(),
                before.len() == c0.len(),
                forall|jj: int|
                    0 <= jj < b_cols ==> #[trigger] row_times_dense_fits::<V>(
                        ic,
                        iv,
                        ib,
                        b_cols as int,
                        jj,
                        n as int,
                    ),
                forall|jj: int|
                    0 <= jj < b_cols ==> (#[trigger] before[out_start + jj]).spec_value()
                        == row_times_dense(ic, iv, ib, b_cols as int, jj, t as int),
                forall|jj: int|
                    0 <= jj < j ==> (#[trigger] c@[out_start + jj]).spec_value() == row_times_dense(
                        ic,
                        iv,
                        ib,
                        b_cols as int,
                        jj,
                        t + 1,
                    ),
                forall|jj: int| j <= jj < b_cols ==> #[trigger] c@[out_start + jj] == before[out_start + jj],
                forall|q: int|
                    0 <= q < c0.len() && (q < out_start || q >= out_start + b_cols) ==> c@[q] == c0[q],
            decreases b_cols - j,
        {
            proof {
                lemma_flat_index(col as int, j as int, a_cols as int, b_cols as int);
                assert(row_times_dense_fits::<V>(ic, iv, ib, b_cols as int, j as int, n as int));
                assert(V::spec_in_range(row_term(ic, iv, ib, b_cols as int, j as int, t as int)));
                assert(V::spec_in_range(
                    row_times_dense(ic, iv, ib, b_cols as int, j as int, t + 1),
                ));
                assert(ib[b_start + j] == b@[b_start + j].spec_value());
            }
            let prod = a_val.times(b[b_start + j]);
            let cur = c[out_start + j];
            assert(cur == before[out_start + j]);
            c[out_start + j] = cur.plus(prod);
            j = j + 1;
        }
        t = t + 1;
    }
}

/// Sparse times dense: `c` becomes `a * b`, where `b` is a dense matrix of `b_cols` columns
/// stored row by row and `c` the `rows(a) x b_cols` result, stored row by row. Entry `(i, j)`
/// is row `i`'s stored entries times column `j` of `b`, summed in storage order.
pub fn spmm_dense<M, I, V>(a: &M, b: &[V], c: &mut [V], b_cols: usize) where
    M: SparseMatrix<I, V> + Sync,
    I: Index,
    V: Scalar,

    requires
        csr_wf(
            a.spec_shape().0 as int,
            a.spec_shape().1 as int,
            index_seq(a.spec_row_ptrs()),
            index_seq(a.spec_col_indices()),
            a.spec_values().len() as int,
        ),
        old(c)@.len() == a.spec_shape().0 * b_cols,
        b@.len() >= a.spec_shape().1 * b_cols,
        forall|i: int, j: int|
            0 <= i < a.spec_shape().0 && 0 <= j < b_cols ==> #[trigger] spmm_entry_fits(
                index_seq(a.spec_row_ptrs()),
                a.spec_col_indices(),
                a.spec_values(),
                b@,
                b_cols as int,
                i,
                j,
            ),
    ensures
        final(c)@.len() == old(c)@.len(),
        is_spmm_output(
            final(c)@,
            index_seq(a.spec_row_ptrs()),
            a.spec_col_indices(),
            a.spec_values(),
            b@,
            a.spec_shape().0 as int,
            b_cols as int,
        ),
        forall|i: int, j: int|
            0 <= i < a.spec_shape().0 && 0 <= j < b_cols ==> (#[trigger] final(c)@[i * b_cols
                + j]).spec_value() == spmm_entry(
                index_seq(a.spec_row_ptrs()),
                a.spec_col_indices(),
                a.spec_values(),
                b@,
                b_cols as int,
                i,
                j,
            ),
{
    let (a_rows, a_cols) = a.shape();
    let ghost rp = index_seq(a.spec_row_ptrs());
    let ghost c0 = c@;
    let policy = SpmmPolicy { k: b_cols };
    let mut worker = RowChunkProducer::new(a, c, 0, a_rows, policy).into_iter();
    let ghost mut done: Seq<V> = Seq::empty();
    proof {
        assert((a_rows - 0) * b_cols == a_rows * b_cols);
    }
    while worker.len() > 0
        invariant
            worker.covers(),
            worker.matrix == a,
            worker.policy == policy,
            policy.k == b_cols,
            rp == index_seq(a.spec_row_ptrs()),
            (a_rows, a_cols) == a.spec_shape(),
            worker.start_row + worker.num_rows == a_rows,
            done.len() == worker.start_row * b_cols,
            after_borrow(c)@ == done + final(worker.out)@,
            c0.len() == a_rows * b_cols,
            b@.len() >= a_cols * b_cols,
            forall|i: int, j: int|
                0 <= i < a_rows && 0 <= j < b_cols ==> #[trigger] spmm_entry_fits(
                    rp,
                    a.spec_col_indices(),
                    a.spec_values(),
                    b@,
                    b_cols as int,
                    i,
                    j,
                ),
            forall|i: int, j: int|
                0 <= i < worker.start_row && 0 <= j < b_cols ==> (#[trigger] done[i * b_cols
                    + j]).spec_value() == spmm_entry(
                    rp,
                    a.spec_col_indices(),
                    a.spec_values(),
                    b@,
                    b_cols as int,
                    i,
                    j,
                ),
        decreases worker.num_rows,
    {
        let item = worker.next();
        match item {
            Some((i, cols, vals, out)) => {
                let ghost lo = rp[i as int];
                let ghost hi = rp[i + 1];
                proof {
                    assert(rp[i as int] <= rp[i + 1]);
                    assert(rp[i + 1] <= rp[a_rows as int]);
                    assert(index_seq(cols@) =~= index_seq(a.spec_col_indices()).subrange(lo, hi));
                    assert(value_seq(vals@) =~= value_seq(a.spec_values()).subrange(lo, hi));
                    assert forall|t: int| 0 <= t < cols@.len() implies #[trigger] index_seq(
                        cols@,
                    )[t] < a_cols by {
                        assert(index_seq(a.spec_col_indices())[lo + t] < a_cols);
                    }
                    assert forall|j: int| 0 <= j < b_cols implies #[trigger] row_times_dense_fits::<
                        V,
                    >(
                        index_seq(cols@),
                        value_seq(vals@),
                        value_seq(b@),
                        b_cols as int,
                        j,
                        cols@.len() as int,
                    ) by {
                        assert(spmm_entry_fits(
                            rp,
                            a.spec_col_indices(),
                            a.spec_values(),
                            b@,
                            b_cols as int,
                            i as int,
                            j,
                        ));
                    }
                    lemma_mul_succ(i as int, b_cols as int);
                }
                spmm_row(cols, vals, b, &mut *out, 0, b_cols, a_cols);
                proof {
                    let prev = done;
                    done = done + out@;
                    assert forall|j: int| 0 <= j < b_cols implies (#[trigger] out@[j]).spec_value()
                        == row_times_dense(
                        index_seq(cols@),
                        value_seq(vals@),
                        value_seq(b@),
                        b_cols as int,
                        j,
                        cols@.len() as int,
                    ) by {
                        let z: usize = 0;
                        assert(out@[z + j] == out@[j]);
                    }
                    assert forall|ii: int, j: int|
                        0 <= ii < worker.start_row && 0 <= j < b_cols implies (#[trigger] done[ii
                        * b_cols + j]).spec_value() == spmm_entry(
                        rp,
                        a.spec_col_indices(),
                        a.spec_values(),
                        b@,
                        b_cols as int,
                        ii,
                        j,
                    ) by {
                        if ii < i {
                            lemma_flat_index(ii, j, i as int, b_cols as int);
                            assert(done[ii * b_cols + j] == prev[ii * b_cols + j]);
                        } else {
                            assert(ii == i);
                            assert(done[ii * b_cols + j] == out@[j]);
                        }
                    }
                }
            },
            None => {},
        }
    }
    proof {
        worker.block().lemma_exhausted_fills_range();
    }
}

/// The `t`-th product of the dot product of `x` from `xo` with `y` from `yo`.
pub open spec fn dot_term(x: Seq<int>, y: Seq<int>, xo: int, yo: int, t: int) -> int {
    x[xo + t] * y[yo + t]
}

/// The first `n` products of `x` from `xo` with `y` from `yo`, summed in order.
pub open spec fn dot_from(x: Seq<int>, y: Seq<int>, xo: int, yo: int, n: int) -> int
    decreases n,
{
    if n <= 0 {
        0
    } else {
        dot_from(x, y, xo, yo, n - 1) + dot_term(x, y, xo, yo, n - 1)
    }
}

/// Every product, and every running sum, of the first `n` terms fits the value type.
pub open spec fn dot_fits<V: Scalar>(x: Seq<int>, y: Seq<int>, xo: int, yo: int, n: int) -> bool {
    forall|t: int|
        0 <= t < n ==> V::spec_in_range(#[trigger] dot_term(x, y, xo, yo, t)) && V::spec_in_range(
            dot_from(x, y, xo, yo, t + 1),
        )
}

/// The sampled value of stored entry `e` in row `i`: its value times the dot product of row `i`
/// of `d1` with row `cols[e]` of `d2`, both rows `k` long.
pub open spec fn sddmm_entry<I: Index, V: Scalar>(
    cols: Seq<I>,
    vals: Seq<V>,
    d1: Seq<V>,
    d2: Seq<V>,
    k: int,
    i: int,
    e: int,
) -> int {
    vals[e].spec_value() * dot_from(
        value_seq(d1),
        value_seq(d2),
        i * k,
        cols[e].spec_to_usize() * k,
        k,
    )
}

/// Computing the sampled value of entry `e` in row `i` stays in the value type's range.
pub open spec fn sddmm_entry_fits<I: Index, V: Scalar>(
    cols: Seq<I>,
    vals: Seq<V>,
    d1: Seq<V>,
    d2: Seq<V>,
    k: int,
    i: int,
    e: int,
) -> bool {
    &&& dot_fits::<V>(value_seq(d1), value_seq(d2), i * k, cols[e].spec_to_usize() * k, k)
    &&& V::spec_in_range(sddmm_entry(cols, vals, d1, d2, k, i, e))
}

/// One row of the sampled product: `out[out_start + t]` becomes `vals[t]` times the dot product
/// of row `i` of `d1` with row `cols[t]` of `d2`.
fn sddmm_row<I: Index, V: Scalar>(
    cols: &[I],
    vals: &[V],
    d1: &[V],
    d2: &[V],
    out: &mut [V],
    out_start: usize,
    i: usize,
    k: usize,
    n_cols: usize,
)
    requires
        cols@.len() == vals@.len(),
        out_start + cols@.len() <= old(out)@.len(),
        (i + 1) * k <= d1@.len(),
        n_cols * k <= d2@.len(),
        forall|t: int| 0 <= t < cols@.len() ==> (#[trigger] cols@[t]).spec_to_usize() < n_cols,
        forall|t: int|
            0 <= t < cols@.len() ==> #[trigger] sddmm_entry_fits(cols@, vals@, d1@, d2@, k as int, i as int, t),
    ensures
        final(out)@.len() == old(out)@.len(),
        forall|t: int|
            0 <= t < cols@.len() ==> (#[trigger] final(out)@[out_start + t]).spec_value()
                == sddmm_entry(cols@, vals@, d1@, d2@, k as int, i as int, t),
        forall|q: int|
            0 <= q < old(out)@.len() && (q < out_start || q >= out_start + cols@.len())
                ==> final(out)@[q] == old(out)@[q],
{
    let ghost o0 = out@;
    let ghost x = value_seq(d1@);
    let ghost y = value_seq(d2@);
    let d1_len = d1.len();
    let d2_len = d2.len();
    proof {
        lemma_mul_succ(i as int, k as int);
        assert(0 <= i * k) by (nonlinear_arith);
    }
    let d1_start = i * k;
    let out_len = out.len();
    let n = cols.len();
    let mut idx: usize = 0;
    while idx < n
        invariant
            idx <= n,
            n == cols@.len(),
            n == vals@.len(),
            out_start + n <= out@.len(),
            out@.len() == o0.len(),
            out_len == out@.len(),
            d1_len == d1@.len(),
            d2_len == d2@.len(),
            x == value_seq(d1@),
            y == value_seq(d2@),
            d1_start == i * k,
            d1_start + k <= d1@.len(),
            n_cols * k <= d2@.len(),
            forall|t: int| 0 <= t < n ==> (#[trigger] cols@[t]).spec_to_usize() < n_cols,
            forall|t: int|
                0 <= t < n ==> #[trigger] sddmm_entry_fits(cols@, vals@, d1@, d2@, k as int, i as int, t),
            forall|t: int|
                0 <= t < idx ==> (#[trigger] out@[out_start + t]).spec_value() == sddmm_entry(
                    cols@,
                    vals@,
                    d1@,
                    d2@,
                    k as int,
                    i as int,
                    t,
                ),
            forall|q: int|
                0 <= q < o0.len() && (q < out_start || q >= out_start + n) ==> out@[q] == o0[q],
        decreases n - idx,
    {
        let col_idx = cols[idx].to_usize();
        proof {
            assert(col_idx * k + k <= n_cols * k) by (nonlinear_arith)
                requires
                    col_idx < n_cols,
            ;
            assert(0 <= col_idx * k) by (nonlinear_arith);
            assert(sddmm_entry_fits(cols@, vals@, d1@, d2@, k as int, i as int, idx as int));
        }
        let d2_row_start = col_idx * k;
        let mut dot_product = V::zero();
        let mut j: usize = 0;
        while j < k
            invariant
                j <= k,
                d1_len == d1@.len(),
                d2_len == d2@.len(),
                x == value_seq(d1@),
                y == value_seq(d2@),
                d1_start + k <= d1@.len(),
                d2_row_start + k <= d2@.len(),
                dot_fits::<V>(x, y, d1_start as int, d2_row_start as int, k as int),
                dot_product.spec_value() == dot_from(x, y, d1_start as int, d2_row_start as int, j as int),
            decreases k - j,
        {
            proof {
                assert(V::spec_in_range(dot_term(x, y, d1_start as int, d2_row_start as int, j as int)));
                assert(x[d1_start + j] == d1@[d1_start + j].spec_value());
                assert(y[d2_row_start + j] == d2@[d2_row_start + j].spec_value());
            }
            let prod = d1[d1_start + j].times(d2[d2_row_start + j]);
            dot_product = dot_product.plus(prod);
            j = j + 1;
        }
        out[out_start + idx] = vals[idx].times(dot_product);
        idx = idx + 1;
    }
}

/// Sampled dense-dense product: for every stored entry `(i, j)` of `s`, `out` at that entry's
/// offset becomes its value times the dot product of row `i` of `d1` with row `j` of `d2`, both
/// rows `k` long (`d2` holds the second factor already transposed).
pub fn sddmm<M, I, V>(s: &M, d1: &[V], d2: &[V], out: &mut [V], k: usize) where
    M: SparseMatrix<I, V> + Sync,
    I: Index,
    V: Scalar,

    requires
        csr_wf(
            s.spec_shape().0 as int,
            s.spec_shape().1 as int,
            index_seq(s.spec_row_ptrs()),
            index_seq(s.spec_col_indices()),
            s.spec_values().len() as int,
        ),
        old(out)@.len() == s.spec_values().len(),
        d1@.len() >= s.spec_shape().0 * k,
        d2@.len() >= k * s.spec_shape().1,
        forall|i: int, e: int|
            0 <= i < s.spec_shape().0 && index_seq(s.spec_row_ptrs())[i] <= e < index_seq(
                s.spec_row_ptrs(),
            )[i + 1] ==> #[trigger] sddmm_entry_fits(
                s.spec_col_indices(),
                s.spec_values(),
                d1@,
                d2@,
                k as int,
                i,
                e,
            ),
    ensures
        final(out)@.len() == old(out)@.len(),
        is_sddmm_output(
            final(out)@,
            index_seq(s.spec_row_ptrs()),
            s.spec_col_indices(),
            s.spec_values(),
            d1@,
            d2@,
            s.spec_shape().0 as int,
            k as int,
        ),
        forall|i: int, e: int|
            0 <= i < s.spec_shape().0 && index_seq(s.spec_row_ptrs())[i] <= e < index_seq(
                s.spec_row_ptrs(),
            )[i + 1] ==> final(out)@[e].spec_value() == #[trigger] sddmm_entry(
                s.spec_col_indices(),
                s.spec_values(),
                d1@,
                d2@,
                k as int,
                i,
                e,
            ),
{
    let (m, n_cols) = s.shape();
    let ghost rp = index_seq(s.spec_row_ptrs());
    let ghost cs = s.spec_col_indices();
    let ghost vs = s.spec_values();
    let ghost o0 = out@;
    let policy = SddmmPolicy;
    let mut worker = RowChunkProducer::new(s, out, 0, m, policy).into_iter();
    let ghost mut done: Seq<V> = Seq::empty();
    proof {
        assert(k * n_cols == n_cols * k) by (nonlinear_arith);
    }
    while worker.len() > 0
        invariant
            worker.covers(),
            worker.matrix == s,
            worker.policy == policy,
            rp == index_seq(s.spec_row_ptrs()),
            cs == s.spec_col_indices(),
            vs == s.spec_values(),
            (m, n_cols) == s.spec_shape(),
            worker.start_row + worker.num_rows == m,
            done.len() == rp[worker.start_row as int],
            after_borrow(out)@ == done + final(worker.out)@,
            o0.len() == vs.len(),
            d1@.len() >= m * k,
            d2@.len() >= n_cols * k,
            forall|i: int, e: int|
                0 <= i < m && rp[i] <= e < rp[i + 1] ==> #[trigger] sddmm_entry_fits(
                    cs,
                    vs,
                    d1@,
                    d2@,
                    k as int,
                    i,
                    e,
                ),
            forall|i: int, e: int|
                0 <= i < worker.start_row && rp[i] <= e < rp[i + 1] ==> done[e].spec_value()
                    == #[trigger] sddmm_entry(cs, vs, d1@, d2@, k as int, i, e),
        decreases worker.num_rows,
    {
        let item = worker.next();
        match item {
            Some((i, cols, vals, chunk)) => {
                let ghost lo = rp[i as int];
                let ghost hi = rp[i + 1];
                proof {
                    assert(rp[i as int] <= rp[i + 1]);
                    assert(rp[i + 1] <= rp[m as int]);
                    assert forall|i2: int, j2: int| 0 <= i2 <= j2 <= m implies #[trigger] rp[i2]
                        <= #[trigger] rp[j2] by {}
                    assert(i * k + k <= m * k) by (nonlinear_arith)
                        requires
                            i < m,
                    ;
                    lemma_mul_succ(i as int, k as int);
                    assert forall|t: int| 0 <= t < cols@.len() implies (#[trigger] cols@[t]).spec_to_usize()
                        < n_cols by {
                        assert(cols@[t] == cs[lo + t]);
                        assert(index_seq(cs)[lo + t] < n_cols);
                    }
                    assert forall|t: int| 0 <= t < cols@.len() implies #[trigger] sddmm_entry_fits(
                        cols@,
                        vals@,
                        d1@,
                        d2@,
                        k as int,
                        i as int,
                        t,
                    ) by {
                        assert(cols@[t] == cs[lo + t]);
                        assert(vals@[t] == vs[lo + t]);
                        assert(sddmm_entry_fits(cs, vs, d1@, d2@, k as int, i as int, lo + t));
                    }
                }
                sddmm_row(cols, vals, d1, d2, &mut *chunk, 0, i, k, n_cols);
                proof {
                    let prev = done;
                    done = done + chunk@;
                    assert forall|ii: int, e: int|
                        0 <= ii < worker.start_row && rp[ii] <= e < rp[ii + 1] implies done[e].spec_value()
                        == #[trigger] sddmm_entry(cs, vs, d1@, d2@, k as int, ii, e) by {
                        if ii < i {
                            assert(rp[ii + 1] <= rp[i as int]);
                            assert(done[e] == prev[e]);
                        } else {
                            assert(ii == i);
                            let t = e - lo;
                            assert(cols@[t] == cs[e]);
                            assert(vals@[t] == vs[e]);
                            let z: usize = 0;
                            assert(chunk@[z + t] == chunk@[t]);
                            assert(done[e] == chunk@[t]);
                        }
                    }
                }
            },
            None => {},
        }
    }
    proof {
        worker.block().lemma_exhausted_fills_range();
    }
}


/// `c` is what `spmm_dense` leaves: `rows * b_cols` entries, entry `(i, j)` being row `i` of the
/// sparse matrix times column `j` of `b`.
pub open spec fn is_spmm_output<I: Index, V: Scalar>(
    c: Seq<V>,
    rp: Seq<int>,
    cols: Seq<I>,
    vals: Seq<V>,
    b: Seq<V>,
    rows: int,
    b_cols: int,
) -> bool {
    &&& c.len() == rows * b_cols
    &&& forall|i: int, j: int|
        0 <= i < rows && 0 <= j < b_cols ==> (#[trigger] c[i * b_cols + j]).spec_value()
            == spmm_entry(rp, cols, vals, b, b_cols, i, j)
}

/// `out` is what `sddmm` leaves: one entry per stored entry, entry `e` of row `i` being its
/// sampled value.
pub open spec fn is_sddmm_output<I: Index, V: Scalar>(
    out: Seq<V>,
    rp: Seq<int>,
    cols: Seq<I>,
    vals: Seq<V>,
    d1: Seq<V>,
    d2: Seq<V>,
    rows: int,
    k: int,
) -> bool {
    &&& out.len() == vals.len()
    &&& forall|i: int, e: int|
        0 <= i < rows && rp[i] <= e < rp[i + 1] ==> out[e].spec_value() == #[trigger] sddmm_entry(
            cols,
            vals,
            d1,
            d2,
            k,
            i,
            e,
        )
}

/// Two row-major `rows x b_cols` buffers whose entries stand for the same integers are equal.
proof fn lemma_grids_equal<V: Scalar>(c1: Seq<V>, c2: Seq<V>, rows: int, b_cols: int)
    requires
        0 <= rows,
        0 <= b_cols,
        c1.len() == rows * b_cols,
        c2.len() == rows * b_cols,
        forall|i: int, j: int|
            0 <= i < rows && 0 <= j < b_cols ==> (#[trigger] c1[i * b_cols + j]).spec_value()
                == c2[i * b_cols + j].spec_value(),
    ensures
        c1 == c2,
{
    assert forall|q: int| 0 <= q < c1.len() implies c1[q] == c2[q] by {
        assert(b_cols > 0) by (nonlinear_arith)
            requires
                0 <= q < rows * b_cols,
                0 <= rows,
                0 <= b_cols,
        ;
        vstd::arithmetic::div_mod::lemma_fundamental_div_mod(q, b_cols);
        vstd::arithmetic::div_mod::lemma_mod_pos_bound(q, b_cols);
        let i = q / b_cols;
        let j = q % b_cols;
        assert(b_cols * i == i * b_cols) by (nonlinear_arith);
        assert(0 <= i < rows) by (nonlinear_arith)
            requires
                q == i * b_cols + j,
                0 <= j < b_cols,
                0 <= q < rows * b_cols,
        ;
        assert(c1[i * b_cols + j].spec_value() == c2[i * b_cols + j].spec_value());
        V::lemma_value_injective(c1[q], c2[q]);
    }
    assert(c1 =~= c2);
}

/// `spmm_dense` overwrites its output: whatever the buffer held before, the result is fixed by
/// the two factors alone, and the rows that store no entry come out all zero.
pub proof fn lemma_spmm_output_determined<I: Index, V: Scalar>(
    c1: Seq<V>,
    c2: Seq<V>,
    rp: Seq<int>,
    cols: Seq<I>,
    vals: Seq<V>,
    b: Seq<V>,
    rows: int,
    b_cols: int,
)
    requires
        0 <= rows,
        0 <= b_cols,
        is_spmm_output(c1, rp, cols, vals, b, rows, b_cols),
        is_spmm_output(c2, rp, cols, vals, b, rows, b_cols),
    ensures
        c1 == c2,
        forall|i: int, j: int|
            0 <= i < rows && 0 <= j < b_cols && rp[i] == rp[i + 1] ==> (#[trigger] c1[i * b_cols
                + j]).spec_value() == 0,
{
    lemma_grids_equal(c1, c2, rows, b_cols);
}

/// A sparse row's sum only reads `b` below `limit` when every position it reads lies there.
proof fn lemma_row_times_dense_same_b(
    cols: Seq<int>,
    vals: Seq<int>,
    b1: Seq<int>,
    b2: Seq<int>,
    b_cols: int,
    j: int,
    n: int,
    limit: int,
)
    requires
        forall|t: int| 0 <= t < n ==> 0 <= #[trigger] cols[t] * b_cols + j < limit,
        forall|x: int| 0 <= x < limit ==> #[trigger] b1[x] == b2[x],
    ensures
        row_times_dense(cols, vals, b1, b_cols, j, n) == row_times_dense(cols, vals, b2, b_cols, j, n),
    decreases n,
{
    if n > 0 {
        lemma_row_times_dense_same_b(cols, vals, b1, b2, b_cols, j, n - 1, limit);
        assert(0 <= cols[n - 1] * b_cols + j < limit);
    }
}

/// `spmm_dense` reads `b` only in its first `a_cols * b_cols` entries: two dense factors that
/// agree there give the same result, whatever follows.
pub proof fn lemma_spmm_reads_only_b_prefix<I: Index, V: Scalar>(
    c1: Seq<V>,
    c2: Seq<V>,
    rp: Seq<int>,
    cols: Seq<I>,
    vals: Seq<V>,
    b1: Seq<V>,
    b2: Seq<V>,
    rows: int,
    a_cols: int,
    b_cols: int,
)
    requires
        0 <= rows,
        0 <= b_cols,
        csr_wf(rows, a_cols, rp, index_seq(cols), vals.len() as int),
        b1.len() >= a_cols * b_cols,
        b2.len() >= a_cols * b_cols,
        forall|x: int| 0 <= x < a_cols * b_cols ==> #[trigger] b1[x] == b2[x],
        is_spmm_output(c1, rp, cols, vals, b1, rows, b_cols),
        is_spmm_output(c2, rp, cols, vals, b2, rows, b_cols),
    ensures
        c1 == c2,
{
    assert forall|i: int, j: int| 0 <= i < rows && 0 <= j < b_cols implies (#[trigger] c1[i
        * b_cols + j]).spec_value() == c2[i * b_cols + j].spec_value() by {
        let lo = rp[i];
        let hi = rp[i + 1];
        assert(rp[i] <= rp[i + 1]);
        assert(rp[i + 1] <= rp[rows]);
        let rc = index_seq(cols).subrange(lo, hi);
        let limit = a_cols * b_cols;
        assert forall|t: int| 0 <= t < hi - lo implies 0 <= #[trigger] rc[t] * b_cols + j < limit by {
            assert(index_seq(cols)[lo + t] < a_cols);
            lemma_flat_index(rc[t], j, a_cols, b_cols);
        }
        assert forall|x: int| 0 <= x < limit implies #[trigger] value_seq(b1)[x] == value_seq(b2)[x] by {
            assert(b1[x] == b2[x]);
        }
        lemma_row_times_dense_same_b(
            rc,
            value_seq(vals).subrange(lo, hi),
            value_seq(b1),
            value_seq(b2),
            b_cols,
            j,
            hi - lo,
            limit,
        );
    }
    lemma_grids_equal(c1, c2, rows, b_cols);
}

/// Under non-decreasing offsets from `rp[0]`, every position below `rp[r]` lies in one of the
/// first `r` rows.
pub proof fn lemma_row_containing(rp: Seq<int>, r: int, e: int) -> (i: int)
    requires
        0 < r < rp.len(),
        rp[0] <= e < rp[r],
        forall|a: int, b: int| 0 <= a <= b <= r ==> #[trigger] rp[a] <= #[trigger] rp[b],
    ensures
        0 <= i < r,
        rp[i] <= e < rp[i + 1],
    decreases r,
{
    if e >= rp[r - 1] {
        r - 1
    } else {
        lemma_row_containing(rp, r - 1, e)
    }
}

/// `sddmm` overwrites its output: whatever the buffer held before, the result is fixed by the
/// sparse matrix and the two dense factors alone; with `k == 0` every entry comes out zero.
pub proof fn lemma_sddmm_output_determined<I: Index, V: Scalar>(
    out1: Seq<V>,
    out2: Seq<V>,
    rp: Seq<int>,
    cols: Seq<I>,
    vals: Seq<V>,
    d1: Seq<V>,
    d2: Seq<V>,
    rows: int,
    ncols: int,
    k: int,
)
    requires
        0 <= rows,
        csr_wf(rows, ncols, rp, index_seq(cols), vals.len() as int),
        is_sddmm_output(out1, rp, cols, vals, d1, d2, rows, k),
        is_sddmm_output(out2, rp, cols, vals, d1, d2, rows, k),
    ensures
        out1 == out2,
        k == 0 ==> forall|e: int| 0 <= e < out1.len() ==> (#[trigger] out1[e]).spec_value() == 0,
{
    assert forall|e: int| 0 <= e < out1.len() implies out1[e] == out2[e] && (k == 0
        ==> out1[e].spec_value() == 0) by {
        assert(rows > 0) by {
            if rows == 0 {
                assert(rp[0] == rp[rows]);
            }
        }
        let i = lemma_row_containing(rp, rows, e);
        assert(out1[e].spec_value() == sddmm_entry(cols, vals, d1, d2, k, i, e));
        assert(out2[e].spec_value() == sddmm_entry(cols, vals, d1, d2, k, i, e));
        V::lemma_value_injective(out1[e], out2[e]);
    }
    assert(out1 =~= out2);
}

} // verus!

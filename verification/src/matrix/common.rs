use std::marker::PhantomData;

use vstd::prelude::*;

verus! {

/// An integer type that stores row offsets and column positions of a sparse matrix.
///
/// `spec_to_usize` is the `usize` that `to_usize` gives back, `spec_from_usize` the value that
/// `from_usize` builds, and every `usize` up to `max_index()` survives the round trip.
pub trait Index: Copy + Send + Sync + Sized + 'static {
    spec fn spec_to_usize(self) -> usize;

    spec fn spec_from_usize(value: usize) -> Self;

    /// The largest `usize` that the type represents exactly.
    spec fn max_index() -> nat;

    proof fn lemma_round_trip(value: usize)
        requires
            value <= Self::max_index(),
        ensures
            Self::spec_from_usize(value).spec_to_usize() == value,
    ;

    fn to_usize(self) -> (r: usize)
        ensures
            r == self.spec_to_usize(),
    ;

    fn from_usize(value: usize) -> (r: Self)
        ensures
            r == Self::spec_from_usize(value),
    ;
}

impl Index for u32 {
    open spec fn spec_to_usize(self) -> usize {
        self as usize
    }

    open spec fn spec_from_usize(value: usize) -> u32 {
        value as u32
    }

    open spec fn max_index() -> nat {
        u32::MAX as nat
    }

    proof fn lemma_round_trip(value: usize) {
    }

    fn to_usize(self) -> (r: usize) {
        self as usize
    }

    fn from_usize(value: usize) -> (r: u32) {
        value as u32
    }
}

impl Index for u64 {
    open spec fn spec_to_usize(self) -> usize {
        self as usize
    }

    open spec fn spec_from_usize(value: usize) -> u64 {
        value as u64
    }

    open spec fn max_index() -> nat {
        u64::MAX as nat
    }

    proof fn lemma_round_trip(value: usize) {
    }

    fn to_usize(self) -> (r: usize) {
        self as usize
    }

    fn from_usize(value: usize) -> (r: u64) {
        value as u64
    }
}

impl Index for i32 {
    open spec fn spec_to_usize(self) -> usize {
        self as usize
    }

    open spec fn spec_from_usize(value: usize) -> i32 {
        value as i32
    }

    open spec fn max_index() -> nat {
        i32::MAX as nat
    }

    proof fn lemma_round_trip(value: usize) {
    }

    fn to_usize(self) -> (r: usize) {
        self as usize
    }

    fn from_usize(value: usize) -> (r: i32) {
        value as i32
    }
}

impl Index for i64 {
    open spec fn spec_to_usize(self) -> usize {
        self as usize
    }

    open spec fn spec_from_usize(value: usize) -> i64 {
        value as i64
    }

    open spec fn max_index() -> nat {
        i64::MAX as nat
    }

    proof fn lemma_round_trip(value: usize) {
    }

    fn to_usize(self) -> (r: usize) {
        self as usize
    }

    fn from_usize(value: usize) -> (r: i64) {
        value as i64
    }
}

/// A `u32` index is its own number: `to_usize` gives every `u32` back as the same number, and
/// `from_usize` stores every position up to `u32::MAX` as that same number.
pub proof fn lemma_u32_index_is_its_number(x: u32, v: usize)
    ensures
        x.spec_to_usize() as int == x as int,
        v <= u32::MAX ==> <u32 as Index>::spec_from_usize(v) as int == v as int,
{
}

/// A `u64` index is its own number: `to_usize` gives every `u64` that fits a `usize` back as
/// the same number, and `from_usize` stores every position as that same number.
pub proof fn lemma_u64_index_is_its_number(x: u64, v: usize)
    ensures
        x <= usize::MAX ==> x.spec_to_usize() as int == x as int,
        <u64 as Index>::spec_from_usize(v) as int == v as int,
{
}

/// An `i32` index is its own number: `to_usize` gives every nonnegative `i32` back as the same
/// number, and `from_usize` stores every position up to `i32::MAX` as that same number.
pub proof fn lemma_i32_index_is_its_number(x: i32, v: usize)
    ensures
        0 <= x ==> x.spec_to_usize() as int == x as int,
        v <= i32::MAX ==> <i32 as Index>::spec_from_usize(v) as int == v as int,
{
}

/// An `i64` index is its own number: `to_usize` gives every nonnegative `i64` that fits a
/// `usize` back as the same number, and `from_usize` stores every position up to `i64::MAX` as
/// that same number.
pub proof fn lemma_i64_index_is_its_number(x: i64, v: usize)
    ensures
        0 <= x <= usize::MAX ==> x.spec_to_usize() as int == x as int,
        v <= i64::MAX ==> <i64 as Index>::spec_from_usize(v) as int == v as int,
{
}

/// A value type of a sparse matrix: an integer whose arithmetic is exact while it stays in range.
///
/// `spec_value` is the mathematical integer a value stands for; `spec_in_range` says which
/// integers the type represents. `plus` and `times` are exact where the result is in range.
pub trait Scalar: Copy + Send + Sync + Sized + 'static {
    spec fn spec_value(self) -> int;

    spec fn spec_in_range(v: int) -> bool;

    /// A value is the integer it stands for: two values that stand for the same integer are
    /// the same value.
    proof fn lemma_value_injective(x: Self, y: Self)
        requires
            x.spec_value() == y.spec_value(),
        ensures
            x == y,
    ;

    fn zero() -> (r: Self)
        ensures
            r.spec_value() == 0,
    ;

    fn is_zero(&self) -> (b: bool)
        ensures
            b == (self.spec_value() == 0),
    ;

    fn plus(self, rhs: Self) -> (r: Self)
        requires
            Self::spec_in_range(self.spec_value() + rhs.spec_value()),
        ensures
            r.spec_value() == self.spec_value() + rhs.spec_value(),
    ;

    fn times(self, rhs: Self) -> (r: Self)
        requires
            Self::spec_in_range(self.spec_value() * rhs.spec_value()),
        ensures
            r.spec_value() == self.spec_value() * rhs.spec_value(),
    ;
}

impl Scalar for i32 {
    open spec fn spec_value(self) -> int {
        self as int
    }

    open spec fn spec_in_range(v: int) -> bool {
        i32::MIN <= v <= i32::MAX
    }

    proof fn lemma_value_injective(x: i32, y: i32) {
    }

    fn zero() -> (r: i32) {
        0
    }

    fn is_zero(&self) -> (b: bool) {
        *self == 0
    }

    fn plus(self, rhs: i32) -> (r: i32) {
        self + rhs
    }

    fn times(self, rhs: i32) -> (r: i32) {
        self * rhs
    }
}

impl Scalar for i64 {
    open spec fn spec_value(self) -> int {
        self as int
    }

    open spec fn spec_in_range(v: int) -> bool {
        i64::MIN <= v <= i64::MAX
    }

    proof fn lemma_value_injective(x: i64, y: i64) {
    }

    fn zero() -> (r: i64) {
        0
    }

    fn is_zero(&self) -> (b: bool) {
        *self == 0
    }

    fn plus(self, rhs: i64) -> (r: i64) {
        self + rhs
    }

    fn times(self, rhs: i64) -> (r: i64) {
        self * rhs
    }
}

impl Scalar for u32 {
    open spec fn spec_value(self) -> int {
        self as int
    }

    open spec fn spec_in_range(v: int) -> bool {
        u32::MIN <= v <= u32::MAX
    }

    proof fn lemma_value_injective(x: u32, y: u32) {
    }

    fn zero() -> (r: u32) {
        0
    }

    fn is_zero(&self) -> (b: bool) {
        *self == 0
    }

    fn plus(self, rhs: u32) -> (r: u32) {
        self + rhs
    }

    fn times(self, rhs: u32) -> (r: u32) {
        self * rhs
    }
}

impl Scalar for u64 {
    open spec fn spec_value(self) -> int {
        self as int
    }

    open spec fn spec_in_range(v: int) -> bool {
        u64::MIN <= v <= u64::MAX
    }

    proof fn lemma_value_injective(x: u64, y: u64) {
    }

    fn zero() -> (r: u64) {
        0
    }

    fn is_zero(&self) -> (b: bool) {
        *self == 0
    }

    fn plus(self, rhs: u64) -> (r: u64) {
        self + rhs
    }

    fn times(self, rhs: u64) -> (r: u64) {
        self * rhs
    }
}


/// The positions stored in a sequence of indices, as integers.
pub open spec fn index_seq<I: Index>(s: Seq<I>) -> Seq<int> {
    Seq::new(s.len(), |k: int| s[k].spec_to_usize() as int)
}

/// The integers that a sequence of values stands for.
pub open spec fn value_seq<V: Scalar>(s: Seq<V>) -> Seq<int> {
    Seq::new(s.len(), |k: int| s[k].spec_value())
}

/// Row `idx` of a compressed-row matrix can be sliced out: its two offsets exist, are
/// ordered, and lie inside both the column and the value arrays.
pub open spec fn row_readable(rp: Seq<int>, cols_len: int, vals_len: int, idx: int) -> bool {
    &&& 0 <= idx
    &&& idx + 1 < rp.len()
    &&& rp[idx] <= rp[idx + 1]
    &&& rp[idx + 1] <= cols_len
    &&& rp[idx + 1] <= vals_len
}

/// A well-formed compressed-row matrix of `rows` rows and `ncols` columns: `rows + 1` offsets
/// from 0 up to the number of stored entries, never decreasing, and every stored column
/// position below `ncols`.
pub open spec fn csr_wf(rows: int, ncols: int, rp: Seq<int>, cols: Seq<int>, vals_len: int) -> bool {
    &&& rp.len() == rows + 1
    &&& rp[0] == 0
    &&& rp[rows] == cols.len()
    &&& cols.len() == vals_len
    &&& forall|i: int, j: int| 0 <= i <= j <= rows ==> #[trigger] rp[i] <= #[trigger] rp[j]
    &&& forall|k: int| 0 <= k < cols.len() ==> 0 <= #[trigger] cols[k] < ncols
}

/// Read access to a matrix in compressed-row form.
///
/// The spec functions expose the shape and the three arrays; `spec_row_offset_ok` says on
/// which rows `row_offset` may be asked (it differs between an owning container and a view).
pub trait SparseMatrix<I: Index, V: Scalar> {
    spec fn spec_shape(&self) -> (usize, usize);

    spec fn spec_row_ptrs(&self) -> Seq<I>;

    spec fn spec_col_indices(&self) -> Seq<I>;

    spec fn spec_values(&self) -> Seq<V>;

    spec fn spec_row_offset_ok(&self, idx: usize) -> bool;

    fn shape(&self) -> (r: (usize, usize))
        ensures
            r == self.spec_shape(),
    ;

    fn nnz(&self) -> (r: usize)
        ensures
            r == self.spec_values().len(),
    ;

    /// The column positions and values of row `idx`, or `None` past the last row.
    fn outer_slice(&self, idx: usize) -> (r: Option<(&[I], &[V])>)
        requires
            idx < self.spec_shape().0 ==> row_readable(
                index_seq(self.spec_row_ptrs()),
                self.spec_col_indices().len() as int,
                self.spec_values().len() as int,
                idx as int,
            ),
        ensures
            idx >= self.spec_shape().0 ==> r is None,
            idx < self.spec_shape().0 ==> (r matches Some((c, v)) && ({
                let start = self.spec_row_ptrs()[idx as int].spec_to_usize() as int;
                let end = self.spec_row_ptrs()[idx + 1].spec_to_usize() as int;
                &&& c@ == self.spec_col_indices().subrange(start, end)
                &&& v@ == self.spec_values().subrange(start, end)
            })),
    ;

    fn rows(&self) -> (r: usize)
        ensures
            r == self.spec_shape().0,
    {
        self.shape().0
    }

    /// The offset at which row `idx` starts among the stored entries.
    fn row_offset(&self, idx: usize) -> (r: usize)
        requires
            self.spec_row_offset_ok(idx),
        ensures
            (idx as int) < self.spec_row_ptrs().len(),
            r == self.spec_row_ptrs()[idx as int].spec_to_usize(),
    ;
}


/// The first position in `lo .. hi` whose offset reaches `target`, or `hi` when none does.
pub open spec fn first_reaching(rp: Seq<int>, lo: int, hi: int, target: int) -> int
    decreases hi - lo,
{
    if lo >= hi {
        hi
    } else if rp[lo] >= target {
        lo
    } else {
        first_reaching(rp, lo + 1, hi, target)
    }
}

/// A position before which no offset reaches `target`, and at which one does (unless it is the
/// end), is the first reaching position.
pub proof fn lemma_first_reaching(rp: Seq<int>, lo: int, hi: int, target: int, p: int)
    requires
        lo <= p <= hi,
        forall|q: int| lo <= q < p ==> #[trigger] rp[q] < target,
        p < hi ==> rp[p] >= target,
    ensures
        first_reaching(rp, lo, hi, target) == p,
    decreases p - lo,
{
    if lo < p {
        lemma_first_reaching(rp, lo + 1, hi, target, p);
    }
}

/// How many of `choices` are `true`.
pub open spec fn count_true(choices: Seq<bool>) -> nat
    decreases choices.len(),
{
    if choices.len() == 0 {
        0
    } else {
        count_true(choices.drop_last()) + if choices.last() {
            1nat
        } else {
            0nat
        }
    }
}

/// Putting one choice in front adds one to the count exactly when it is `true`.
pub proof fn lemma_count_true_prepend(c: bool, rest: Seq<bool>)
    ensures
        count_true(seq![c] + rest) == count_true(rest) + if c {
            1nat
        } else {
            0nat
        },
        count_true(rest) <= rest.len(),
    decreases rest.len(),
{
    if rest.len() == 0 {
        assert(seq![c] + rest =~= seq![c]);
        assert(seq![c].drop_last() =~= Seq::<bool>::empty());
        assert(seq![c].last() == c);
        assert(count_true(Seq::<bool>::empty()) == 0);
    } else {
        lemma_count_true_prepend(c, rest.drop_last());
        assert((seq![c] + rest).drop_last() =~= seq![c] + rest.drop_last());
        assert((seq![c] + rest).last() == rest.last());
    }
}

/// How the output buffer of a row-parallel kernel is cut into one chunk per row.
///
/// `spec_chunk(n)` is the number of output slots of a row that stores `n` entries, and
/// `spec_chunk_total(rp, lo, hi)` the number of slots of rows `lo .. hi` under row offsets `rp`.
/// `split_info` finds where to cut a block of rows in two, and the output slots before the cut.
pub trait ExecutionPolicy: Copy + Send + Sync + Sized {
    spec fn spec_chunk(&self, row_nnz: int) -> int;

    spec fn spec_chunk_total(&self, rp: Seq<int>, lo: int, hi: int) -> int;

    /// How many rows come before the cut when rows `start .. start + num_rows` are cut near
    /// `mid` rows in.
    spec fn spec_split_rows(&self, rp: Seq<int>, start: int, num_rows: int, mid: int) -> int;

    /// When `split_info` may be asked to cut rows `start .. start + num_rows` at `mid`.
    spec fn spec_split_ok(&self, rp: Seq<int>, start: int, num_rows: int, mid: int) -> bool;

    /// Whether `split_info` reads row offsets of the matrix.
    spec fn spec_reads_offsets(&self) -> bool;

    proof fn lemma_chunk_total_empty(&self, rp: Seq<int>, lo: int)
        ensures
            self.spec_chunk_total(rp, lo, lo) == 0,
    ;

    proof fn lemma_chunk_total_split(&self, rp: Seq<int>, lo: int, mid: int, hi: int)
        requires
            0 <= lo <= mid <= hi < rp.len(),
        ensures
            self.spec_chunk_total(rp, lo, hi) == self.spec_chunk_total(rp, lo, mid)
                + self.spec_chunk_total(rp, mid, hi),
    ;

    proof fn lemma_chunk_total_single(&self, rp: Seq<int>, lo: int)
        requires
            0 <= lo,
            lo + 1 < rp.len(),
        ensures
            self.spec_chunk_total(rp, lo, lo + 1) == self.spec_chunk(rp[lo + 1] - rp[lo]),
    ;

    proof fn lemma_chunk_total_nonneg(&self, rp: Seq<int>, lo: int, hi: int)
        requires
            0 <= lo <= hi < rp.len(),
            rp[lo] <= rp[hi],
        ensures
            self.spec_chunk_total(rp, lo, hi) >= 0,
    ;

    /// Cuts rows `start_row .. start_row + num_rows` after `r.0` rows; `r.1` is the number of
    /// output slots of those first rows.
    fn split_info<M: SparseMatrix<I, V>, I: Index, V: Scalar>(
        &self,
        matrix: &M,
        start_row: usize,
        num_rows: usize,
        mid: usize,
    ) -> (r: (usize, usize))
        requires
            self.spec_split_ok(
                index_seq(matrix.spec_row_ptrs()),
                start_row as int,
                num_rows as int,
                mid as int,
            ),
            self.spec_reads_offsets() ==> forall|q: usize|
                start_row <= q <= start_row + num_rows ==> #[trigger] matrix.spec_row_offset_ok(q),
        ensures
            r.0 == self.spec_split_rows(
                index_seq(matrix.spec_row_ptrs()),
                start_row as int,
                num_rows as int,
                mid as int,
            ),
            mid <= num_rows ==> r.0 <= num_rows,
            r.1 == self.spec_chunk_total(
                index_seq(matrix.spec_row_ptrs()),
                start_row as int,
                start_row + r.0,
            ),
    ;

    /// The output slots of a row whose column positions are `cols`.
    fn chunk_size<I: Index>(&self, cols: &[I]) -> (r: usize)
        ensures
            r == self.spec_chunk(cols@.len() as int),
    ;
}

/// Every row takes the same `k` output slots (one dense output row of `k` columns).
#[derive(Copy, Clone, Debug)]
pub struct SpmmPolicy {
    pub k: usize,
}

impl ExecutionPolicy for SpmmPolicy {
    open spec fn spec_chunk(&self, row_nnz: int) -> int {
        self.k as int
    }

    open spec fn spec_chunk_total(&self, rp: Seq<int>, lo: int, hi: int) -> int {
        (hi - lo) * self.k
    }

    open spec fn spec_split_rows(&self, rp: Seq<int>, start: int, num_rows: int, mid: int) -> int {
        mid
    }

    open spec fn spec_split_ok(&self, rp: Seq<int>, start: int, num_rows: int, mid: int) -> bool {
        mid * self.k <= usize::MAX
    }

    open spec fn spec_reads_offsets(&self) -> bool {
        false
    }

    proof fn lemma_chunk_total_empty(&self, rp: Seq<int>, lo: int) {
    }

    proof fn lemma_chunk_total_split(&self, rp: Seq<int>, lo: int, mid: int, hi: int) {
        assert((hi - lo) * self.k == (mid - lo) * self.k + (hi - mid) * self.k) by (nonlinear_arith);
    }

    proof fn lemma_chunk_total_single(&self, rp: Seq<int>, lo: int) {
        assert((lo + 1 - lo) * self.k == self.k) by (nonlinear_arith);
    }

    proof fn lemma_chunk_total_nonneg(&self, rp: Seq<int>, lo: int, hi: int) {
        assert((hi - lo) * self.k >= 0) by (nonlinear_arith)
            requires
                lo <= hi,
        ;
    }

    fn split_info<M: SparseMatrix<I, V>, I: Index, V: Scalar>(
        &self,
        matrix: &M,
        start_row: usize,
        num_rows: usize,
        mid: usize,
    ) -> (r: (usize, usize)) {
        (mid, mid * self.k)
    }

    fn chunk_size<I: Index>(&self, cols: &[I]) -> (r: usize) {
        self.k
    }
}

/// Each row takes one output slot per stored entry; blocks of rows are cut where the stored
/// entries split in half.
#[derive(Copy, Clone, Debug)]
pub struct SddmmPolicy;

impl ExecutionPolicy for SddmmPolicy {
    open spec fn spec_chunk(&self, row_nnz: int) -> int {
        row_nnz
    }

    open spec fn spec_chunk_total(&self, rp: Seq<int>, lo: int, hi: int) -> int {
        rp[hi] - rp[lo]
    }

    /// The first row of the block whose offset reaches half of the block's entries, or the
    /// block's end.
    open spec fn spec_split_rows(&self, rp: Seq<int>, start: int, num_rows: int, mid: int) -> int {
        first_reaching(
            rp,
            start,
            start + num_rows,
            rp[start] + (rp[start + num_rows] - rp[start]) / 2,
        ) - start
    }

    open spec fn spec_split_ok(&self, rp: Seq<int>, start: int, num_rows: int, mid: int) -> bool {
        &&& 0 <= start
        &&& start + num_rows <= usize::MAX
        &&& start + num_rows < rp.len()
        &&& forall|i: int, j: int|
            start <= i <= j <= start + num_rows ==> #[trigger] rp[i] <= #[trigger] rp[j]
    }

    open spec fn spec_reads_offsets(&self) -> bool {
        true
    }

    proof fn lemma_chunk_total_empty(&self, rp: Seq<int>, lo: int) {
    }

    proof fn lemma_chunk_total_split(&self, rp: Seq<int>, lo: int, mid: int, hi: int) {
    }

    proof fn lemma_chunk_total_single(&self, rp: Seq<int>, lo: int) {
    }

    proof fn lemma_chunk_total_nonneg(&self, rp: Seq<int>, lo: int, hi: int) {
    }

    /// Binary search for the first row at which the stored entries reach half of the block.
    fn split_info<M: SparseMatrix<I, V>, I: Index, V: Scalar>(
        &self,
        matrix: &M,
        start_row: usize,
        num_rows: usize,
        mid: usize,
    ) -> (r: (usize, usize))
        ensures
            ({
                let rp = index_seq(matrix.spec_row_ptrs());
                let s = start_row as int;
                let target = rp[s] + (rp[s + num_rows] - rp[s]) / 2;
                &&& r.0 <= num_rows
                &&& rp[s + r.0] >= target
                &&& forall|q: int| s <= q < s + r.0 ==> #[trigger] rp[q] < target
            }),
    {
        let ghost rp = index_seq(matrix.spec_row_ptrs());
        let start_offset = matrix.row_offset(start_row);
        let end_offset = matrix.row_offset(start_row + num_rows);
        assert(rp[start_row as int] <= rp[start_row + num_rows]);
        let target_nnz = start_offset + (end_offset - start_offset) / 2;
        let mut low = start_row;
        let mut high = start_row + num_rows;
        while low < high
            invariant
                start_row <= low <= high <= start_row + num_rows,
                rp == index_seq(matrix.spec_row_ptrs()),
                target_nnz == rp[start_row as int] + (rp[start_row + num_rows] - rp[start_row as int])
                    / 2,
                start_row + num_rows < rp.len(),
                forall|q: usize|
                    start_row <= q <= start_row + num_rows ==> #[trigger] matrix.spec_row_offset_ok(q),
                forall|i: int, j: int|
                    start_row <= i <= j <= start_row + num_rows ==> #[trigger] rp[i] <= #[trigger] rp[j],
                forall|q: int| start_row <= q < low ==> #[trigger] rp[q] < target_nnz,
                forall|q: int| high <= q <= start_row + num_rows ==> #[trigger] rp[q] >= target_nnz,
            decreases high - low,
        {
            let m = low + (high - low) / 2;
            if matrix.row_offset(m) < target_nnz {
                assert forall|q: int| start_row <= q < m + 1 implies #[trigger] rp[q] < target_nnz by {
                    assert(rp[q] <= rp[m as int]);
                }
                low = m + 1;
            } else {
                assert forall|q: int| m <= q <= start_row + num_rows implies #[trigger] rp[q]
                    >= target_nnz by {
                    assert(rp[m as int] <= rp[q]);
                }
                high = m;
            }
        }
        let mid_row_abs = low;
        proof {
            lemma_first_reaching(
                rp,
                start_row as int,
                start_row + num_rows,
                target_nnz as int,
                low as int,
            );
        }
        let mid_low_rel = mid_row_abs - start_row;
        let row_start = matrix.row_offset(mid_row_abs);
        assert(rp[start_row as int] <= rp[mid_row_abs as int]);
        let offset = row_start - start_offset;
        (mid_low_rel, offset)
    }

    fn chunk_size<I: Index>(&self, cols: &[I]) -> (r: usize) {
        cols.len()
    }
}


/// A block of consecutive rows of a matrix, together with the piece of the output buffer that
/// the block writes.
pub struct RowChunkProducer<'a, M, I, V, P> where
    M: SparseMatrix<I, V> + Sync,
    I: Index,
    V: Scalar,
    P: ExecutionPolicy,
 {
    pub matrix: &'a M,
    pub out: &'a mut [V],
    pub start_row: usize,
    pub num_rows: usize,
    pub policy: P,
    pub _marker: PhantomData<I>,
}

impl<'a, M, I, V, P> RowChunkProducer<'a, M, I, V, P> where
    M: SparseMatrix<I, V> + Sync,
    I: Index,
    V: Scalar,
    P: ExecutionPolicy,
 {
    /// The block is a run of rows of a well-formed matrix, and the output buffer is exactly
    /// as long as the policy's chunks of those rows.
    pub open spec fn covers(&self) -> bool {
        let rp = index_seq(self.matrix.spec_row_ptrs());
        let shape = self.matrix.spec_shape();
        &&& csr_wf(
            shape.0 as int,
            shape.1 as int,
            rp,
            index_seq(self.matrix.spec_col_indices()),
            self.matrix.spec_values().len() as int,
        )
        &&& self.start_row + self.num_rows <= shape.0
        &&& self.out@.len() == self.policy.spec_chunk_total(
            rp,
            self.start_row as int,
            self.start_row + self.num_rows,
        )
    }

    pub fn new(
        matrix: &'a M,
        out: &'a mut [V],
        start_row: usize,
        num_rows: usize,
        policy: P,
    ) -> (r: Self)
        ensures
            r.matrix == matrix,
            r.out@ == old(out)@,
            final(r.out)@ == final(out)@,
            r.start_row == start_row,
            r.num_rows == num_rows,
            r.policy == policy,
    {
        RowChunkProducer { matrix, out, start_row, num_rows, policy, _marker: PhantomData }
    }

    /// The number of rows in the block.
    pub fn len(&self) -> (r: usize)
        ensures
            r == self.num_rows,
    {
        self.num_rows
    }

    /// Walks the block row by row, positions counted from the start of its buffer.
    pub fn into_iter(self) -> (r: RowChunkWorker<'a, M, I, V, P>)
        ensures
            r.matrix == self.matrix,
            r.out@ == old(self.out)@,
            final(r.out)@ == final(self.out)@,
            r.start_row == self.start_row,
            r.num_rows == self.num_rows,
            r.policy == self.policy,
            r.out_start@ == 0,
    {
        RowChunkWorker {
            matrix: self.matrix,
            out: self.out,
            start_row: self.start_row,
            num_rows: self.num_rows,
            policy: self.policy,
            out_start: Ghost(0),
            _marker: PhantomData,
        }
    }

    /// Cuts the block in two where the policy says, near `index` rows in; the two halves
    /// take consecutive rows and the two consecutive pieces of the buffer, and each covers
    /// its rows.
    pub fn split_at(self, index: usize) -> (r: (Self, Self))
        requires
            self.covers(),
            index <= self.num_rows,
            self.policy.spec_split_ok(
                index_seq(self.matrix.spec_row_ptrs()),
                self.start_row as int,
                self.num_rows as int,
                index as int,
            ),
            self.policy.spec_reads_offsets() ==> forall|q: usize|
                self.start_row <= q <= self.start_row + self.num_rows
                    ==> #[trigger] self.matrix.spec_row_offset_ok(q),
        ensures
            r.0.covers(),
            r.1.covers(),
            r.0.matrix == self.matrix,
            r.1.matrix == self.matrix,
            r.0.policy == self.policy,
            r.1.policy == self.policy,
            r.0.start_row == self.start_row,
            r.1.start_row == self.start_row + r.0.num_rows,
            r.0.num_rows + r.1.num_rows == self.num_rows,
            r.0.num_rows == self.policy.spec_split_rows(
                index_seq(self.matrix.spec_row_ptrs()),
                self.start_row as int,
                self.num_rows as int,
                index as int,
            ),
            r.0.out@.len() == self.policy.spec_chunk_total(
                index_seq(self.matrix.spec_row_ptrs()),
                self.start_row as int,
                self.start_row + r.0.num_rows,
            ),
            r.0.out@ == old(self.out)@.subrange(0, r.0.out@.len() as int),
            r.1.out@ == old(self.out)@.subrange(r.0.out@.len() as int, old(self.out)@.len() as int),
            final(self.out)@ == final(r.0.out)@ + final(r.1.out)@,
    {
        let (mid_row_rel, split_offset) = self.policy.split_info(
            self.matrix,
            self.start_row,
            self.num_rows,
            index,
        );
        proof {
            let rp = index_seq(self.matrix.spec_row_ptrs());
            let s = self.start_row as int;
            self.policy.lemma_chunk_total_split(rp, s, s + mid_row_rel, s + self.num_rows);
            self.policy.lemma_chunk_total_nonneg(rp, s, s + mid_row_rel);
            self.policy.lemma_chunk_total_nonneg(rp, s + mid_row_rel, s + self.num_rows);
        }
        let (left_out, right_out) = self.out.split_at_mut(split_offset);
        (
            RowChunkProducer::new(
                self.matrix,
                left_out,
                self.start_row,
                mid_row_rel,
                self.policy,
            ),
            RowChunkProducer::new(
                self.matrix,
                right_out,
                self.start_row + mid_row_rel,
                self.num_rows - mid_row_rel,
                self.policy,
            ),
        )
    }
}

/// The rows of a block that are still to be handed out, and the range of the output that they
/// write: `out_len` slots from `out_start`.
pub struct RowBlock<'a, M, I, V, P> where
    M: SparseMatrix<I, V> + Sync,
    I: Index,
    V: Scalar,
    P: ExecutionPolicy,
 {
    pub matrix: &'a M,
    pub out_start: usize,
    pub out_len: usize,
    pub start_row: usize,
    pub num_rows: usize,
    pub policy: P,
    pub _marker: PhantomData<(I, V)>,
}

impl<'a, M, I, V, P> RowBlock<'a, M, I, V, P> where
    M: SparseMatrix<I, V> + Sync,
    I: Index,
    V: Scalar,
    P: ExecutionPolicy,
 {
    /// The block is a run of rows of a well-formed matrix, and the output range is exactly
    /// as long as the policy's chunks of those rows.
    pub open spec fn covers(&self) -> bool {
        let rp = index_seq(self.matrix.spec_row_ptrs());
        let shape = self.matrix.spec_shape();
        &&& csr_wf(
            shape.0 as int,
            shape.1 as int,
            rp,
            index_seq(self.matrix.spec_col_indices()),
            self.matrix.spec_values().len() as int,
        )
        &&& self.start_row + self.num_rows <= shape.0
        &&& self.out_len == self.policy.spec_chunk_total(
            rp,
            self.start_row as int,
            self.start_row + self.num_rows,
        )
        &&& self.out_start + self.out_len <= usize::MAX
    }

    /// Where the output chunk of row `r` starts: after the chunks of the rows from `start_row`
    /// up to `r`.
    pub open spec fn chunk_start(&self, r: int) -> int {
        self.out_start + self.policy.spec_chunk_total(
            index_seq(self.matrix.spec_row_ptrs()),
            self.start_row as int,
            r,
        )
    }

    /// How many output slots row `r` takes.
    pub open spec fn chunk_len(&self, r: int) -> int {
        let rp = index_seq(self.matrix.spec_row_ptrs());
        self.policy.spec_chunk(rp[r + 1] - rp[r])
    }

    /// The row that the next call hands out: the first remaining one from the front (`true`),
    /// the last remaining one from the back (`false`).
    pub open spec fn spec_row(&self, front: bool) -> int {
        if front {
            self.start_row as int
        } else {
            self.start_row + self.num_rows - 1
        }
    }

    /// The worker after handing out one row from the front (`true`) or the back (`false`).
    pub open spec fn spec_after(&self, front: bool) -> Self {
        let len = self.chunk_len(self.spec_row(front));
        if front {
            RowBlock {
                out_start: (self.out_start + len) as usize,
                out_len: (self.out_len - len) as usize,
                start_row: (self.start_row + 1) as usize,
                num_rows: (self.num_rows - 1) as usize,
                ..*self
            }
        } else {
            RowBlock {
                out_len: (self.out_len - len) as usize,
                num_rows: (self.num_rows - 1) as usize,
                ..*self
            }
        }
    }

    /// The worker after handing out one row for each of `choices`, front or back.
    pub open spec fn spec_after_all(&self, choices: Seq<bool>) -> Self
        decreases choices.len(),
    {
        if choices.len() == 0 {
            *self
        } else {
            self.spec_after(choices[0]).spec_after_all(choices.drop_first())
        }
    }

    /// What one row handed out for each of `choices`, in order, comes as: the row, where its
    /// output chunk starts, and how long it is.
    pub open spec fn handed_out(&self, choices: Seq<bool>) -> Seq<(int, int, int)>
        decreases choices.len(),
    {
        if choices.len() == 0 {
            Seq::empty()
        } else {
            let row = self.spec_row(choices[0]);
            seq![(row, self.chunk_start(row), self.chunk_len(row))] + self.spec_after(
                choices[0],
            ).handed_out(choices.drop_first())
        }
    }

    /// The chunks of the remaining rows tile the output range: the first starts at
    /// `out_start`, each ends where the next begins, none is negative, and the last ends at
    /// `out_start + out_len`.
    pub proof fn lemma_chunks_tile(&self)
        requires
            self.covers(),
        ensures
            self.chunk_start(self.start_row as int) == self.out_start,
            self.chunk_start(self.start_row + self.num_rows) == self.out_start + self.out_len,
            forall|r: int|
                self.start_row <= r < self.start_row + self.num_rows ==> {
                    &&& 0 <= #[trigger] self.chunk_len(r)
                    &&& self.chunk_start(r + 1) == self.chunk_start(r) + self.chunk_len(r)
                },
    {
        let rp = index_seq(self.matrix.spec_row_ptrs());
        let s = self.start_row as int;
        let rows = self.matrix.spec_shape().0 as int;
        self.policy.lemma_chunk_total_empty(rp, s);
        assert forall|r: int| s <= r < s + self.num_rows implies {
            &&& 0 <= #[trigger] self.chunk_len(r)
            &&& self.chunk_start(r + 1) == self.chunk_start(r) + self.chunk_len(r)
        } by {
            assert(rp[r] <= rp[r + 1]);
            self.policy.lemma_chunk_total_split(rp, s, r, r + 1);
            self.policy.lemma_chunk_total_single(rp, r);
            self.policy.lemma_chunk_total_nonneg(rp, r, r + 1);
        }
    }

    /// Handing out one row keeps the block covered, hands out that row's own chunk, and leaves
    /// every other remaining row's chunk where it was.
    pub proof fn lemma_step(&self, front: bool)
        requires
            self.covers(),
            self.num_rows > 0,
        ensures
            self.spec_after(front).covers(),
            self.spec_after(front).matrix == self.matrix,
            self.spec_after(front).policy == self.policy,
            self.spec_after(front).num_rows == self.num_rows - 1,
            self.start_row <= self.spec_row(front) < self.start_row + self.num_rows,
            front ==> self.spec_after(front).start_row == self.start_row + 1,
            !front ==> self.spec_after(front).start_row == self.start_row,
            front ==> self.chunk_start(self.spec_row(front)) == self.out_start,
            !front ==> self.chunk_start(self.spec_row(front)) == self.out_start + self.out_len
                - self.chunk_len(self.spec_row(front)),
            forall|r: int|
                self.spec_after(front).start_row <= r <= self.spec_after(front).start_row
                    + self.spec_after(front).num_rows ==> #[trigger] self.spec_after(
                    front,
                ).chunk_start(r) == self.chunk_start(r),
            forall|r: int| #[trigger] self.spec_after(front).chunk_len(r) == self.chunk_len(r),
    {
        let rp = index_seq(self.matrix.spec_row_ptrs());
        let s = self.start_row as int;
        let e = s + self.num_rows;
        let rows = self.matrix.spec_shape().0 as int;
        let w = self.spec_after(front);
        self.lemma_chunks_tile();
        let row = self.spec_row(front);
        assert(rp[row] <= rp[row + 1]);
        self.policy.lemma_chunk_total_single(rp, row);
        self.policy.lemma_chunk_total_nonneg(rp, row, row + 1);
        if front {
            self.policy.lemma_chunk_total_split(rp, s, s + 1, e);
            assert(rp[s + 1] <= rp[e]);
            self.policy.lemma_chunk_total_nonneg(rp, s + 1, e);
            assert(self.chunk_len(row) == self.policy.spec_chunk_total(rp, s, s + 1));
            assert(w.out_start == self.out_start + self.chunk_len(row));
            assert(w.out_len == self.out_len - self.chunk_len(row));
            assert(w.start_row == s + 1);
            assert forall|r: int| w.start_row <= r <= w.start_row + w.num_rows implies #[trigger] w.chunk_start(r)
                == self.chunk_start(r) by {
                self.policy.lemma_chunk_total_split(rp, s, s + 1, r);
            }
        } else {
            assert(rp[s] <= rp[e - 1]);
            self.policy.lemma_chunk_total_split(rp, s, e - 1, e);
            self.policy.lemma_chunk_total_nonneg(rp, s, e - 1);
        }
    }

    /// The chunk of a remaining row ends at or before the start of the chunk of any later
    /// remaining row.
    proof fn lemma_chunk_order(&self, r1: int, r2: int)
        requires
            self.covers(),
            self.start_row <= r1 < r2 <= self.start_row + self.num_rows,
        ensures
            self.chunk_start(r1) + self.chunk_len(r1) <= self.chunk_start(r2),
    {
        let rp = index_seq(self.matrix.spec_row_ptrs());
        let s = self.start_row as int;
        self.lemma_chunks_tile();
        assert(self.chunk_len(r1) >= 0);
        assert(rp[r1 + 1] <= rp[r2]);
        self.policy.lemma_chunk_total_split(rp, s, r1 + 1, r2);
        self.policy.lemma_chunk_total_nonneg(rp, r1 + 1, r2);
    }

    /// Any sequence of front and back calls, as many as there are rows, hands out the rows
    /// `start_row, start_row + 1, ...` from the front and the rows `start_row + num_rows - 1,
    /// start_row + num_rows - 2, ...` from the back, no row twice, each with its own chunk of
    /// the output range, no two chunks overlapping (and `lemma_chunks_tile` shows that the
    /// chunks tile the range), and leaves nothing: no row, no output slot.
    pub proof fn lemma_interleaving(&self, choices: Seq<bool>)
        requires
            self.covers(),
            choices.len() <= self.num_rows,
        ensures
            self.handed_out(choices).len() == choices.len(),
            forall|k: int|
                0 <= k < choices.len() ==> {
                    let item = #[trigger] self.handed_out(choices)[k];
                    let fronts = count_true(choices.take(k));
                    &&& item.0 == if choices[k] {
                        self.start_row + fronts
                    } else {
                        self.start_row + self.num_rows - 1 - (k - fronts)
                    }
                    &&& self.start_row <= item.0 < self.start_row + self.num_rows
                    &&& item.1 == self.chunk_start(item.0)
                    &&& item.2 == self.chunk_len(item.0)
                },
            forall|k1: int, k2: int|
                0 <= k1 < k2 < choices.len() ==> {
                    let a = #[trigger] self.handed_out(choices)[k1];
                    let b = #[trigger] self.handed_out(choices)[k2];
                    &&& a.0 != b.0
                    &&& (a.1 + a.2 <= b.1 || b.1 + b.2 <= a.1)
                },
            self.spec_after_all(choices).covers(),
            self.spec_after_all(choices).num_rows == self.num_rows - choices.len(),
            choices.len() == self.num_rows ==> self.spec_after_all(choices).out_len == 0,
        decreases choices.len(),
    {
        if choices.len() == 0 {
            if self.num_rows == 0 {
                self.lemma_chunks_tile();
            }
        } else {
            let c0 = choices[0];
            let rest = choices.drop_first();
            let w = self.spec_after(c0);
            self.lemma_step(c0);
            w.lemma_interleaving(rest);
            let items = self.handed_out(choices);
            let rest_items = w.handed_out(rest);
            assert forall|k: int| 0 <= k < choices.len() implies {
                let item = #[trigger] items[k];
                let fronts = count_true(choices.take(k));
                &&& item.0 == if choices[k] {
                    self.start_row + fronts
                } else {
                    self.start_row + self.num_rows - 1 - (k - fronts)
                }
                &&& self.start_row <= item.0 < self.start_row + self.num_rows
                &&& item.1 == self.chunk_start(item.0)
                &&& item.2 == self.chunk_len(item.0)
            } by {
                if k == 0 {
                    assert(choices.take(0) =~= Seq::<bool>::empty());
                    self.lemma_chunks_tile();
                } else {
                    assert(items[k] == rest_items[k - 1]);
                    assert(choices.take(k) =~= seq![c0] + rest.take(k - 1));
                    lemma_count_true_prepend(c0, rest.take(k - 1));
                    assert(rest[k - 1] == choices[k]);
                    let r = rest_items[k - 1].0;
                    assert(w.start_row <= r < w.start_row + w.num_rows);
                    assert(w.chunk_start(r) == self.chunk_start(r));
                    assert(w.chunk_len(r) == self.chunk_len(r));
                }
            }
            assert forall|k1: int, k2: int| 0 <= k1 < k2 < choices.len() implies {
                let a = #[trigger] items[k1];
                let b = #[trigger] items[k2];
                &&& a.0 != b.0
                &&& (a.1 + a.2 <= b.1 || b.1 + b.2 <= a.1)
            } by {
                let a = items[k1];
                let b = items[k2];
                assert(b == rest_items[k2 - 1]);
                if k1 > 0 {
                    assert(a == rest_items[k1 - 1]);
                } else {
                    assert(choices.take(0) =~= Seq::<bool>::empty());
                    assert(w.start_row <= b.0 < w.start_row + w.num_rows);
                }
                assert(a.0 != b.0);
                assert(self.start_row <= a.0 < self.start_row + self.num_rows);
                assert(self.start_row <= b.0 < self.start_row + self.num_rows);
                if a.0 < b.0 {
                    self.lemma_chunk_order(a.0, b.0);
                } else {
                    self.lemma_chunk_order(b.0, a.0);
                }
            }
            if choices.len() == self.num_rows {
                w.spec_after_all(rest).lemma_chunks_tile();
            }
        }
    }

    /// Once every row has been handed out, the chunks handed out have used up the output range:
    /// walking a block with `next` and `next_back` tiles its output range exactly.
    pub proof fn lemma_exhausted_fills_range(&self)
        requires
            self.covers(),
            self.num_rows == 0,
        ensures
            self.out_len == 0,
    {
        self.policy.lemma_chunk_total_empty(
            index_seq(self.matrix.spec_row_ptrs()),
            self.start_row as int,
        );
    }
}

/// Walks a block of rows from either end, handing out each row with its own piece of the
/// output buffer.
pub struct RowChunkWorker<'a, M, I, V, P> where
    M: SparseMatrix<I, V> + Sync,
    I: Index,
    V: Scalar,
    P: ExecutionPolicy,
 {
    pub matrix: &'a M,
    pub out: &'a mut [V],
    pub start_row: usize,
    pub num_rows: usize,
    pub policy: P,
    /// Where `out` begins in the buffer that the walk started with.
    pub out_start: Ghost<usize>,
    pub _marker: PhantomData<I>,
}

impl<'a, M, I, V, P> RowChunkWorker<'a, M, I, V, P> where
    M: SparseMatrix<I, V> + Sync,
    I: Index,
    V: Scalar,
    P: ExecutionPolicy,
 {
    /// The rows still to be handed out, and where in the walk's buffer their output lies.
    pub open spec fn block(&self) -> RowBlock<'a, M, I, V, P> {
        RowBlock {
            matrix: self.matrix,
            out_start: self.out_start@,
            out_len: self.out.len(),
            start_row: self.start_row,
            num_rows: self.num_rows,
            policy: self.policy,
            _marker: PhantomData,
        }
    }

    /// The remaining rows are a run of rows of a well-formed matrix, and the buffer left is
    /// exactly as long as their chunks.
    pub open spec fn covers(&self) -> bool {
        self.block().covers()
    }

    /// The number of rows not yet handed out.
    pub fn len(&self) -> (r: usize)
        ensures
            r == self.num_rows,
    {
        self.num_rows
    }

    /// As many rows remain as are left, no more and no fewer.
    pub fn size_hint(&self) -> (r: (usize, Option<usize>))
        ensures
            r == (self.num_rows, Some(self.num_rows)),
    {
        (self.num_rows, Some(self.num_rows))
    }

    /// The first remaining row: its index, columns, values and the front piece of the buffer
    /// that it writes, or `None` when no row is left.
    pub fn next(&mut self) -> (r: Option<(usize, &'a [I], &'a [V], &'a mut [V])>)
        requires
            old(self).covers(),
        ensures
            final(self).covers(),
            final(self).matrix == old(self).matrix,
            final(self).policy == old(self).policy,
            old(self).num_rows == 0 ==> r is None && *final(self) == *old(self),
            old(self).num_rows > 0 ==> (r matches Some((row, cols, vals, out)) && {
                let rp = old(self).matrix.spec_row_ptrs();
                let start = rp[row as int].spec_to_usize() as int;
                let end = rp[row + 1].spec_to_usize() as int;
                let len = old(self).policy.spec_chunk(end - start);
                let total = old(self).out@.len() as int;
                &&& row == old(self).start_row
                &&& cols@ == old(self).matrix.spec_col_indices().subrange(start, end)
                &&& vals@ == old(self).matrix.spec_values().subrange(start, end)
                &&& 0 <= len <= total
                &&& out@.len() == len
                &&& out@ == old(self).out@.subrange(0, len)
                &&& final(self).out@ == old(self).out@.subrange(len, total)
                &&& final(old(self).out)@ == final(out)@ + final(final(self).out)@
                &&& final(self).start_row == old(self).start_row + 1
                &&& final(self).num_rows == old(self).num_rows - 1
                &&& final(self).out_start@ == old(self).out_start@ + len
                &&& row == old(self).block().spec_row(true)
                &&& old(self).out_start@ == old(self).block().chunk_start(row as int)
                &&& len == old(self).block().chunk_len(row as int)
                &&& final(self).block() == old(self).block().spec_after(true)
            }),
    {
        let ghost w0 = self.block();
        if self.num_rows > 0 {
            proof {
                w0.lemma_step(true);
            }
        }
        if self.num_rows == 0 {
            return None;
        }
        let curr_row = self.start_row;
        let ghost rp = index_seq(self.matrix.spec_row_ptrs());
        let ghost rows = self.matrix.spec_shape().0 as int;
        proof {
            assert(rp[curr_row as int] <= rp[curr_row + 1]);
            assert(rp[curr_row + 1] <= rp[rows]);
            let s = curr_row as int;
            let e = s + self.num_rows;
            self.policy.lemma_chunk_total_split(rp, s, s + 1, e);
            self.policy.lemma_chunk_total_single(rp, s);
            self.policy.lemma_chunk_total_nonneg(rp, s + 1, e);
        }
        let matrix: &'a M = self.matrix;
        let (cols, vals) = match matrix.outer_slice(curr_row) {
            Some(row) => row,
            None => return None,
        };
        let chunk_size = self.policy.chunk_size(cols);
        let mut full: &'a mut [V] = &mut [];
        std::mem::swap(&mut full, &mut self.out);
        let (row_out, remaining) = full.split_at_mut(chunk_size);
        self.out = remaining;
        self.out_start = Ghost((self.out_start@ + chunk_size) as usize);
        self.start_row = self.start_row + 1;
        self.num_rows = self.num_rows - 1;
        Some((curr_row, cols, vals, row_out))
    }

    /// The last remaining row: its index, columns, values and the back piece of the buffer
    /// that it writes, or `None` when no row is left.
    pub fn next_back(&mut self) -> (r: Option<(usize, &'a [I], &'a [V], &'a mut [V])>)
        requires
            old(self).covers(),
        ensures
            final(self).covers(),
            final(self).matrix == old(self).matrix,
            final(self).policy == old(self).policy,
            old(self).num_rows == 0 ==> r is None && *final(self) == *old(self),
            old(self).num_rows > 0 ==> (r matches Some((row, cols, vals, out)) && {
                let rp = old(self).matrix.spec_row_ptrs();
                let start = rp[row as int].spec_to_usize() as int;
                let end = rp[row + 1].spec_to_usize() as int;
                let len = old(self).policy.spec_chunk(end - start);
                let total = old(self).out@.len() as int;
                &&& row == old(self).start_row + old(self).num_rows - 1
                &&& cols@ == old(self).matrix.spec_col_indices().subrange(start, end)
                &&& vals@ == old(self).matrix.spec_values().subrange(start, end)
                &&& 0 <= len <= total
                &&& out@.len() == len
                &&& out@ == old(self).out@.subrange(total - len, total)
                &&& final(self).out@ == old(self).out@.subrange(0, total - len)
                &&& final(old(self).out)@ == final(final(self).out)@ + final(out)@
                &&& final(self).start_row == old(self).start_row
                &&& final(self).num_rows == old(self).num_rows - 1
                &&& final(self).out_start@ == old(self).out_start@
                &&& row == old(self).block().spec_row(false)
                &&& old(self).out_start@ + total - len == old(self).block().chunk_start(row as int)
                &&& len == old(self).block().chunk_len(row as int)
                &&& final(self).block() == old(self).block().spec_after(false)
            }),
    {
        let ghost w0 = self.block();
        if self.num_rows > 0 {
            proof {
                w0.lemma_step(false);
            }
        }
        if self.num_rows == 0 {
            return None;
        }
        let last_idx = self.start_row + self.num_rows - 1;
        let ghost rp = index_seq(self.matrix.spec_row_ptrs());
        let ghost rows = self.matrix.spec_shape().0 as int;
        proof {
            assert(rp[last_idx as int] <= rp[last_idx + 1]);
            assert(rp[last_idx + 1] <= rp[rows]);
            let s = self.start_row as int;
            let l = last_idx as int;
            self.policy.lemma_chunk_total_split(rp, s, l, l + 1);
            self.policy.lemma_chunk_total_single(rp, l);
            self.policy.lemma_chunk_total_nonneg(rp, s, l);
        }
        let matrix: &'a M = self.matrix;
        let (cols, vals) = match matrix.outer_slice(last_idx) {
            Some(row) => row,
            None => return None,
        };
        let chunk_size = self.policy.chunk_size(cols);
        let mut full: &'a mut [V] = &mut [];
        std::mem::swap(&mut full, &mut self.out);
        let split_point = full.len() - chunk_size;
        let (remaining, row_out) = full.split_at_mut(split_point);
        self.out = remaining;
        self.num_rows = self.num_rows - 1;
        Some((last_idx, cols, vals, row_out))
    }
}

} // verus!

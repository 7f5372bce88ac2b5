use vstd::prelude::*;

use crate::matrix::csr::{csr_entries, row_entries};
use vstd::multiset::Multiset;

verus! {

/// How many keys are below `i`.
pub open spec fn count_below(keys: Seq<int>, i: int) -> nat
    decreases keys.len(),
{
    if keys.len() == 0 {
        0
    } else {
        count_below(keys.drop_last(), i) + if keys.last() < i {
            1nat
        } else {
            0nat
        }
    }
}

/// How many keys equal `i`.
pub open spec fn count_equal(keys: Seq<int>, i: int) -> nat
    decreases keys.len(),
{
    if keys.len() == 0 {
        0
    } else {
        count_equal(keys.drop_last(), i) + if keys.last() == i {
            1nat
        } else {
            0nat
        }
    }
}

/// The keys never decrease.
pub open spec fn nondecreasing(keys: Seq<int>) -> bool {
    forall|a: int, b: int| 0 <= a <= b < keys.len() ==> #[trigger] keys[a] <= #[trigger] keys[b]
}

/// Every key lies in `0 .. bound`.
pub open spec fn keys_below(keys: Seq<int>, bound: int) -> bool {
    forall|k: int| 0 <= k < keys.len() ==> 0 <= #[trigger] keys[k] < bound
}

/// Counting below `i + 1` adds the keys equal to `i`; both counts stay within the length.
pub proof fn lemma_count_step(keys: Seq<int>, i: int)
    ensures
        count_below(keys, i + 1) == count_below(keys, i) + count_equal(keys, i),
        count_below(keys, i) <= keys.len(),
        count_equal(keys, i) <= keys.len(),
        count_below(keys, i) + count_equal(keys, i) <= keys.len(),
    decreases keys.len(),
{
    if keys.len() > 0 {
        lemma_count_step(keys.drop_last(), i);
    }
}

/// With all keys in `0 .. bound`, none is below 0 and all are below `bound`.
pub proof fn lemma_count_ends(keys: Seq<int>, bound: int)
    requires
        keys_below(keys, bound),
    ensures
        count_below(keys, 0) == 0,
        count_below(keys, bound) == keys.len(),
    decreases keys.len(),
{
    if keys.len() > 0 {
        lemma_count_ends(keys.drop_last(), bound);
    }
}

/// Counting below grows with the threshold.
pub proof fn lemma_count_monotone(keys: Seq<int>, i: int, j: int)
    requires
        i <= j,
    ensures
        count_below(keys, i) <= count_below(keys, j),
    decreases keys.len(),
{
    if keys.len() > 0 {
        lemma_count_monotone(keys.drop_last(), i, j);
    }
}

/// In nondecreasing keys, the keys below `i` are exactly the first `count_below(keys, i)`.
pub proof fn lemma_sorted_count_split(keys: Seq<int>, i: int)
    requires
        nondecreasing(keys),
    ensures
        forall|k: int| 0 <= k < count_below(keys, i) ==> #[trigger] keys[k] < i,
        forall|k: int| count_below(keys, i) <= k < keys.len() ==> #[trigger] keys[k] >= i,
    decreases keys.len(),
{
    if keys.len() > 0 {
        let init = keys.drop_last();
        lemma_sorted_count_split(init, i);
        lemma_count_step(init, i);
        if keys.last() < i {
            assert forall|k: int| 0 <= k < count_below(keys, i) implies #[trigger] keys[k] < i by {
                assert(keys[k] <= keys[keys.len() - 1]);
            }
            assert(count_below(init, i) == init.len()) by {
                if count_below(init, i) < init.len() {
                    let k = count_below(init, i) as int;
                    assert(init[k] >= i);
                    assert(keys[k] <= keys[keys.len() - 1]);
                }
            }
        } else {
            assert forall|k: int| 0 <= k < count_below(keys, i) implies #[trigger] keys[k] < i by {
                assert(keys[k] == init[k]);
            }
            assert forall|k: int| count_below(keys, i) <= k < keys.len() implies #[trigger] keys[k]
                >= i by {
                if k < init.len() {
                    assert(keys[k] == init[k]);
                }
            }
        }
    }
}

/// Mapping two sequences that hold the same elements gives two sequences that hold the same
/// elements.
pub proof fn lemma_map_to_multiset<A, B>(a: Seq<A>, b: Seq<A>, f: spec_fn(A) -> B)
    requires
        a.to_multiset() == b.to_multiset(),
    ensures
        a.map_values(f).to_multiset() == b.map_values(f).to_multiset(),
    decreases a.len(),
{
    broadcast use vstd::seq_lib::group_to_multiset_ensures;
    broadcast use vstd::multiset::group_multiset_axioms;

    if a.len() == 0 {
        assert(a.to_multiset().len() == a.len());
        assert(b.to_multiset().len() == b.len());
        assert(a.map_values(f) =~= b.map_values(f));
    } else {
        let x = a.last();
        let init = a.drop_last();
        assert(init.push(x) =~= a);
        assert(a.to_multiset().count(x) > 0);
        assert(b.contains(x));
        let j = choose|j: int| 0 <= j < b.len() && b[j] == x;
        let b2 = b.remove(j);
        assert(init.to_multiset() =~= b2.to_multiset()) by {
            assert(a.to_multiset() =~= init.to_multiset().insert(x));
            assert(b2.to_multiset() =~= b.to_multiset().remove(x));
        }
        lemma_map_to_multiset(init, b2, f);
        assert(a.map_values(f) =~= init.map_values(f).push(f(x)));
        assert(b2.map_values(f) =~= b.map_values(f).remove(j));
        let bm = b.map_values(f);
        assert(bm[j] == f(x));
        assert(bm.remove(j).to_multiset() =~= bm.to_multiset().remove(f(x)));
        assert(bm.to_multiset().count(f(x)) > 0) by {
            assert(bm.contains(f(x)));
        }
        assert(a.map_values(f).to_multiset() =~= bm.to_multiset());
    }
}

/// The first `r` rows of sorted entries, read back through counted row offsets, are the
/// entries of those rows.
proof fn lemma_sorted_entries_prefix<C, V>(entries: Seq<(int, C, V)>, rows: int, r: int)
    requires
        0 <= r <= rows,
        nondecreasing(entries.map_values(|e: (int, C, V)| e.0)),
        keys_below(entries.map_values(|e: (int, C, V)| e.0), rows),
    ensures
        ({
            let keys = entries.map_values(|e: (int, C, V)| e.0);
            let rp = Seq::new((rows + 1) as nat, |i: int| count_below(keys, i) as int);
            csr_entries(
                rp,
                entries.map_values(|e: (int, C, V)| e.1),
                entries.map_values(|e: (int, C, V)| e.2),
                r,
            ) == entries.take(rp[r])
        }),
    decreases r,
{
    let keys = entries.map_values(|e: (int, C, V)| e.0);
    let cols = entries.map_values(|e: (int, C, V)| e.1);
    let vals = entries.map_values(|e: (int, C, V)| e.2);
    let rp = Seq::new((rows + 1) as nat, |i: int| count_below(keys, i) as int);
    lemma_count_ends(keys, rows);
    if r == 0 {
        assert(csr_entries(rp, cols, vals, 0) =~= entries.take(rp[0]));
    } else {
        let q = r - 1;
        lemma_sorted_entries_prefix(entries, rows, q);
        lemma_count_step(keys, q);
        lemma_sorted_count_split(keys, q);
        lemma_sorted_count_split(keys, r);
        let lo = rp[q];
        let hi = rp[r];
        let row = row_entries(rp, cols, vals, q);
        assert forall|t: int| 0 <= t < hi - lo implies #[trigger] row[t] == entries[lo + t] by {
            assert(keys[lo + t] >= q);
            assert(keys[lo + t] < r);
        }
        assert(entries.take(hi) =~= entries.take(lo) + row);
    }
}

/// No key is below a threshold that none reaches under.
pub proof fn lemma_count_below_none(keys: Seq<int>, i: int)
    requires
        forall|k: int| 0 <= k < keys.len() ==> #[trigger] keys[k] >= i,
    ensures
        count_below(keys, i) == 0,
    decreases keys.len(),
{
    if keys.len() > 0 {
        lemma_count_below_none(keys.drop_last(), i);
    }
}

/// Counting below a threshold adds up over a concatenation.
pub proof fn lemma_count_below_concat(a: Seq<int>, b: Seq<int>, i: int)
    ensures
        count_below(a + b, i) == count_below(a, i) + count_below(b, i),
    decreases b.len(),
{
    if b.len() == 0 {
        assert(a + b =~= a);
    } else {
        lemma_count_below_concat(a, b.drop_last(), i);
        assert((a + b).drop_last() =~= a + b.drop_last());
    }
}

/// The keys below `i` are as many as the `true`s among the answers to "is it below `i`?".
proof fn lemma_count_below_as_multiset(keys: Seq<int>, i: int)
    ensures
        count_below(keys, i) == keys.map_values(|k: int| k < i).to_multiset().count(true),
    decreases keys.len(),
{
    broadcast use vstd::seq_lib::group_to_multiset_ensures;
    broadcast use vstd::multiset::group_multiset_axioms;

    if keys.len() == 0 {
        assert(keys.map_values(|k: int| k < i) =~= Seq::<bool>::empty());
        assert(Seq::<bool>::empty().to_multiset() =~= Multiset::<bool>::empty());
    } else {
        lemma_count_below_as_multiset(keys.drop_last(), i);
        assert(keys.map_values(|k: int| k < i) =~= keys.drop_last().map_values(|k: int| k < i).push(
            keys.last() < i,
        ));
    }
}

/// Entries that hold the same elements have as many rows below any threshold.
pub proof fn lemma_count_below_permutation<C, V>(s: Seq<(int, C, V)>, t: Seq<(int, C, V)>, i: int)
    requires
        s.to_multiset() == t.to_multiset(),
    ensures
        count_below(s.map_values(|e: (int, C, V)| e.0), i) == count_below(
            t.map_values(|e: (int, C, V)| e.0),
            i,
        ),
{
    let f = |e: (int, C, V)| e.0 < i;
    lemma_map_to_multiset(s, t, f);
    lemma_count_below_as_multiset(s.map_values(|e: (int, C, V)| e.0), i);
    lemma_count_below_as_multiset(t.map_values(|e: (int, C, V)| e.0), i);
    assert(s.map_values(|e: (int, C, V)| e.0).map_values(|k: int| k < i) =~= s.map_values(f));
    assert(t.map_values(|e: (int, C, V)| e.0).map_values(|k: int| k < i) =~= t.map_values(f));
}

/// Entries sorted by row, with the row offsets that counting gives, read back row by row in
/// the same order.
pub proof fn lemma_sorted_entries_are_csr<C, V>(entries: Seq<(int, C, V)>, rows: int)
    requires
        0 <= rows,
        nondecreasing(entries.map_values(|e: (int, C, V)| e.0)),
        keys_below(entries.map_values(|e: (int, C, V)| e.0), rows),
    ensures
        ({
            let keys = entries.map_values(|e: (int, C, V)| e.0);
            let rp = Seq::new((rows + 1) as nat, |i: int| count_below(keys, i) as int);
            csr_entries(
                rp,
                entries.map_values(|e: (int, C, V)| e.1),
                entries.map_values(|e: (int, C, V)| e.2),
                rows,
            ) == entries
        }),
{
    let keys = entries.map_values(|e: (int, C, V)| e.0);
    lemma_count_ends(keys, rows);
    lemma_sorted_entries_prefix(entries, rows, rows);
    assert(entries.take(keys.len() as int) =~= entries);
}

} // verus!

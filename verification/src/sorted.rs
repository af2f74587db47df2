//! Sorting a list of numbers into strictly increasing order.

use vstd::prelude::*;

verus! {

/// Whether `s` is strictly increasing, so that nothing occurs twice in it.
pub open spec fn increasing(s: Seq<u64>) -> bool {
    forall|i: int, j: int| 0 <= i < j < s.len() ==> s[i] < s[j]
}

/// Whether `x` occurs among the first `n` items of `s`.
pub open spec fn among(s: Seq<u64>, n: int, x: u64) -> bool {
    exists|m: int| 0 <= m < n && s[m] == x
}

proof fn lemma_among_step(s: Seq<u64>, n: int, x: u64)
    requires
        0 <= n < s.len(),
    ensures
        among(s, n + 1, x) <==> among(s, n, x) || s[n] == x,
{
    if among(s, n + 1, x) {
        let m = choose|m: int| 0 <= m < n + 1 && s[m] == x;
        if m < n {
            assert(among(s, n, x));
        }
    }
    if among(s, n, x) {
        let m = choose|m: int| 0 <= m < n && s[m] == x;
        assert(0 <= m < n + 1 && s[m] == x);
    }
    if s[n] == x {
        assert(0 <= n < n + 1 && s[n] == x);
    }
}

proof fn lemma_among_all(s: Seq<u64>, x: u64)
    ensures
        among(s, s.len() as int, x) <==> s.contains(x),
{
    if among(s, s.len() as int, x) {
        let m = choose|m: int| 0 <= m < s.len() && s[m] == x;
        assert(s[m] == x);
    }
    if s.contains(x) {
        let m = choose|m: int| 0 <= m < s.len() && s[m] == x;
        assert(0 <= m < s.len() && s[m] == x);
    }
}

proof fn lemma_push_contains(s: Seq<u64>, y: u64, x: u64)
    ensures
        s.push(y).contains(x) <==> s.contains(x) || x == y,
{
    let t = s.push(y);
    if t.contains(x) {
        let m = choose|m: int| 0 <= m < t.len() && t[m] == x;
        if m < s.len() {
            assert(s[m] == x);
        }
    }
    if s.contains(x) {
        let m = choose|m: int| 0 <= m < s.len() && s[m] == x;
        assert(t[m] == x);
    }
    if x == y {
        assert(t[s.len() as int] == x);
    }
}

/// Merges two strictly increasing lists into one; what both hold comes once.
fn merge_distinct(a: &Vec<u64>, b: &Vec<u64>) -> (merged: Vec<u64>)
    requires
        increasing(a@),
        increasing(b@),
    ensures
        increasing(merged@),
        forall|x: u64| merged@.contains(x) <==> a@.contains(x) || b@.contains(x),
{
    let mut merged: Vec<u64> = Vec::new();
    let mut i: usize = 0;
    let mut j: usize = 0;
    while i < a.len() || j < b.len()
        invariant
            i <= a.len(),
            j <= b.len(),
            increasing(a@),
            increasing(b@),
            increasing(merged@),
            forall|k: int|
                0 <= k < merged.len() ==> (i < a.len() ==> #[trigger] merged[k] < a[i as int]) && (j
                    < b.len() ==> merged[k] < b[j as int]),
            forall|x: u64|
                merged@.contains(x) <==> among(a@, i as int, x) || among(b@, j as int, x),
        decreases a.len() - i + (b.len() - j),
    {
        let ghost before = merged@;
        let take_a = j >= b.len() || (i < a.len() && a[i] <= b[j]);
        let take_b = i >= a.len() || (j < b.len() && b[j] <= a[i]);
        let y = if take_a {
            a[i]
        } else {
            b[j]
        };
        merged.push(y);
        proof {
            assert forall|x: u64|
                merged@.contains(x) <==> among(a@, i + if take_a {
                    1int
                } else {
                    0int
                }, x) || among(b@, j + if take_b {
                    1int
                } else {
                    0int
                }, x) by {
                lemma_push_contains(before, y, x);
                if take_a {
                    lemma_among_step(a@, i as int, x);
                }
                if take_b {
                    lemma_among_step(b@, j as int, x);
                }
            }
        }
        if take_a {
            i = i + 1;
        }
        if take_b {
            j = j + 1;
        }
    }
    proof {
        assert forall|x: u64| merged@.contains(x) <==> a@.contains(x) || b@.contains(x) by {
            lemma_among_all(a@, x);
            lemma_among_all(b@, x);
        }
    }
    merged
}

/// Sorts the items of `values` from `lo` up to `hi`, each value once.
fn sort_range(values: &Vec<u64>, lo: usize, hi: usize) -> (sorted: Vec<u64>)
    requires
        lo <= hi <= values.len(),
    ensures
        increasing(sorted@),
        forall|x: u64| sorted@.contains(x) <==> values@.subrange(lo as int, hi as int).contains(x),
    decreases hi - lo,
{
    let ghost range = values@.subrange(lo as int, hi as int);
    if hi - lo == 0 {
        let sorted: Vec<u64> = Vec::new();
        assert forall|x: u64| sorted@.contains(x) <==> range.contains(x) by {
            if range.contains(x) {
                let m = choose|m: int| 0 <= m < range.len() && range[m] == x;
                assert(false);
            }
        }
        sorted
    } else if hi - lo == 1 {
        let mut sorted: Vec<u64> = Vec::new();
        sorted.push(values[lo]);
        assert(sorted@ =~= range);
        sorted
    } else {
        let mid = lo + (hi - lo) / 2;
        let left = sort_range(values, lo, mid);
        let right = sort_range(values, mid, hi);
        let sorted = merge_distinct(&left, &right);
        proof {
            let l = values@.subrange(lo as int, mid as int);
            let r = values@.subrange(mid as int, hi as int);
            assert(range =~= l + r);
            assert forall|x: u64| sorted@.contains(x) <==> range.contains(x) by {
                if l.contains(x) {
                    let m = choose|m: int| 0 <= m < l.len() && l[m] == x;
                    assert(range[m] == x);
                }
                if r.contains(x) {
                    let m = choose|m: int| 0 <= m < r.len() && r[m] == x;
                    assert(range[l.len() + m] == x);
                }
                if range.contains(x) {
                    let m = choose|m: int| 0 <= m < range.len() && range[m] == x;
                    if m < l.len() {
                        assert(l[m] == x);
                    } else {
                        assert(r[m - l.len()] == x);
                    }
                }
            }
        }
        sorted
    }
}

/// A strictly increasing list of items of `values` is no longer than
/// `values`.
pub proof fn lemma_increasing_is_shorter(sorted: Seq<u64>, values: Seq<u64>)
    requires
        increasing(sorted),
        forall|x: u64| sorted.contains(x) ==> values.contains(x),
    ensures
        sorted.len() <= values.len(),
{
    assert(sorted.no_duplicates()) by {
        assert forall|i: int, j: int| 0 <= i < sorted.len() && 0 <= j < sorted.len() && i
            != j implies sorted[i] != sorted[j] by {
            if i < j {
                assert(sorted[i] < sorted[j]);
            } else {
                assert(sorted[j] < sorted[i]);
            }
        }
    }
    sorted.unique_seq_to_set();
    values.lemma_cardinality_of_set();
    vstd::seq_lib::seq_to_set_is_finite(values);
    assert(sorted.to_set().subset_of(values.to_set()));
    vstd::set_lib::lemma_len_subset(sorted.to_set(), values.to_set());
}

/// The values of `values` in strictly increasing order, each one once.
pub fn sort_distinct(values: &Vec<u64>) -> (sorted: Vec<u64>)
    ensures
        increasing(sorted@),
        forall|x: u64| sorted@.contains(x) <==> values@.contains(x),
        sorted.len() <= values.len(),
{
    let sorted = sort_range(values, 0, values.len());
    assert(values@.subrange(0, values.len() as int) =~= values@);
    proof {
        lemma_increasing_is_shorter(sorted@, values@);
    }
    sorted
}

} // verus!

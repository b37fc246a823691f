use vstd::prelude::*;
use vstd::set_lib::*;

verus! {

/// A sequence of distinct indices, all below `bound`, has at most `bound`
/// entries.
pub proof fn lemma_distinct_below(s: Seq<usize>, bound: nat)
    requires
        s.no_duplicates(),
        forall|i: int| 0 <= i < s.len() ==> s[i] < bound,
    ensures
        s.len() <= bound,
{
    let ints = s.map_values(|x: usize| x as int);
    assert(ints.no_duplicates()) by {
        assert forall|i: int, j: int| 0 <= i < ints.len() && 0 <= j < ints.len() && i != j
            implies ints[i] != ints[j] by {
            assert(s[i] != s[j]);
        }
    }
    ints.unique_seq_to_set();
    lemma_int_range(0, bound as int);
    assert(ints.to_set().subset_of(set_int_range(0, bound as int))) by {
        assert forall|x: int| ints.to_set().contains(x) implies set_int_range(
            0,
            bound as int,
        ).contains(x) by {
            let i = choose|i: int| 0 <= i < ints.len() && ints[i] == x;
            assert(s[i] < bound);
        }
    }
    lemma_len_subset(ints.to_set(), set_int_range(0, bound as int));
}

/// A sequence of distinct indices below `bound` that misses one index below
/// `bound` has fewer than `bound` entries.
pub proof fn lemma_distinct_below_missing(s: Seq<usize>, bound: nat, k: usize)
    requires
        s.no_duplicates(),
        forall|i: int| 0 <= i < s.len() ==> s[i] < bound,
        k < bound,
        !s.contains(k),
    ensures
        s.len() < bound,
{
    let t = s.push(k);
    assert(t.no_duplicates()) by {
        assert forall|i: int, j: int| 0 <= i < t.len() && 0 <= j < t.len() && i != j implies t[i]
            != t[j] by {
            if i < s.len() && j < s.len() {
                assert(s[i] != s[j]);
            } else if i < s.len() {
                assert(s.contains(s[i]));
            } else {
                assert(s.contains(s[j]));
            }
        }
    }
    assert forall|i: int| 0 <= i < t.len() implies t[i] < bound by {
        if i < s.len() {
            assert(t[i] == s[i]);
        }
    }
    lemma_distinct_below(t, bound);
}

/// The number of indices below `n` of which `p` holds.
pub open spec fn count_below(p: spec_fn(int) -> bool, n: nat) -> nat
    decreases n,
{
    if n == 0 {
        0
    } else {
        count_below(p, (n - 1) as nat) + (if p(n - 1) {
            1nat
        } else {
            0nat
        })
    }
}

/// Predicates that agree below `n` have the same count below `n`.
pub proof fn lemma_count_same(p: spec_fn(int) -> bool, q: spec_fn(int) -> bool, n: nat)
    requires
        forall|i: int| 0 <= i < n ==> (#[trigger] p(i) <==> q(i)),
    ensures
        count_below(p, n) == count_below(q, n),
    decreases n,
{
    if n > 0 {
        lemma_count_same(p, q, (n - 1) as nat);
        assert(p(n - 1) <==> q(n - 1));
    }
}

/// A predicate that holds of no index below `n` counts none; one that
/// holds of no index from `m` on counts the same below any `n` at or
/// above `m`.
pub proof fn lemma_count_ends(p: spec_fn(int) -> bool, m: nat, n: nat)
    requires
        m <= n,
        forall|i: int| m <= i < n ==> !#[trigger] p(i),
    ensures
        count_below(p, n) == count_below(p, m),
    decreases n,
{
    if n > m {
        lemma_count_ends(p, m, (n - 1) as nat);
        assert(!p(n - 1));
    }
}

/// A sequence of distinct indices below `n` that holds exactly the indices
/// of which `p` holds is as long as the count of `p` below `n`.
pub proof fn lemma_len_is_count(l: Seq<usize>, p: spec_fn(int) -> bool, n: nat)
    requires
        l.no_duplicates(),
        forall|i: int| 0 <= i < l.len() ==> (#[trigger] l[i]) < n,
        forall|k: int| 0 <= k < n ==> (l.contains(k as usize) <==> #[trigger] p(k)),
        n <= usize::MAX,
    ensures
        l.len() == count_below(p, n),
    decreases n,
{
    if n == 0 {
        if l.len() > 0 {
            assert(l[0] < n);
        }
    } else {
        let last = (n - 1) as usize;
        if p(n - 1) {
            assert(l.contains(last));
            let i = l.index_of(last);
            assert(0 <= i < l.len() && l[i] == last);
            let r = l.remove(i);
            assert(r.no_duplicates()) by {
                assert forall|a: int, b: int| 0 <= a < r.len() && 0 <= b < r.len() && a != b
                    implies r[a] != r[b] by {
                    let a0 = if a < i { a } else { a + 1 };
                    let b0 = if b < i { b } else { b + 1 };
                    assert(l[a0] != l[b0]);
                }
            }
            assert forall|j: int| 0 <= j < r.len() implies (#[trigger] r[j]) < n - 1 by {
                let j0 = if j < i { j } else { j + 1 };
                assert(r[j] == l[j0]);
                assert(l[j0] != l[i]);
                assert(l[j0] < n);
            }
            assert forall|k: int| 0 <= k < n - 1 implies (r.contains(k as usize) <==> #[trigger] p(
                k,
            )) by {
                if r.contains(k as usize) {
                    let j = choose|j: int| 0 <= j < r.len() && r[j] == k as usize;
                    let j0 = if j < i { j } else { j + 1 };
                    assert(l[j0] == k as usize);
                    assert(l.contains(k as usize));
                }
                if p(k) {
                    assert(l.contains(k as usize));
                    let j0 = choose|j0: int| 0 <= j0 < l.len() && l[j0] == k as usize;
                    assert(j0 != i);
                    let j = if j0 < i { j0 } else { j0 - 1 };
                    assert(r[j] == k as usize);
                }
            }
            lemma_len_is_count(r, p, (n - 1) as nat);
        } else {
            assert forall|j: int| 0 <= j < l.len() implies (#[trigger] l[j]) < n - 1 by {
                assert(l[j] < n);
                if l[j] == last {
                    assert(l.contains(last));
                }
            }
            assert forall|k: int| 0 <= k < n - 1 implies (l.contains(k as usize) <==> #[trigger] p(
                k,
            )) by {}
            lemma_len_is_count(l, p, (n - 1) as nat);
        }
    }
}

/// The sum of `f` over the indices below `n`.
pub open spec fn sum_below(f: spec_fn(int) -> nat, n: nat) -> nat
    decreases n,
{
    if n == 0 {
        0
    } else {
        sum_below(f, (n - 1) as nat) + f(n - 1)
    }
}

/// Functions that agree below `n` have the same sum below `n`.
pub proof fn lemma_sum_same(f: spec_fn(int) -> nat, g: spec_fn(int) -> nat, n: nat)
    requires
        forall|i: int| 0 <= i < n ==> #[trigger] f(i) == g(i),
    ensures
        sum_below(f, n) == sum_below(g, n),
    decreases n,
{
    if n > 0 {
        lemma_sum_same(f, g, (n - 1) as nat);
        assert(f(n - 1) == g(n - 1));
    }
}

/// Counting the pairs of a relation row by row gives what counting them
/// column by column gives.
pub proof fn lemma_count_both_ways(rel: spec_fn(int, int) -> bool, rows: nat, cols: nat)
    ensures
        sum_below(|v: int| count_below(|k: int| rel(v, k), cols), rows) == sum_below(
            |k: int| count_below(|v: int| rel(v, k), rows),
            cols,
        ),
    decreases rows,
{
    let by_row = |v: int| count_below(|k: int| rel(v, k), cols);
    let by_col = |k: int| count_below(|v: int| rel(v, k), rows);
    if rows == 0 {
        lemma_sum_zero(by_col, cols);
    } else {
        let fewer = (rows - 1) as nat;
        lemma_count_both_ways(rel, fewer, cols);
        let by_row_fewer = |v: int| count_below(|k: int| rel(v, k), cols);
        let by_col_fewer = |k: int| count_below(|v: int| rel(v, k), fewer);
        let last_row = |k: int| rel(rows - 1, k);
        let ones = |k: int| if rel(rows - 1, k) { 1nat } else { 0nat };
        assert forall|k: int| 0 <= k < cols implies #[trigger] by_col(k) == by_col_fewer(k) + ones(
            k,
        ) by {}
        lemma_sum_split(by_col, by_col_fewer, ones, cols);
        lemma_count_is_sum(last_row, ones, cols);
        lemma_sum_same(by_row, by_row_fewer, fewer);
        assert(by_row(rows - 1) == count_below(last_row, cols)) by {
            lemma_count_same(|k: int| rel(rows - 1, k), last_row, cols);
        }
    }
}

/// A sum of zeros is zero.
pub proof fn lemma_sum_zero(f: spec_fn(int) -> nat, n: nat)
    requires
        forall|i: int| 0 <= i < n ==> #[trigger] f(i) == 0,
    ensures
        sum_below(f, n) == 0,
    decreases n,
{
    if n > 0 {
        lemma_sum_zero(f, (n - 1) as nat);
        assert(f(n - 1) == 0);
    }
}

/// The sum of a sum is the sum of the sums.
pub proof fn lemma_sum_split(
    f: spec_fn(int) -> nat,
    g: spec_fn(int) -> nat,
    h: spec_fn(int) -> nat,
    n: nat,
)
    requires
        forall|i: int| 0 <= i < n ==> #[trigger] f(i) == g(i) + h(i),
    ensures
        sum_below(f, n) == sum_below(g, n) + sum_below(h, n),
    decreases n,
{
    if n > 0 {
        lemma_sum_split(f, g, h, (n - 1) as nat);
        assert(f(n - 1) == g(n - 1) + h(n - 1));
    }
}

/// A count is the sum of ones.
pub proof fn lemma_count_is_sum(p: spec_fn(int) -> bool, ones: spec_fn(int) -> nat, n: nat)
    requires
        forall|i: int| 0 <= i < n ==> #[trigger] ones(i) == (if p(i) {
            1nat
        } else {
            0nat
        }),
    ensures
        count_below(p, n) == sum_below(ones, n),
    decreases n,
{
    if n > 0 {
        lemma_count_is_sum(p, ones, (n - 1) as nat);
        assert(ones(n - 1) == (if p(n - 1) {
            1nat
        } else {
            0nat
        }));
    }
}

} // verus!

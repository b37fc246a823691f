use crate::search::Search;
use crate::solver::Solver;
use vstd::prelude::*;

verus! {

/// Four to the power of `k`.
pub open spec fn pow4(k: nat) -> nat
    decreases k,
{
    if k == 0 {
        1
    } else {
        4 * pow4((k - 1) as nat)
    }
}

/// How far the entry at position `i` of a trail of `len` entries has got:
/// nothing (0) for a position beyond the trail or an entry without a value
/// yet; below the top, 1 for a decision on its first value and 3 for an
/// entry without another value to try; at the top, 2 for a decision whose
/// first value failed and 3 for an entry without another value to try.
pub open spec fn digit(flags: Seq<Option<bool>>, len: int, i: int) -> nat {
    if i >= len {
        0
    } else if flags[i] == Some(true) {
        3
    } else if i == len - 1 {
        if flags[i] is None {
            0
        } else {
            2
        }
    } else {
        1
    }
}

/// The digits from position `i` on, read as a number to the base four, the
/// digit of position `n - 1` being the last.
pub open spec fn weight_from(flags: Seq<Option<bool>>, len: int, n: int, i: int) -> nat
    decreases n - i,
{
    if i >= n {
        0
    } else {
        digit(flags, len, i) * pow4((n - 1 - i) as nat) + weight_from(flags, len, n, i + 1)
    }
}

/// The digits from position `i` on make a number below four to the power
/// of their count.
pub proof fn lemma_weight_bound(flags: Seq<Option<bool>>, len: int, n: int, i: int)
    requires
        0 <= i <= n,
    ensures
        weight_from(flags, len, n, i) < pow4((n - i) as nat),
    decreases n - i,
{
    if i < n {
        lemma_weight_bound(flags, len, n, i + 1);
        let k = (n - 1 - i) as nat;
        let d = digit(flags, len, i);
        assert(d <= 3);
        assert(pow4((n - i) as nat) == 4 * pow4(k));
        assert(d * pow4(k) <= 3 * pow4(k)) by (nonlinear_arith)
            requires
                d <= 3,
        ;
    }
}

/// Trails whose digits agree before position `j`, and of which the second
/// has the larger digit at `j`, compare as their digits at `j` do.
pub proof fn lemma_weight_grows(
    f1: Seq<Option<bool>>,
    len1: int,
    f2: Seq<Option<bool>>,
    len2: int,
    n: int,
    j: int,
    i: int,
)
    requires
        0 <= i <= j < n,
        forall|p: int| i <= p < j ==> digit(f1, len1, p) == digit(f2, len2, p),
        digit(f1, len1, j) < digit(f2, len2, j),
    ensures
        weight_from(f1, len1, n, i) < weight_from(f2, len2, n, i),
    decreases j - i,
{
    if i < j {
        lemma_weight_grows(f1, len1, f2, len2, n, j, i + 1);
        assert(digit(f1, len1, i) == digit(f2, len2, i));
    } else {
        let k = (n - 1 - j) as nat;
        lemma_weight_bound(f1, len1, n, j + 1);
        let d1 = digit(f1, len1, j);
        let d2 = digit(f2, len2, j);
        assert(d1 * pow4(k) + pow4(k) <= d2 * pow4(k)) by (nonlinear_arith)
            requires
                d1 + 1 <= d2,
        ;
    }
}

impl Search {
    /// How far the trail has got, as a number: see `digit`.
    pub open spec fn weight(&self, s: &Solver) -> nat {
        weight_from(self.var_exhausted@, self.assigned@.len() as int, s.num_vars() as int, 0)
    }

    /// The number of clauses that were learned since the last restart.
    pub open spec fn learned_since(&self) -> nat {
        if self.clauses_learned >= self.learned_at_restart {
            (self.clauses_learned - self.learned_at_restart) as nat
        } else {
            0
        }
    }

    /// The room for restarts: the clauses that can still be learned, and
    /// those that were learned since the last restart.
    pub open spec fn room(&self, s: &Solver) -> nat {
        (self.capacity - s.num_clauses()) as nat + self.learned_since()
    }

    /// The search has made progress from `self` to `next`: the room for
    /// restarts shrank, or it stayed and the trail got further.
    pub open spec fn progressed(&self, s: &Solver, next: &Search, t: &Solver) -> bool {
        next.room(t) < self.room(s) || (next.room(t) == self.room(s) && next.weight(t)
            > self.weight(s))
    }
}

} // verus!

use crate::connections::Connection;
use vstd::prelude::*;
use vstd::seq_lib::to_multiset_build;
use vstd::seq_lib::to_multiset_insert;

verus! {

/// The order of the canonical form: by variable, and on one variable the
/// negative literal first.
pub open spec fn lit_before(a: Connection, b: Connection) -> bool {
    a.var_pos < b.var_pos || (a.var_pos == b.var_pos && !a.val && b.val)
}

/// No literal stands before an earlier one.
pub open spec fn sorted_lits(s: Seq<Connection>) -> bool {
    forall|i: int, j: int| 0 <= i < j < s.len() ==> !lit_before(s[j], s[i])
}

/// The order of the canonical form as a relation: `a` stands at or before
/// `b`.
pub open spec fn canonical_order() -> spec_fn(Connection, Connection) -> bool {
    |a: Connection, b: Connection| !lit_before(b, a)
}

/// The canonical form of a list of literals: the same literals, sorted by
/// variable and, on one variable, the negative literal first.
pub open spec fn canonical(lits: Seq<Connection>) -> Seq<Connection> {
    lits.sort_by(canonical_order())
}

/// The order of the canonical form is a total order, so that a list of
/// literals has one canonical form.
pub proof fn lemma_canonical(lits: Seq<Connection>, sorted: Seq<Connection>)
    requires
        sorted_lits(sorted),
        sorted.to_multiset() == lits.to_multiset(),
    ensures
        sorted == canonical(lits),
{
    let leq = canonical_order();
    assert(vstd::relations::total_ordering(leq)) by {
        assert(vstd::relations::reflexive(leq));
        assert(vstd::relations::antisymmetric(leq)) by {
            assert forall|a: Connection, b: Connection| #[trigger] leq(a, b) && #[trigger] leq(
                b,
                a,
            ) implies a == b by {}
        }
        assert(vstd::relations::transitive(leq));
        assert(vstd::relations::strongly_connected(leq));
    }
    lits.lemma_sort_by_ensures(leq);
    assert(vstd::relations::sorted_by(sorted, leq)) by {
        assert forall|i: int, j: int| 0 <= i < j < sorted.len() implies #[trigger] leq(
            sorted[i],
            sorted[j],
        ) by {
            assert(!lit_before(sorted[j], sorted[i]));
        }
    }
    vstd::seq_lib::lemma_sorted_unique(sorted, canonical(lits), leq);
}

/// A clause in canonical form, with its quality measure: the number of
/// distinct decision levels among its literals.
#[derive(Debug, PartialEq, Eq, PartialOrd, Ord)]
pub struct LearnedClause {
    pub lbd: usize,
    pub lits: Vec<Connection>,
    pub index: usize,
}

/// The literals in canonical order.
pub fn sort_literals(lits: Vec<Connection>) -> (r: Vec<Connection>)
    ensures
        r@ == canonical(lits@),
        sorted_lits(r@),
        r@.to_multiset() == lits@.to_multiset(),
        r@.len() == lits@.len(),
{
    let mut r: Vec<Connection> = Vec::new();
    let n = lits.len();
    let mut i: usize = 0;
    proof {
        assert(lits@.subrange(0, 0) =~= Seq::<Connection>::empty());
    }
    while i < n
        invariant
            i <= n,
            n == lits@.len(),
            r@.len() == i,
            sorted_lits(r@),
            r@.to_multiset() == lits@.subrange(0, i as int).to_multiset(),
        decreases n - i,
    {
        let x = lits[i];
        let mut p: usize = 0;
        while p < r.len() && !(x.var_pos < r[p].var_pos || (x.var_pos == r[p].var_pos && !x.val
            && r[p].val))
            invariant
                p <= r@.len(),
                forall|q: int| 0 <= q < p ==> !lit_before(x, r@[q]),
            decreases r@.len() - p,
        {
            p += 1;
        }
        let ghost before = r@;
        r.insert(p, x);
        proof {
            to_multiset_insert(before, p as int, x);
            assert(lits@.subrange(0, i + 1) =~= lits@.subrange(0, i as int).push(x));
            to_multiset_build(lits@.subrange(0, i as int), x);
            assert forall|a: int, b: int| 0 <= a < b < r@.len() implies !lit_before(
                r@[b],
                r@[a],
            ) by {
                if b < p {
                    assert(!lit_before(before[b], before[a]));
                } else if b == p {
                } else if a < p {
                    assert(!lit_before(before[b - 1], before[a]));
                } else if a == p {
                    assert(lit_before(x, before[p as int]));
                    if b - 1 > p {
                        assert(!lit_before(before[b - 1], before[p as int]));
                    }
                } else {
                    assert(!lit_before(before[b - 1], before[a - 1]));
                }
            }
        }
        i += 1;
    }
    proof {
        assert(lits@.subrange(0, n as int) =~= lits@);
        lemma_canonical(lits@, r@);
    }
    r
}

/// Whether the two lists hold the same literals in the same order.
pub fn same_literals(a: &Vec<Connection>, b: &Vec<Connection>) -> (r: bool)
    ensures
        r == (a@ == b@),
{
    if a.len() != b.len() {
        return false;
    }
    let n = a.len();
    let mut i: usize = 0;
    while i < n
        invariant
            i <= n,
            n == a@.len(),
            n == b@.len(),
            forall|j: int| 0 <= j < i ==> a@[j] == b@[j],
        decreases n - i,
    {
        if a[i].var_pos != b[i].var_pos || a[i].val != b[i].val {
            return false;
        }
        i += 1;
    }
    proof {
        assert(a@ =~= b@);
    }
    true
}

impl LearnedClause {
    /// The clause with the given literals, brought into canonical order.
    pub fn new(lbd: usize, lits: Vec<Connection>, index: usize) -> (c: Self)
        ensures
            c.lbd == lbd,
            c.index == index,
            c.lits@ == canonical(lits@),
            sorted_lits(c.lits@),
            c.lits@.to_multiset() == lits@.to_multiset(),
    {
        let lits = sort_literals(lits);
        LearnedClause { lbd, lits, index }
    }
}

/// Whether one of the clauses of `seen` has the literals `lits`.
pub fn is_known(seen: &Vec<LearnedClause>, lits: &Vec<Connection>) -> (r: bool)
    ensures
        r == exists|i: int| 0 <= i < seen@.len() && (#[trigger] seen@[i]).lits@ == lits@,
{
    let n = seen.len();
    let mut i: usize = 0;
    while i < n
        invariant
            i <= n,
            n == seen@.len(),
            forall|j: int| 0 <= j < i ==> (#[trigger] seen@[j]).lits@ != lits@,
        decreases n - i,
    {
        if same_literals(&seen[i].lits, lits) {
            return true;
        }
        i += 1;
    }
    false
}

} // verus!

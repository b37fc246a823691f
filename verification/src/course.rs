use crate::branching::CurResult;
use crate::laws::lemma_one_open;
use crate::logic::clause_live;
use crate::logic::clause_true;
use crate::logic::lemma_open_count_zero;
use crate::logic::lit_false;
use crate::logic::lit_open;
use crate::logic::lit_true;
use crate::logic::mentions;
use crate::logic::model_satisfies;
use crate::logic::open_count;
use crate::logic::Values;
use crate::search::Search;
use crate::solver::Solver;
use vstd::prelude::*;

verus! {

/// Variable `v` stands in `order` before position `i`.
pub open spec fn listed_before(order: Seq<int>, i: int, v: int) -> bool {
    exists|j: int| 0 <= j < i && #[trigger] order[j] == v
}

/// Every value that is there is the value that `m` has.
pub open spec fn agrees(vals: Values, m: Seq<bool>) -> bool {
    forall|v: int| 0 <= v < vals.len() && (#[trigger] vals[v]) is Some ==> vals[v] == Some(m[v])
}

/// Below `bound`, `i` is the first index of which `p` holds.
pub open spec fn first_with(p: spec_fn(int) -> bool, bound: int, i: int) -> bool {
    0 <= i < bound && p(i) && forall|j: int| 0 <= j < i ==> !#[trigger] p(j)
}

/// Where `p` holds of an index below `bound`, there is a first such index.
pub proof fn lemma_first_with(p: spec_fn(int) -> bool, bound: int)
    requires
        exists|i: int| 0 <= i < bound && #[trigger] p(i),
    ensures
        exists|i: int| #[trigger] first_with(p, bound, i),
    decreases bound,
{
    let i = choose|i: int| 0 <= i < bound && #[trigger] p(i);
    if exists|j: int| 0 <= j < i && #[trigger] p(j) {
        lemma_first_with(p, i);
        let f = choose|f: int| #[trigger] first_with(p, i, f);
        assert(first_with(p, bound, f));
    } else {
        assert(first_with(p, bound, i));
    }
}

impl Solver {
    /// Under `m`, clause `k` forces the variable at position `i` of
    /// `order` once the variables before it have their values: it has one
    /// literal on that variable, and its other literals are on variables
    /// that stand earlier in `order` and are false under `m`.
    pub open spec fn forces_by(&self, k: int, m: Seq<bool>, order: Seq<int>, i: int) -> bool {
        let cl = self.clause(k);
        &&& 0 <= k < self.num_clauses()
        &&& mentions(cl, order[i])
        &&& forall|t1: int, t2: int|
            0 <= t1 < cl.len() && 0 <= t2 < cl.len() && (#[trigger] cl[t1]).var_pos == order[i] && (
            #[trigger] cl[t2]).var_pos == order[i] ==> t1 == t2
        &&& forall|t: int|
            0 <= t < cl.len() && (#[trigger] cl[t]).var_pos != order[i] ==> m[cl[t].var_pos as int]
                != cl[t].val && listed_before(order, i, cl[t].var_pos as int)
    }

    /// Some clause forces the variable at position `i` of `order`.
    pub open spec fn forced_at(&self, m: Seq<bool>, order: Seq<int>, i: int) -> bool {
        exists|k: int| #[trigger] self.forces_by(k, m, order, i)
    }

    /// Unit propagation alone finds the model `m`: `order` lists every
    /// variable, and each in its turn is forced by a clause whose other
    /// variables stand earlier.
    pub open spec fn propagates(&self, m: Seq<bool>, order: Seq<int>) -> bool {
        &&& self.is_model(m)
        &&& forall|v: int| 0 <= v < self.num_vars() ==> #[trigger] order.contains(v)
        &&& forall|i: int| 0 <= i < order.len() ==> #[trigger] self.forced_at(m, order, i)
    }

    /// What unit propagation finds stays so while the variables and the
    /// clauses stay.
    pub proof fn lemma_propagates_kept(&self, t: &Solver, m: Seq<bool>, order: Seq<int>)
        requires
            self.propagates(m, order),
            t.num_vars() == self.num_vars(),
            t.num_clauses() == self.num_clauses(),
            forall|k: int| 0 <= k < self.num_clauses() ==> #[trigger] t.clause(k) == self.clause(k),
        ensures
            t.propagates(m, order),
    {
        assert forall|k: int| 0 <= k < t.num_clauses() implies model_satisfies(
            m,
            #[trigger] t.clause(k),
        ) by {
            assert(model_satisfies(m, self.clause(k)));
        }
        assert forall|i: int| 0 <= i < order.len() implies #[trigger] t.forced_at(m, order, i) by {
            assert(self.forced_at(m, order, i));
            let k = choose|k: int| #[trigger] self.forces_by(k, m, order, i);
            assert(t.clause(k) == self.clause(k));
            assert(t.forces_by(k, m, order, i));
        }
    }

    /// No clause is falsified while the values agree with a model.
    pub proof fn lemma_all_live(&self, m: Seq<bool>, list: Seq<usize>)
        requires
            self.wf(),
            self.is_model(m),
            agrees(self.vals(), m),
            forall|i: int| 0 <= i < list.len() ==> (#[trigger] list[i]) < self.num_clauses(),
        ensures
            forall|i: int|
                0 <= i < list.len() ==> clause_live(self.clause(#[trigger] list[i] as int), self.vals()),
    {
        assert forall|i: int| 0 <= i < list.len() implies clause_live(
            self.clause(#[trigger] list[i] as int),
            self.vals(),
        ) by {
            let cl = self.clause(list[i] as int);
            self.lemma_clause_within(list[i] as int);
            assert(model_satisfies(m, cl));
            let j = choose|j: int| 0 <= j < cl.len() && m[(#[trigger] cl[j]).var_pos as int] == cl[j].val;
            assert(!lit_false(cl[j], self.vals()));
        }
    }
}

impl Search {
    /// The search is on the course of unit propagation towards the model
    /// `m`: every entry of the trail is a unit entry, the entry at the top
    /// has no value yet, the values that are there are those of `m`, and
    /// nothing was learned.
    pub open spec fn on_course(&self, s: &Solver, m: Seq<bool>, open: bool) -> bool {
        &&& forall|i: int| 0 <= i < self.assigned@.len() ==> (#[trigger] self.antecedents@[i]).is_uc
        &&& open ==> s.vals()[self.assigned@[self.assigned@.len() - 1] as int] is None
        &&& agrees(s.vals(), m)
        &&& self.clauses_learned == 0
        &&& self.learned_at_restart == 0
    }

    /// On the course of unit propagation the value that the top of the
    /// trail gets next is the value that the model has.
    pub proof fn lemma_forced_value(&self, s: &Solver, m: Seq<bool>)
        requires
            self.inv(s, true),
            s.is_model(m),
            self.on_course(s, m, true),
        ensures
            self.next_value(s) == m[self.assigned@[self.assigned@.len() - 1] as int],
    {
        let top = self.assigned@.len() - 1;
        let pos = self.assigned@[top] as int;
        assert(self.antecedents@[top].is_uc);
        assert(self.unit_at(s, top));
        let a = self.antecedents@[top].antecedent->0 as int;
        let cl = s.clause(a);
        s.lemma_clause_within(a);
        assert(model_satisfies(m, cl));
        let j = choose|j: int| 0 <= j < cl.len() && m[(#[trigger] cl[j]).var_pos as int] == cl[j].val;
        if cl[j].var_pos != pos {
            assert(lit_false(cl[j], s.vals()));
        }
        let t = choose|t: int| 0 <= t < cl.len() && (#[trigger] cl[t]).var_pos == pos;
        assert(t == j);
    }

    /// On the course of unit propagation, when a clause is left
    /// unsatisfied, the branching heuristic finds a unit clause.
    pub proof fn lemma_next_is_unit(
        &self,
        s: &Solver,
        m: Seq<bool>,
        order: Seq<int>,
        nc: CurResult,
    )
        requires
            self.inv(s, false),
            s.propagates(m, order),
            agrees(s.vals(), m),
            s.next_decision(self.unsat_groups@, self.variable_unsat_groups, nc),
            nc.set,
        ensures
            nc.is_uc,
            nc.cur is Some,
    {
        let vals = s.vals();
        let n = s.num_vars() as int;
        let unsat = self.unsat_groups@;
        assert(self.masked(s, false) == vals);
        let k0 = choose|k: usize| unsat.contains(k);
        assert(!clause_true(s.clause(k0 as int), vals));
        let open_at = |i: int| 0 <= order[i] < n && vals[order[i]] is None;
        assert(exists|i: int| 0 <= i < order.len() && #[trigger] open_at(i)) by {
            if forall|v: int| 0 <= v < n ==> (#[trigger] vals[v]) is Some {
                let cl = s.clause(k0 as int);
                s.lemma_clause_within(k0 as int);
                assert(model_satisfies(m, cl));
                let j = choose|j: int|
                    0 <= j < cl.len() && m[(#[trigger] cl[j]).var_pos as int] == cl[j].val;
                assert(vals[cl[j].var_pos as int] is Some);
                assert(lit_true(cl[j], vals));
            } else {
                let v = choose|v: int| 0 <= v < n && !((#[trigger] vals[v]) is Some);
                assert(order.contains(v));
                let i = choose|i: int| 0 <= i < order.len() && order[i] == v;
                assert(open_at(i));
            }
        }
        lemma_first_with(open_at, order.len() as int);
        let i = choose|i: int| #[trigger] first_with(open_at, order.len() as int, i);
        let v = order[i];
        assert(s.forced_at(m, order, i));
        let k = choose|k: int| #[trigger] s.forces_by(k, m, order, i);
        let cl = s.clause(k);
        s.lemma_clause_within(k);
        let j0 = choose|j: int| 0 <= j < cl.len() && (#[trigger] cl[j]).var_pos == v;
        assert forall|t: int| 0 <= t < cl.len() implies (lit_open(#[trigger] cl[t], vals) <==> t
            == j0) && !lit_true(cl[t], vals) by {
            if cl[t].var_pos != v {
                let w = cl[t].var_pos as int;
                assert(listed_before(order, i, w));
                let j = choose|j: int| 0 <= j < i && #[trigger] order[j] == w;
                assert(!open_at(j));
                assert(vals[w] is Some);
                assert(lit_false(cl[t], vals));
            } else {
                assert(t == j0);
            }
        }
        lemma_one_open(cl, vals, j0);
        assert(!clause_true(cl, vals));
        assert(s.urgent(unsat, k));
        let a = nc.antecedent->0 as int;
        assert(s.urgent(unsat, a));
        if open_count(s.clause(a), vals) == 0 {
            let ca = s.clause(a);
            s.lemma_clause_within(a);
            lemma_open_count_zero(ca, vals);
            assert(model_satisfies(m, ca));
            let j = choose|j: int| 0 <= j < ca.len() && m[(#[trigger] ca[j]).var_pos as int] == ca[j].val;
            assert(!lit_open(ca[j], vals));
            assert(lit_true(ca[j], vals));
            assert(clause_true(ca, vals));
            assert(!clause_true(s.clause(a), self.masked(s, false)));
        }
    }
}

} // verus!

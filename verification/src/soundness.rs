use crate::logic::lit_false;
use crate::logic::lit_true;
use crate::logic::mentions;
use crate::logic::model_satisfies;
use crate::search::Search;
use crate::solver::Solver;
use vstd::prelude::*;

verus! {

/// The conflict sets `has` after that of `into` took over that of `from`.
pub open spec fn taken_over(has: spec_fn(int, int) -> bool, from: int, into: int) -> spec_fn(
    int,
    int,
) -> bool {
    |a: int, b: int| has(a, b) || (a == into && has(from, b))
}

/// Where the unwinding of the first `len` entries of the trail ends, and
/// with which conflict sets: an entry whose variable is in the conflict
/// set of the present variable takes that set over and becomes the present
/// variable, and the unwinding ends there if its other value is still to
/// try; any other entry leaves the trail.
pub open spec fn unwound(
    has: spec_fn(int, int) -> bool,
    assigned: Seq<usize>,
    exhausted: Seq<Option<bool>>,
    present: int,
    len: nat,
) -> (nat, spec_fn(int, int) -> bool)
    decreases len,
{
    if len == 0 {
        (0, has)
    } else {
        let tv = assigned[len - 1] as int;
        if has(present, tv) {
            let taken = taken_over(has, present, tv);
            if exhausted[len - 1] == Some(false) {
                (len, taken)
            } else {
                unwound(taken, assigned, exhausted, tv, (len - 1) as nat)
            }
        } else {
            unwound(has, assigned, exhausted, present, (len - 1) as nat)
        }
    }
}

/// Conflict sets that agree on the variables below `n` unwind alike.
pub proof fn lemma_unwound_alike(
    h1: spec_fn(int, int) -> bool,
    h2: spec_fn(int, int) -> bool,
    assigned: Seq<usize>,
    exhausted: Seq<Option<bool>>,
    present: int,
    len: nat,
    n: nat,
)
    requires
        len <= assigned.len(),
        0 <= present < n,
        forall|i: int| 0 <= i < len ==> (#[trigger] assigned[i]) < n,
        forall|a: int, b: int| 0 <= a < n && 0 <= b < n ==> #[trigger] h1(a, b) == h2(a, b),
    ensures
        unwound(h1, assigned, exhausted, present, len).0 == unwound(
            h2,
            assigned,
            exhausted,
            present,
            len,
        ).0,
        forall|a: int, b: int|
            0 <= a < n && 0 <= b < n ==> #[trigger] (unwound(
                h1,
                assigned,
                exhausted,
                present,
                len,
            ).1)(a, b) == (unwound(h2, assigned, exhausted, present, len).1)(a, b),
    decreases len,
{
    if len > 0 {
        let tv = assigned[len - 1] as int;
        assert(assigned[len - 1] < n);
        assert(h1(present, tv) == h2(present, tv));
        if h1(present, tv) {
            let t1 = taken_over(h1, present, tv);
            let t2 = taken_over(h2, present, tv);
            assert forall|a: int, b: int| 0 <= a < n && 0 <= b < n implies #[trigger] t1(a, b)
                == t2(a, b) by {
                assert(h1(a, b) == h2(a, b));
                assert(h1(present, b) == h2(present, b));
            }
            if exhausted[len - 1] != Some(false) {
                lemma_unwound_alike(t1, t2, assigned, exhausted, tv, (len - 1) as nat, n);
            }
        } else {
            lemma_unwound_alike(h1, h2, assigned, exhausted, present, (len - 1) as nat, n);
        }
    }
}

/// The conflict sets `has` after that of `pos` took the variables of the
/// clause `cl` other than `pos`.
pub open spec fn noted(has: spec_fn(int, int) -> bool, pos: int, cl: crate::logic::Clause) -> spec_fn(
    int,
    int,
) -> bool {
    |a: int, b: int| has(a, b) || (a == pos && b != a && mentions(cl, b))
}

impl Search {
    /// The conflict sets as a relation between variables.
    pub open spec fn conflicts(&self) -> spec_fn(int, int) -> bool {
        |a: int, b: int| self.conflict_set.has(a, b)
    }

    /// The total assignment `m` agrees with the first `upto` entries of the
    /// trail on the variables in the conflict set of `v`.
    pub open spec fn agrees_below(&self, s: &Solver, m: Seq<bool>, upto: int, v: int) -> bool {
        forall|j: int|
            0 <= j < upto && self.conflict_set.has(v, (#[trigger] self.assigned@[j]) as int)
                ==> m[self.assigned@[j] as int] == s.vals()[self.assigned@[j] as int]->0
    }

    /// The conflict set of the unit entry at position `i` holds the other
    /// variables of its antecedent.
    pub open spec fn reasons_kept(&self, s: &Solver, i: int) -> bool {
        forall|b: int|
            0 <= b < s.num_vars() && b != self.assigned@[i] && #[trigger] mentions(
                s.clause(self.antecedents@[i].antecedent->0 as int),
                b,
            ) ==> self.conflict_set.has(self.assigned@[i] as int, b)
    }

    /// The value of the variable at position `i` is the only one left:
    /// every model that agrees with the trail below `i` on the conflict
    /// set of that variable gives it this value.
    pub open spec fn only_value(&self, s: &Solver, i: int) -> bool {
        forall|m: Seq<bool>| #[trigger]
            s.is_model(m) && self.agrees_below(s, m, i, self.assigned@[i] as int)
                ==> m[self.assigned@[i] as int] == s.vals()[self.assigned@[i] as int]->0
    }

    /// The value of the variable at the top of the trail is refuted: no
    /// model that agrees with the trail below the top on the conflict set
    /// of that variable gives it this value.
    pub open spec fn refuted_top(&self, s: &Solver) -> bool {
        let top = self.assigned@.len() - 1;
        forall|m: Seq<bool>| #[trigger]
            s.is_model(m) && self.agrees_below(s, m, top, self.assigned@[top] as int)
                ==> m[self.assigned@[top] as int] != s.vals()[self.assigned@[top] as int]->0
    }

    /// No model agrees with the first `upto` entries of the trail on the
    /// conflict set of `v`.
    pub open spec fn dead(&self, s: &Solver, v: int, upto: int) -> bool {
        forall|m: Seq<bool>| #[trigger] s.is_model(m) ==> !self.agrees_below(s, m, upto, v)
    }

    /// The two solvers have the same models.
    pub open spec fn same_models(s: &Solver, t: &Solver) -> bool {
        forall|m: Seq<bool>| #[trigger] s.is_model(m) <==> #[trigger] t.is_model(m)
    }

    /// What makes the answer "unsatisfiable" right: the conflict set of a
    /// unit entry holds the variables that force it, and a decision that
    /// is on its second value has the only value left.
    pub open spec fn sound(&self, s: &Solver) -> bool {
        &&& forall|i: int|
            0 <= i < self.assigned@.len() && (#[trigger] self.antecedents@[i]).is_uc
                ==> self.reasons_kept(s, i)
        &&& forall|i: int|
            0 <= i < self.assigned@.len() && !self.antecedents@[i].is_uc && (
            #[trigger] self.var_exhausted@[i]) == Some(true) ==> self.only_value(s, i)
    }

    /// A unit entry that has its value has the only value left.
    pub proof fn lemma_unit_forced(&self, s: &Solver, open: bool, i: int)
        requires
            self.inv(s, open),
            0 <= i < self.assigned@.len(),
            self.antecedents@[i].is_uc,
            self.reasons_kept(s, i),
            s.vals()[self.assigned@[i] as int] is Some,
        ensures
            self.only_value(s, i),
    {
        let a = self.antecedents@[i].antecedent->0 as int;
        let cl = s.clause(a);
        let u = self.assigned@[i] as int;
        assert(self.unit_at(s, i));
        s.lemma_clause_within(a);
        assert forall|m: Seq<bool>| #[trigger]
            s.is_model(m) && self.agrees_below(s, m, i, u) implies m[u] == s.vals()[u]->0 by {
            assert(model_satisfies(m, s.clause(a)));
            let t = choose|t: int| 0 <= t < cl.len() && m[(#[trigger] cl[t]).var_pos as int] == cl[t].val;
            let x = cl[t].var_pos as int;
            if x != u {
                assert(lit_false(cl[t], s.vals()));
                let j = self.var_assigned_index@[x] as int;
                assert(j < i);
                assert(self.on_trail(s, open, x));
                assert(self.assigned@[j] == x);
                assert(mentions(cl, x));
                assert(self.conflict_set.has(u, x));
                assert(m[self.assigned@[j] as int] == s.vals()[self.assigned@[j] as int]->0);
                assert(false);
            }
            assert(lit_true(cl[t], s.vals()));
        }
    }

    /// A variable with a value stands on the trail at its position.
    pub open spec fn on_trail(&self, s: &Solver, open: bool, x: int) -> bool {
        self.var_assigned_index@[x] < self.assigned@.len()
            && self.assigned@[self.var_assigned_index@[x] as int] == x
    }

    /// Every variable with a value stands on the trail at its position.
    pub proof fn lemma_on_trail(&self, s: &Solver, open: bool, x: int)
        requires
            self.inv(s, open),
            0 <= x < s.num_vars(),
            s.vals()[x] is Some,
        ensures
            self.on_trail(s, open, x),
    {
        if open {
            let top = self.assigned@.len() - 1;
            let pos = self.assigned@[top] as int;
            assert(self.var_assigned_index@[self.assigned@[top] as int] == top);
            if x != pos {
                assert(self.masked(s, open)[x] is Some);
            }
        } else {
            assert(self.masked(s, open)[x] is Some);
        }
    }

    /// The solver `t` has the variables of `s` and its clauses before any
    /// further ones, so that its models are models of `s`.
    pub open spec fn grown(s: &Solver, t: &Solver) -> bool {
        &&& t.num_vars() == s.num_vars()
        &&& s.num_clauses() <= t.num_clauses()
        &&& forall|k: int| 0 <= k < s.num_clauses() ==> #[trigger] t.clause(k) == s.clause(k)
    }

    /// The first `upto` entries of the trail of `r` are those of `o`, with
    /// their values; none of them has become a decision on its second
    /// value; and their conflict sets have lost nothing.
    pub open spec fn carries(o: &Search, r: &Search, s: &Solver, t: &Solver, upto: int) -> bool {
        &&& 0 <= upto <= o.assigned@.len()
        &&& upto <= r.assigned@.len()
        &&& forall|i: int|
            0 <= i < upto ==> {
                &&& (#[trigger] r.assigned@[i]) == o.assigned@[i]
                &&& r.assigned@[i] < s.num_vars()
                &&& r.antecedents@[i] == o.antecedents@[i]
                &&& t.vals()[r.assigned@[i] as int] == s.vals()[r.assigned@[i] as int]
                &&& r.var_exhausted@[i] == Some(true) ==> o.var_exhausted@[i] == Some(true)
                &&& o.antecedents@[i].is_uc ==> o.antecedents@[i].antecedent->0 < s.num_clauses()
            }
        &&& forall|a: int, b: int|
            0 <= a < s.num_vars() && 0 <= b < s.num_vars() && #[trigger] o.conflict_set.has(a, b)
                ==> r.conflict_set.has(a, b) || !Self::below(o, upto, a)
    }

    /// Variable `a` stands on the trail at a position below `upto`.
    pub open spec fn below(o: &Search, upto: int, a: int) -> bool {
        exists|i: int| 0 <= i < upto && (#[trigger] o.assigned@[i]) == a
    }

    /// What makes the answer right carries over to the entries that are
    /// carried over.
    pub proof fn lemma_carried(o: &Search, r: &Search, s: &Solver, t: &Solver, upto: int)
        requires
            o.sound(s),
            Self::grown(s, t),
            Self::carries(o, r, s, t, upto),
        ensures
            forall|i: int|
                0 <= i < upto && (#[trigger] r.antecedents@[i]).is_uc ==> r.reasons_kept(t, i),
            forall|i: int|
                0 <= i < upto && !r.antecedents@[i].is_uc && (#[trigger] r.var_exhausted@[i])
                    == Some(true) ==> r.only_value(t, i),
    {
        assert forall|i: int| 0 <= i < upto && (#[trigger] r.antecedents@[i]).is_uc implies r.reasons_kept(
            t,
            i,
        ) by {
            assert(r.assigned@[i] == o.assigned@[i]);
            assert(o.antecedents@[i].is_uc);
            assert(o.reasons_kept(s, i));
            let a = o.antecedents@[i].antecedent->0 as int;
            assert(t.clause(a) == s.clause(a));
            let v = o.assigned@[i] as int;
            assert(Self::below(o, upto, v));
            assert forall|b: int|
                0 <= b < t.num_vars() && b != r.assigned@[i] && #[trigger] mentions(
                    t.clause(r.antecedents@[i].antecedent->0 as int),
                    b,
                ) implies r.conflict_set.has(r.assigned@[i] as int, b) by {
                assert(o.conflict_set.has(v, b));
            }
        }
        assert forall|i: int|
            0 <= i < upto && !r.antecedents@[i].is_uc && (#[trigger] r.var_exhausted@[i]) == Some(
                true,
            ) implies r.only_value(t, i) by {
            assert(r.assigned@[i] == o.assigned@[i]);
            assert(o.var_exhausted@[i] == Some(true));
            assert(o.only_value(s, i));
            let v = o.assigned@[i] as int;
            assert(Self::below(o, upto, v));
            assert forall|m: Seq<bool>| #[trigger]
                t.is_model(m) && r.agrees_below(t, m, i, r.assigned@[i] as int) implies m[r.assigned@[i] as int]
                == t.vals()[r.assigned@[i] as int]->0 by {
                Self::lemma_models_grown(s, t, m);
                assert forall|j: int|
                    0 <= j < i && o.conflict_set.has(v, (#[trigger] o.assigned@[j]) as int)
                        implies m[o.assigned@[j] as int] == s.vals()[o.assigned@[j] as int]->0 by {
                    assert(r.assigned@[j] == o.assigned@[j]);
                    assert(r.conflict_set.has(v, o.assigned@[j] as int));
                }
                assert(o.agrees_below(s, m, i, v));
            }
        }
    }

    /// A model of a solver is a model of the solver that it grew from.
    pub proof fn lemma_models_grown(s: &Solver, t: &Solver, m: Seq<bool>)
        requires
            Self::grown(s, t),
            t.is_model(m),
        ensures
            s.is_model(m),
    {
        assert forall|k: int| 0 <= k < s.num_clauses() implies model_satisfies(
            m,
            #[trigger] s.clause(k),
        ) by {
            assert(model_satisfies(m, t.clause(k)));
        }
    }

    /// After a conflict at clause `k`, all of whose literals are falsified,
    /// and with the other variables of `k` in the conflict set of the
    /// variable at the top, the value of that variable is refuted.
    pub proof fn lemma_refuted(&self, s: &Solver, k: int)
        requires
            self.inv(s, true),
            s.vals()[self.assigned@[self.assigned@.len() - 1] as int] is Some,
            0 <= k < s.num_clauses(),
            forall|t: int|
                0 <= t < s.clause(k).len() ==> lit_false(#[trigger] s.clause(k)[t], s.vals()),
            forall|b: int|
                0 <= b < s.num_vars() && b != self.assigned@[self.assigned@.len() - 1]
                    && #[trigger] mentions(s.clause(k), b) ==> self.conflict_set.has(
                    self.assigned@[self.assigned@.len() - 1] as int,
                    b,
                ),
        ensures
            self.refuted_top(s),
    {
        let top = self.assigned@.len() - 1;
        let pos = self.assigned@[top] as int;
        let cl = s.clause(k);
        s.lemma_clause_within(k);
        assert(self.var_assigned_index@[self.assigned@[top] as int] == top);
        assert forall|m: Seq<bool>| #[trigger]
            s.is_model(m) && self.agrees_below(s, m, top, pos) implies m[pos] != s.vals()[pos]->0 by {
            assert(model_satisfies(m, s.clause(k)));
            let t = choose|t: int| 0 <= t < cl.len() && m[(#[trigger] cl[t]).var_pos as int] == cl[t].val;
            let x = cl[t].var_pos as int;
            assert(lit_false(cl[t], s.vals()));
            if x != pos {
                self.lemma_on_trail(s, true, x);
                let j = self.var_assigned_index@[x] as int;
                assert(self.assigned@[j] == x);
                assert(j != top);
                assert(mentions(cl, x));
                assert(self.conflict_set.has(pos, x));
                assert(m[self.assigned@[j] as int] == s.vals()[self.assigned@[j] as int]->0);
                assert(false);
            }
        }
    }

    /// A refuted value stays refuted while the trail and the values stay
    /// and the conflict set of the variable at the top loses nothing.
    pub proof fn lemma_refuted_carried(o: &Search, r: &Search, s: &Solver, t: &Solver)
        requires
            o.refuted_top(s),
            Self::grown(s, t),
            o.assigned@.len() > 0,
            r.assigned@ == o.assigned@,
            forall|i: int| 0 <= i < o.assigned@.len() ==> (#[trigger] o.assigned@[i]) < s.num_vars(),
            forall|i: int|
                0 <= i < o.assigned@.len() ==> t.vals()[(#[trigger] o.assigned@[i]) as int]
                    == s.vals()[o.assigned@[i] as int],
            forall|b: int|
                0 <= b < s.num_vars() && #[trigger] o.conflict_set.has(
                    o.assigned@[o.assigned@.len() - 1] as int,
                    b,
                ) ==> r.conflict_set.has(o.assigned@[o.assigned@.len() - 1] as int, b),
        ensures
            r.refuted_top(t),
    {
        let top = o.assigned@.len() - 1;
        let pos = o.assigned@[top] as int;
        assert forall|m: Seq<bool>| #[trigger]
            t.is_model(m) && r.agrees_below(t, m, top, pos) implies m[pos] != t.vals()[pos]->0 by {
            Self::lemma_models_grown(s, t, m);
            assert forall|j: int|
                0 <= j < top && o.conflict_set.has(pos, (#[trigger] o.assigned@[j]) as int)
                    implies m[o.assigned@[j] as int] == s.vals()[o.assigned@[j] as int]->0 by {
                assert(r.conflict_set.has(pos, o.assigned@[j] as int));
            }
            assert(o.agrees_below(s, m, top, pos));
        }
    }

    /// When the value of the variable at the top is refuted and was the
    /// only one left, no model agrees with the trail below the top on the
    /// conflict set of that variable.
    pub proof fn lemma_dead_top(&self, s: &Solver)
        requires
            self.inv(s, true),
            self.sound(s),
            self.refuted_top(s),
            s.vals()[self.assigned@[self.assigned@.len() - 1] as int] is Some,
            self.var_exhausted@[self.assigned@.len() - 1] == Some(true),
        ensures
            self.dead(s, self.assigned@[self.assigned@.len() - 1] as int, self.assigned@.len() - 1),
    {
        let top = self.assigned@.len() - 1;
        let pos = self.assigned@[top] as int;
        if self.antecedents@[top].is_uc {
            assert(self.reasons_kept(s, top));
            self.lemma_unit_forced(s, true, top);
        }
        assert(self.only_value(s, top));
        assert forall|m: Seq<bool>| #[trigger] s.is_model(m) implies !self.agrees_below(
            s,
            m,
            top,
            pos,
        ) by {
            if self.agrees_below(s, m, top, pos) {
                assert(m[pos] == s.vals()[pos]->0);
                assert(m[pos] != s.vals()[pos]->0);
            }
        }
    }

    /// That no model agrees with the first `upto` entries on the conflict
    /// set of `a` stays true while those entries, their values and that
    /// conflict set stay.
    pub proof fn lemma_dead_carried(
        o: &Search,
        r: &Search,
        s: &Solver,
        t: &Solver,
        a: int,
        upto: int,
    )
        requires
            o.dead(s, a, upto),
            Self::grown(s, t),
            0 <= upto <= o.assigned@.len(),
            upto <= r.assigned@.len(),
            0 <= a < s.num_vars(),
            forall|i: int|
                0 <= i < upto ==> (#[trigger] r.assigned@[i]) == o.assigned@[i] && r.assigned@[i]
                    < s.num_vars() && t.vals()[r.assigned@[i] as int]
                    == s.vals()[r.assigned@[i] as int],
            forall|b: int|
                0 <= b < s.num_vars() && #[trigger] o.conflict_set.has(a, b) ==> r.conflict_set.has(
                    a,
                    b,
                ),
        ensures
            r.dead(t, a, upto),
    {
        assert forall|m: Seq<bool>| #[trigger] t.is_model(m) implies !r.agrees_below(
            t,
            m,
            upto,
            a,
        ) by {
            Self::lemma_models_grown(s, t, m);
            if r.agrees_below(t, m, upto, a) {
                assert forall|j: int|
                    0 <= j < upto && o.conflict_set.has(a, (#[trigger] o.assigned@[j]) as int)
                        implies m[o.assigned@[j] as int] == s.vals()[o.assigned@[j] as int]->0 by {
                    assert(r.assigned@[j] == o.assigned@[j]);
                    assert(r.conflict_set.has(a, o.assigned@[j] as int));
                }
                assert(o.agrees_below(s, m, upto, a));
            }
        }
    }

    /// An entry whose variable is not in the conflict set of `a` does not
    /// matter to it.
    pub proof fn lemma_dead_skip(&self, s: &Solver, a: int, upto: int)
        requires
            self.dead(s, a, upto + 1),
            0 <= upto < self.assigned@.len(),
            !self.conflict_set.has(a, self.assigned@[upto] as int),
        ensures
            self.dead(s, a, upto),
    {
        assert forall|m: Seq<bool>| #[trigger] s.is_model(m) implies !self.agrees_below(
            s,
            m,
            upto,
            a,
        ) by {
            if self.agrees_below(s, m, upto, a) {
                assert(self.agrees_below(s, m, upto + 1, a));
            }
        }
    }

    /// When no model agrees with the trail on the conflict set of `a`, and
    /// the variable at the top is in that set and takes it over, the value
    /// of the variable at the top is refuted.
    pub proof fn lemma_merge_refutes(o: &Search, r: &Search, s: &Solver, a: int)
        requires
            o.assigned@.len() > 0,
            o.dead(s, a, o.assigned@.len() as int),
            r.assigned@ == o.assigned@,
            0 <= a < s.num_vars(),
            forall|i: int| 0 <= i < o.assigned@.len() ==> (#[trigger] o.assigned@[i]) < s.num_vars(),
            o.conflict_set.has(a, o.assigned@[o.assigned@.len() - 1] as int),
            forall|b: int|
                0 <= b < s.num_vars() && #[trigger] o.conflict_set.has(a, b) ==> r.conflict_set.has(
                    o.assigned@[o.assigned@.len() - 1] as int,
                    b,
                ),
        ensures
            r.refuted_top(s),
    {
        let top = o.assigned@.len() - 1;
        let tv = o.assigned@[top] as int;
        assert forall|m: Seq<bool>| #[trigger]
            s.is_model(m) && r.agrees_below(s, m, top, tv) implies m[tv] != s.vals()[tv]->0 by {
            if m[tv] == s.vals()[tv]->0 {
                assert forall|j: int|
                    0 <= j < top + 1 && o.conflict_set.has(a, (#[trigger] o.assigned@[j]) as int)
                        implies m[o.assigned@[j] as int] == s.vals()[o.assigned@[j] as int]->0 by {
                    if j < top {
                        assert(r.conflict_set.has(tv, o.assigned@[j] as int));
                    }
                }
                assert(o.agrees_below(s, m, top + 1, a));
            }
        }
    }

    /// When no model agrees with the empty trail, there is no model.
    pub proof fn lemma_no_model(&self, s: &Solver, a: int)
        requires
            self.dead(s, a, 0),
        ensures
            forall|m: Seq<bool>| !s.is_model(m),
    {
        assert forall|m: Seq<bool>| !s.is_model(m) by {
            if s.is_model(m) {
                assert(self.agrees_below(s, m, 0, a));
            }
        }
    }

    /// Solvers with the same clauses have the same models.
    pub proof fn lemma_same_models(s: &Solver, t: &Solver)
        requires
            Self::grown(s, t),
            t.num_clauses() == s.num_clauses(),
        ensures
            Self::same_models(s, t),
    {
        assert forall|m: Seq<bool>| #[trigger] s.is_model(m) <==> #[trigger] t.is_model(m) by {
            if s.is_model(m) {
                assert forall|k: int| 0 <= k < t.num_clauses() implies model_satisfies(
                    m,
                    #[trigger] t.clause(k),
                ) by {
                    assert(model_satisfies(m, s.clause(k)));
                }
            }
            if t.is_model(m) {
                Self::lemma_models_grown(s, t, m);
            }
        }
    }

    /// The entries below `upto` are carried over when the trail, the
    /// records and the values below `upto` are the same, and no conflict
    /// set of a variable below `upto` lost a member.
    pub proof fn lemma_carries(
        o: &Search,
        r: &Search,
        s: &Solver,
        t: &Solver,
        upto: int,
        open: bool,
        except: int,
    )
        requires
            o.inv(s, open),
            t.num_vars() == s.num_vars(),
            0 <= upto <= o.assigned@.len(),
            upto <= r.assigned@.len(),
            forall|i: int|
                0 <= i < upto ==> (#[trigger] r.assigned@[i]) == o.assigned@[i] && r.antecedents@[i]
                    == o.antecedents@[i] && r.var_exhausted@[i] == o.var_exhausted@[i]
                    && o.assigned@[i] != except,
            forall|v: int|
                0 <= v < s.num_vars() && v != except ==> (#[trigger] t.vals()[v]) == s.vals()[v],
            forall|a: int, b: int|
                0 <= a < s.num_vars() && 0 <= b < s.num_vars() && a != except
                    && #[trigger] o.conflict_set.has(a, b) ==> r.conflict_set.has(a, b),
        ensures
            Self::carries(o, r, s, t, upto),
    {
        assert forall|i: int| 0 <= i < upto implies {
            &&& (#[trigger] r.assigned@[i]) == o.assigned@[i]
            &&& r.assigned@[i] < s.num_vars()
            &&& r.antecedents@[i] == o.antecedents@[i]
            &&& t.vals()[r.assigned@[i] as int] == s.vals()[r.assigned@[i] as int]
            &&& r.var_exhausted@[i] == Some(true) ==> o.var_exhausted@[i] == Some(true)
            &&& o.antecedents@[i].is_uc ==> o.antecedents@[i].antecedent->0 < s.num_clauses()
        } by {
            assert(o.assigned@[i] < s.num_vars());
            if o.antecedents@[i].is_uc {
                assert(o.antecedents@[i].antecedent->0 < s.num_clauses());
            }
        }
        assert forall|a: int, b: int|
            0 <= a < s.num_vars() && 0 <= b < s.num_vars() && #[trigger] o.conflict_set.has(
                a,
                b,
            ) implies r.conflict_set.has(a, b) || !Self::below(o, upto, a) by {
            if a == except && Self::below(o, upto, a) {
                let i = choose|i: int| 0 <= i < upto && (#[trigger] o.assigned@[i]) == a;
                assert(r.assigned@[i] == o.assigned@[i]);
                assert(false);
            }
        }
    }

    /// What makes the answer right holds of a trail without entries.
    pub proof fn lemma_sound_empty(&self, s: &Solver)
        requires
            self.assigned@.len() == 0,
        ensures
            self.sound(s),
    {
    }

    /// What makes the answer right holds again when the entries below the
    /// top are carried over and the top is a new entry.
    pub proof fn lemma_sound_pushed(o: &Search, r: &Search, s: &Solver)
        requires
            o.inv(s, false),
            o.sound(s),
            r.inv(s, true),
            r.assigned@.len() == o.assigned@.len() + 1,
            forall|i: int|
                0 <= i < o.assigned@.len() ==> (#[trigger] r.assigned@[i]) == o.assigned@[i]
                    && r.antecedents@[i] == o.antecedents@[i] && r.var_exhausted@[i]
                    == o.var_exhausted@[i],
            r.var_exhausted@[o.assigned@.len() as int] is None,
            forall|a: int, b: int|
                0 <= a < s.num_vars() && 0 <= b < s.num_vars() ==> (#[trigger] r.conflict_set.has(
                    a,
                    b,
                ) <==> ((a != r.assigned@[o.assigned@.len() as int] && o.conflict_set.has(a, b)) || (
                a == r.assigned@[o.assigned@.len() as int]
                    && r.antecedents@[o.assigned@.len() as int].is_uc && b != a && mentions(
                    s.clause(r.antecedents@[o.assigned@.len() as int].antecedent->0 as int),
                    b,
                )))),
        ensures
            r.sound(s),
    {
        let len = o.assigned@.len() as int;
        let var = r.assigned@[len] as int;
        assert(r.var_assigned_index@[r.assigned@[len] as int] == len);
        assert forall|i: int| 0 <= i < len implies o.assigned@[i] != var by {
            assert(r.var_assigned_index@[r.assigned@[i] as int] == i);
        }
        Self::lemma_carries(o, r, s, s, len, false, var);
        Self::lemma_carried(o, r, s, s, len);
        assert forall|i: int|
            0 <= i < r.assigned@.len() && (#[trigger] r.antecedents@[i]).is_uc implies r.reasons_kept(
            s,
            i,
        ) by {
            if i == len {
                assert forall|b: int|
                    0 <= b < s.num_vars() && b != r.assigned@[i] && #[trigger] mentions(
                        s.clause(r.antecedents@[i].antecedent->0 as int),
                        b,
                    ) implies r.conflict_set.has(r.assigned@[i] as int, b) by {
                    assert(r.assigned@[len] < s.num_vars());
                }
            }
        }
    }

    /// What makes the answer right holds again after the entry at the top
    /// got its next value, when its former value, if it had one, was
    /// refuted.
    pub proof fn lemma_sound_assigned(o: &Search, r: &Search, s: &Solver, t: &Solver)
        requires
            o.inv(s, true),
            r.inv(t, true),
            o.sound(s),
            s.vals()[o.assigned@[o.assigned@.len() - 1] as int] is Some ==> o.refuted_top(s),
            Self::same_but(s, t, o.assigned@[o.assigned@.len() - 1] as int),
            t.vals()[o.assigned@[o.assigned@.len() - 1] as int] == Some(o.next_value(s)),
            r.assigned == o.assigned,
            r.antecedents == o.antecedents,
            r.conflict_set == o.conflict_set,
            r.var_exhausted@ == o.var_exhausted@.update(
                o.assigned@.len() - 1,
                Some(
                    o.antecedents@[o.assigned@.len() - 1].is_uc || o.var_exhausted@[o.assigned@.len()
                        - 1] is Some,
                ),
            ),
        ensures
            r.sound(t),
            Self::same_models(s, t),
    {
        let top = o.assigned@.len() - 1;
        let pos = o.assigned@[top] as int;
        s.lemma_same_formula(*t);
        assert(Self::grown(s, t));
        Self::lemma_same_models(s, t);
        assert(o.var_assigned_index@[o.assigned@[top] as int] == top);
        assert forall|i: int| 0 <= i < top implies o.assigned@[i] != pos by {
            assert(o.var_assigned_index@[o.assigned@[i] as int] == i);
        }
        assert forall|v: int| 0 <= v < s.num_vars() && v != pos implies (#[trigger] t.vals()[v])
            == s.vals()[v] by {
            assert(t.variables@[v].value == s.variables@[v].value);
        }
        Self::lemma_carries(o, r, s, t, top, true, pos);
        Self::lemma_carried(o, r, s, t, top);
        assert forall|i: int|
            0 <= i < r.assigned@.len() && (#[trigger] r.antecedents@[i]).is_uc implies r.reasons_kept(
            t,
            i,
        ) by {
            if i == top {
                assert(o.antecedents@[top].is_uc);
                assert(o.reasons_kept(s, top));
                let a = o.antecedents@[top].antecedent->0 as int;
                assert(t.clause(a) == s.clause(a));
            }
        }
        assert forall|i: int|
            0 <= i < r.assigned@.len() && !r.antecedents@[i].is_uc && (
            #[trigger] r.var_exhausted@[i]) == Some(true) implies r.only_value(t, i) by {
            if i == top {
                assert(o.var_exhausted@[top] is Some);
                assert(s.vals()[pos] is Some);
                assert(o.refuted_top(s));
                assert(t.vals()[pos]->0 == !s.vals()[pos]->0);
                assert forall|m: Seq<bool>| #[trigger]
                    t.is_model(m) && r.agrees_below(t, m, top, pos) implies m[pos]
                    == t.vals()[pos]->0 by {
                    assert(s.is_model(m));
                    assert forall|j: int|
                        0 <= j < top && o.conflict_set.has(pos, (#[trigger] o.assigned@[j]) as int)
                            implies m[o.assigned@[j] as int] == s.vals()[o.assigned@[j] as int]->0 by {
                        assert(o.assigned@[j] != pos);
                    }
                    assert(o.agrees_below(s, m, top, pos));
                }
            }
        }
    }

    /// What makes the answer right holds again when the entries below
    /// `upto`, which are all that are left, are carried over.
    pub proof fn lemma_sound_kept(
        o: &Search,
        r: &Search,
        s: &Solver,
        t: &Solver,
        open: bool,
        except: int,
    )
        requires
            o.inv(s, open),
            o.sound(s),
            Self::grown(s, t),
            r.assigned@.len() <= o.assigned@.len(),
            forall|i: int|
                0 <= i < r.assigned@.len() ==> (#[trigger] r.assigned@[i]) == o.assigned@[i]
                    && r.antecedents@[i] == o.antecedents@[i] && r.var_exhausted@[i]
                    == o.var_exhausted@[i] && o.assigned@[i] != except,
            forall|v: int|
                0 <= v < s.num_vars() && v != except ==> (#[trigger] t.vals()[v]) == s.vals()[v],
            forall|a: int, b: int|
                0 <= a < s.num_vars() && 0 <= b < s.num_vars() && a != except
                    && #[trigger] o.conflict_set.has(a, b) ==> r.conflict_set.has(a, b),
        ensures
            r.sound(t),
    {
        Self::lemma_carries(o, r, s, t, r.assigned@.len() as int, open, except);
        Self::lemma_carried(o, r, s, t, r.assigned@.len() as int);
    }
}

} // verus!

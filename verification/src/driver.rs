use crate::branching::first_max_degree;
use crate::branching::has_open_on;
use crate::branching::CurResult;
use crate::laws::law_learned_after_backtrack;
use crate::course::agrees;
use crate::learning::once_each;
use crate::logic::clause_live;
use crate::logic::clause_within;
use crate::logic::clause_true;
use crate::logic::lemma_open_count_zero;
use crate::logic::lit_false;
use crate::logic::lit_open;
use crate::logic::lit_true;
use crate::logic::mentions;
use crate::logic::model_satisfies;
use crate::logic::open_count;
use crate::logic::saturated;
use crate::logic::Clause;
use crate::logic::Values;
use crate::progress::lemma_weight_bound;
use crate::progress::pow4;
use crate::restart::restart_due;
use crate::search::add_others;
use crate::soundness::lemma_unwound_alike;
use crate::soundness::noted;
use crate::soundness::taken_over;
use crate::soundness::unwound;
use crate::search::Search;
use crate::solver::SolveResult;
use crate::solver::Solver;
use vstd::prelude::*;
use vstd::std_specs::btree::group_btree_axioms;

verus! {

/// A clause with one unassigned literal has no other.
pub proof fn lemma_single_open(cl: Clause, vals: Values, j: int, t: int)
    requires
        open_count(cl, vals) == 1,
        0 <= j < cl.len(),
        0 <= t < cl.len(),
        lit_open(cl[j], vals),
        lit_open(cl[t], vals),
    ensures
        j == t,
    decreases cl.len(),
{
    let r = cl.drop_last();
    let last = cl.len() - 1;
    if j != t {
        if j == last || t == last {
            let other = if j == last {
                t
            } else {
                j
            };
            assert(r[other] == cl[other]);
            lemma_open_some(r, vals, other);
        } else {
            assert(r[j] == cl[j]);
            assert(r[t] == cl[t]);
            if lit_open(cl[last], vals) {
                lemma_open_some(r, vals, j);
            } else {
                lemma_single_open(r, vals, j, t);
            }
        }
    }
}

/// A literal is unassigned, holds or is falsified.
pub proof fn lemma_closed_literal(c: crate::connections::Connection, vals: Values)
    ensures
        lit_open(c, vals) || lit_true(c, vals) || lit_false(c, vals),
{
    match vals[c.var_pos as int] {
        Some(b) => {
            if b != c.val {
                assert(b == !c.val);
            }
        },
        None => {},
    }
}

/// A clause with an unassigned literal counts at least one.
pub proof fn lemma_open_some(cl: Clause, vals: Values, j: int)
    requires
        0 <= j < cl.len(),
        lit_open(cl[j], vals),
    ensures
        open_count(cl, vals) >= 1,
    decreases cl.len(),
{
    if j < cl.len() - 1 {
        assert(cl.drop_last()[j] == cl[j]);
        lemma_open_some(cl.drop_last(), vals, j);
    }
}

/// A clause that counts an unassigned literal has one.
pub proof fn lemma_some_open(cl: Clause, vals: Values)
    requires
        open_count(cl, vals) >= 1,
    ensures
        exists|j: int| 0 <= j < cl.len() && lit_open(#[trigger] cl[j], vals),
    decreases cl.len(),
{
    if cl.len() > 0 {
        if lit_open(cl.last(), vals) {
            assert(lit_open(cl[cl.len() - 1], vals));
        } else {
            lemma_some_open(cl.drop_last(), vals);
            let j = choose|j: int|
                0 <= j < cl.drop_last().len() && lit_open(#[trigger] cl.drop_last()[j], vals);
            assert(cl[j] == cl.drop_last()[j]);
        }
    }
}

impl Search {
    /// The state `r` differs from `o` only in the conflict sets, the
    /// clauses seen, and what the restart rule needs.
    pub open spec fn same_core(&self, o: &Search) -> bool {
        &&& self.assigned == o.assigned
        &&& self.antecedents == o.antecedents
        &&& self.var_exhausted == o.var_exhausted
        &&& self.groups_sat_at_assignment == o.groups_sat_at_assignment
        &&& self.var_assigned_index == o.var_assigned_index
        &&& self.unsat_groups@ == o.unsat_groups@
        &&& self.variable_unsat_groups == o.variable_unsat_groups
        &&& self.capacity == o.capacity
    }

    /// The invariant does not depend on what the conflict sets hold.
    pub proof fn lemma_inv_core(o: &Search, r: &Search, s: &Solver, open: bool)
        requires
            o.inv(s, open),
            r.same_core(o),
            r.conflict_set.wf(),
            r.conflict_set.num_vars() == s.num_vars(),
            r.window.wf(),
        ensures
            r.inv(s, open),
    {
        assert(r.masked(s, open) == o.masked(s, open));
        assert(r.shape(s));
        assert(r.trail_ok(s, open));
        assert(r.index_ok(s, open));
        assert forall|i: int, j: int|
            0 <= i < r.settled(open) && 0 <= j < r.groups_sat_at_assignment@[i]@.len()
                implies r.satisfied_at(s, (#[trigger] r.groups_sat_at_assignment@[i]@[j]) as int, i) by {
            assert(o.satisfied_at(s, o.groups_sat_at_assignment@[i]@[j] as int, i));
        }
        assert forall|k: int| 0 <= k < s.num_clauses() implies (#[trigger] r.listed_below(
            k,
            r.settled(open),
        )) || r.unsat_groups@.contains(k as usize) by {
            assert(o.listed_below(k, o.settled(open)) || o.unsat_groups@.contains(k as usize));
        }
        assert(r.saved_ok(s, open));
        assert forall|p: int|
            0 <= p < r.assigned@.len() && (#[trigger] r.antecedents@[p]).is_uc implies r.unit_at(
            s,
            p,
        ) by {
            assert(o.antecedents@[p].is_uc);
            assert(o.unit_at(s, p));
        }
    }

    /// Puts the other variables of the falsified clause `k` into the
    /// conflict set of the variable at the top of the trail. When `k` is
    /// falsified indeed, this refutes the value of that variable.
    pub fn note_conflict(&mut self, s: &Solver, k: usize)
        requires
            old(self).inv(s, true),
            k < s.num_clauses(),
        ensures
            final(self).inv(s, true),
            final(self).same_core(old(self)),
            final(self).unique_clauses == old(self).unique_clauses,
            final(self).window == old(self).window,
            final(self).clauses_learned == old(self).clauses_learned,
            final(self).learned_at_restart == old(self).learned_at_restart,
            final(self).last_trail == old(self).last_trail,
            forall|a: int, b: int|
                0 <= a < s.num_vars() && 0 <= b < s.num_vars() ==> (
                #[trigger] final(self).conflict_set.has(a, b) <==> (old(self).conflict_set.has(a, b)
                    || (a == old(self).assigned@[old(self).assigned@.len() - 1] && b != a
                    && mentions(s.clause(k as int), b)))),
            old(self).sound(s) ==> final(self).sound(s),
            old(self).sound(s) && s.vals()[old(self).assigned@[old(self).assigned@.len() - 1] as int]
                is Some && (forall|t: int|
                0 <= t < s.clause(k as int).len() ==> lit_false(
                    #[trigger] s.clause(k as int)[t],
                    s.vals(),
                )) ==> final(self).refuted_top(s),
    {
        let top = self.assigned.len() - 1;
        let pos = self.assigned[top];
        add_others(&mut self.conflict_set, s, k, pos);
        proof {
            Self::lemma_inv_core(old(self), self, s, true);
            if old(self).sound(s) {
                Self::lemma_sound_kept(old(self), self, s, s, true, -1);
                if s.vals()[pos as int] is Some && (forall|t: int|
                    0 <= t < s.clause(k as int).len() ==> lit_false(
                        #[trigger] s.clause(k as int)[t],
                        s.vals(),
                    )) {
                    self.lemma_refuted(s, k as int);
                }
            }
        }
    }

    /// A solver that differs in the value of one variable has the same
    /// variables and clauses.
    pub proof fn lemma_same_but_extends(s: &Solver, t: &Solver, pos: int)
        requires
            s.wf(),
            Self::same_but(s, t, pos),
        ensures
            s.extended_by(t),
            t.num_clauses() == s.num_clauses(),
            forall|v: int| 0 <= v < s.num_vars() && v != pos ==> t.vals()[v] == s.vals()[v],
    {
        s.lemma_same_formula(*t);
        assert(t.names() =~= s.names());
    }

    /// Unwinds the trail after a conflict at its top, which is open and has
    /// no value left to try. The top leaves the trail, and its variable is
    /// the present variable. Then, from the top down: an entry whose
    /// variable is in the conflict set of the present variable takes that
    /// conflict set over and becomes the present variable, and the
    /// unwinding ends there if its other value is still to try; any other
    /// entry is taken off the trail, and the entry below is opened again.
    /// Tells whether the trail was emptied.
    ///
    /// When the value of the top was refuted, an emptied trail means that
    /// the clauses have no model, and otherwise the value of the new top
    /// is refuted.
    pub fn backjump(&mut self, s: &mut Solver) -> (emptied: bool)
        requires
            old(self).inv(old(s), true),
            old(self).var_exhausted@[old(self).assigned@.len() - 1] == Some(true),
        ensures
            old(s).extended_by(final(s)),
            final(s).num_clauses() == old(s).num_clauses(),
            final(s).connections_checked == old(s).connections_checked,
            final(s).backtracks == saturated(
                (old(s).backtracks + old(self).assigned@.len() - final(self).assigned@.len()) as nat,
            ),
            final(self).assigned@.is_prefix_of(old(self).assigned@),
            final(self).assigned@.len() < old(self).assigned@.len(),
            emptied ==> final(self).inv(final(s), false) && final(self).assigned@.len() == 0,
            !emptied ==> final(self).inv(final(s), true) && final(self).var_exhausted@[final(self).assigned@.len() - 1] == Some(false) && final(self).assigned@.len() > 0,
            forall|v: int|
                0 <= v < old(s).num_vars() && final(s).vals()[v] is Some ==> final(s).vals()[v]
                    == old(s).vals()[v],
            final(self).window == old(self).window,
            final(self).clauses_learned == old(self).clauses_learned,
            final(self).learned_at_restart == old(self).learned_at_restart,
            final(self).last_trail == old(self).last_trail,
            final(self).capacity == old(self).capacity,
            Self::same_models(old(s), final(s)),
            old(self).sound(old(s)) && old(self).refuted_top(old(s)) ==> {
                &&& emptied ==> forall|m: Seq<bool>| !final(s).is_model(m)
                &&& !emptied ==> final(self).sound(final(s)) && final(self).refuted_top(final(s))
            },
            final(self).assigned@.len() == unwound(
                old(self).conflicts(),
                old(self).assigned@,
                old(self).var_exhausted@,
                old(self).assigned@[old(self).assigned@.len() - 1] as int,
                (old(self).assigned@.len() - 1) as nat,
            ).0,
            forall|a: int, b: int|
                0 <= a < old(s).num_vars() && 0 <= b < old(s).num_vars()
                    ==> #[trigger] final(self).conflict_set.has(a, b) == (unwound(
                    old(self).conflicts(),
                    old(self).assigned@,
                    old(self).var_exhausted@,
                    old(self).assigned@[old(self).assigned@.len() - 1] as int,
                    (old(self).assigned@.len() - 1) as nat,
                ).1)(a, b),
            forall|i: int|
                0 <= i < final(self).assigned@.len() ==> final(self).var_exhausted@[i] == old(self).var_exhausted@[i] && final(self).antecedents@[i] == old(self).antecedents@[i],
            forall|v: int|
                0 <= v < old(s).num_vars() ==> #[trigger] final(s).vals()[v] == (if exists|i: int|
                    final(self).assigned@.len() <= i < old(self).assigned@.len() && old(self).assigned@[i] == v {
                    None
                } else {
                    old(s).vals()[v]
                }),
    {
        let ghost s0 = *s;
        let ghost ok = self.sound(s) && self.refuted_top(s);
        let ghost trail0 = self.assigned@;
        let ghost flags0 = self.var_exhausted@;
        let ghost n0 = s.num_vars();
        let ghost goal = unwound(
            self.conflicts(),
            trail0,
            flags0,
            trail0[trail0.len() - 1] as int,
            (trail0.len() - 1) as nat,
        );
        let mut assignment = self.assigned[self.assigned.len() - 1];
        proof {
            assert(s.names() =~= s0.names());
            self.lemma_trail_bound(s, true);
            assert(s.vals()[assignment as int] is Some);
            if ok {
                self.lemma_dead_top(s);
            }
            Self::lemma_same_models(&s0, s);
        }
        let ghost st1 = *self;
        let ghost s1 = *s;
        proof {
            assert(trail0.subrange(0, trail0.len() as int) =~= trail0);
        }
        self.drop_top(s);
        let ghost s2 = *s;
        s.backtracks = s.backtracks.saturating_add(1);
        proof {
            Self::lemma_same_but_extends(&s1, &s2, assignment as int);
            s2.lemma_same_formula(*s);
            assert(s.names() =~= s0.names());
            assert(s.vals() =~= s2.vals());
            let mid = *self;
            Self::lemma_inv_solver(&mid, &s2, s, false);
            assert(self.assigned@.is_prefix_of(old(self).assigned@));
            Self::lemma_after_drop(&st1, self, &s1, s, assignment as int, ok);
            Self::lemma_same_models(&s0, s);
            assert(self.assigned@ =~= trail0.subrange(0, self.assigned@.len() as int));
            assert forall|i: int| 0 <= i < trail0.len() implies (#[trigger] trail0[i]) < n0 by {
                assert(old(self).assigned@[i] < old(s).num_vars());
            }
            lemma_unwound_alike(
                old(self).conflicts(),
                self.conflicts(),
                trail0,
                flags0,
                assignment as int,
                self.assigned@.len() as nat,
                n0,
            );
            Self::lemma_values_after_drop(&st1, &s0, &s1, s, trail0);
        }
        if self.assigned.len() == 0 {
            proof {
                if ok {
                    self.lemma_no_model(s, assignment as int);
                }
                let ended = unwound(self.conflicts(), trail0, flags0, assignment as int, 0);
                assert(ended.0 == 0);
                assert forall|a: int, b: int| 0 <= a < n0 && 0 <= b < n0 implies #[trigger] self.conflict_set.has(
                    a,
                    b,
                ) == (goal.1)(a, b) by {
                    assert((ended.1)(a, b) == (self.conflicts())(a, b));
                }
            }
            return true;
        }
        let ghost st2 = *self;
        self.unsettle(s);
        proof {
            Self::lemma_after_unsettle(&st2, self, s, assignment as int, ok);
            lemma_unwound_alike(
                st2.conflicts(),
                self.conflicts(),
                trail0,
                flags0,
                assignment as int,
                self.assigned@.len() as nat,
                n0,
            );
        }
        loop
            invariant
                s0 == *old(s),
                self.inv(s, true),
                assignment < s.num_vars(),
                self.assigned@.len() > 0,
                trail0 == old(self).assigned@,
                flags0 == old(self).var_exhausted@,
                n0 == s.num_vars(),
                n0 == s0.num_vars(),
                goal == unwound(
                    old(self).conflicts(),
                    trail0,
                    flags0,
                    trail0[trail0.len() - 1] as int,
                    (trail0.len() - 1) as nat,
                ),
                forall|i: int| 0 <= i < trail0.len() ==> (#[trigger] trail0[i]) < n0,
                self.assigned@ == trail0.subrange(0, self.assigned@.len() as int),
                forall|i: int|
                    0 <= i < self.assigned@.len() ==> self.var_exhausted@[i] == flags0[i]
                        && self.antecedents@[i] == old(self).antecedents@[i],
                unwound(
                    self.conflicts(),
                    trail0,
                    flags0,
                    assignment as int,
                    self.assigned@.len() as nat,
                ).0 == goal.0,
                forall|a: int, b: int|
                    0 <= a < n0 && 0 <= b < n0 ==> #[trigger] (unwound(
                        self.conflicts(),
                        trail0,
                        flags0,
                        assignment as int,
                        self.assigned@.len() as nat,
                    ).1)(a, b) == (goal.1)(a, b),
                forall|v: int|
                    0 <= v < n0 ==> #[trigger] s.vals()[v] == (if exists|i: int|
                        self.assigned@.len() <= i < trail0.len() && trail0[i] == v {
                        None
                    } else {
                        s0.vals()[v]
                    }),
                s0.extended_by(s),
                s.num_clauses() == s0.num_clauses(),
                s.connections_checked == s0.connections_checked,
                s.backtracks == saturated(
                    (s0.backtracks + old(self).assigned@.len() - self.assigned@.len()) as nat,
                ),
                self.assigned@.is_prefix_of(old(self).assigned@),
                self.assigned@.len() < old(self).assigned@.len(),
                forall|v: int|
                    0 <= v < s0.num_vars() && s.vals()[v] is Some ==> s.vals()[v] == s0.vals()[v],
                self.window == old(self).window,
                self.clauses_learned == old(self).clauses_learned,
                self.learned_at_restart == old(self).learned_at_restart,
                self.last_trail == old(self).last_trail,
                self.capacity == old(self).capacity,
                Self::same_models(&s0, s),
                ok == (old(self).sound(old(s)) && old(self).refuted_top(old(s))),
                ok ==> self.sound(s) && self.dead(s, assignment as int, self.assigned@.len() as int),
                s.vals()[self.assigned@[self.assigned@.len() - 1] as int] is Some,
            decreases self.assigned@.len(),
        {
            let top = self.assigned.len() - 1;
            let tv = self.assigned[top];
            let ghost entered = *self;
            let ghost present = assignment;
            let ghost mut merged = false;
            proof {
                self.lemma_trail_bound(s, true);
                assert(self.var_assigned_index@[self.assigned@[top as int] as int] == top);
                assert(trail0.subrange(0, self.assigned@.len() as int)[top as int] == trail0[top as int]);
            }
            if self.conflict_set.contains(assignment, tv) {
                let ghost before = *self;
                self.conflict_set.merge(assignment, tv);
                proof {
                    Self::lemma_inv_core(&before, self, s, true);
                    if ok {
                        Self::lemma_sound_kept(&before, self, s, s, true, -1);
                        Self::lemma_merge_refutes(&before, self, s, assignment as int);
                    }
                    let taken = taken_over(before.conflicts(), assignment as int, tv as int);
                    assert forall|a: int, b: int| 0 <= a < n0 && 0 <= b < n0 implies #[trigger] taken(
                        a,
                        b,
                    ) == (self.conflicts())(a, b) by {
                        assert(self.conflict_set.has(a, b) <==> (before.conflict_set.has(a, b) || (a
                            == tv && before.conflict_set.has(assignment as int, b))));
                    }
                    let here = unwound(
                        before.conflicts(),
                        trail0,
                        flags0,
                        assignment as int,
                        (top + 1) as nat,
                    );
                    assert((before.conflicts())(assignment as int, tv as int));
                    assert(self.var_exhausted@[top as int] == flags0[top as int]);
                    if flags0[top as int] != Some(false) {
                        assert(here == unwound(taken, trail0, flags0, tv as int, top as nat));
                        lemma_unwound_alike(
                            taken,
                            self.conflicts(),
                            trail0,
                            flags0,
                            tv as int,
                            top as nat,
                            n0,
                        );
                    } else {
                        assert(here == (((top + 1) as nat, taken)));
                        assert forall|a: int, b: int|
                            0 <= a < n0 && 0 <= b < n0 implies #[trigger] self.conflict_set.has(a, b)
                            == (goal.1)(a, b) by {
                            assert((here.1)(a, b) == (goal.1)(a, b));
                            assert(taken(a, b) == (self.conflicts())(a, b));
                        }
                    }
                }
                match self.var_exhausted[top] {
                    Some(false) => {
                        return false;
                    },
                    _ => {},
                }
                proof {
                    if ok {
                        self.lemma_dead_top(s);
                    }
                    merged = true;
                }
                assignment = tv;
            } else {
                proof {
                    if ok {
                        self.lemma_dead_skip(s, assignment as int, top as int);
                    }
                    assert(!(self.conflicts())(assignment as int, tv as int));
                    assert(unwound(
                        self.conflicts(),
                        trail0,
                        flags0,
                        assignment as int,
                        (top + 1) as nat,
                    ) == unwound(self.conflicts(), trail0, flags0, assignment as int, top as nat));
                }
            }
            let ghost s1 = *s;
            let ghost st1 = *self;
            let ghost link = unwound(st1.conflicts(), trail0, flags0, assignment as int, top as nat);
            proof {
                let from = unwound(
                    entered.conflicts(),
                    trail0,
                    flags0,
                    present as int,
                    (top + 1) as nat,
                );
                assert(link.0 == goal.0);
                assert forall|a: int, b: int| 0 <= a < n0 && 0 <= b < n0 implies #[trigger] (link.1)(
                    a,
                    b,
                ) == (goal.1)(a, b) by {
                    assert((from.1)(a, b) == (goal.1)(a, b));
                    if merged {
                        let taken = taken_over(entered.conflicts(), present as int, tv as int);
                        let mid = unwound(taken, trail0, flags0, tv as int, top as nat);
                        assert((mid.1)(a, b) == (link.1)(a, b));
                    }
                }
            }
            self.drop_top(s);
            let ghost s2 = *s;
            s.backtracks = s.backtracks.saturating_add(1);
            proof {
                Self::lemma_same_but_extends(&s1, &s2, tv as int);
                s2.lemma_same_formula(*s);
                assert(s.names() =~= s0.names());
                assert(s.vals() =~= s2.vals());
                let mid = *self;
                Self::lemma_inv_solver(&mid, &s2, s, false);
                assert(self.assigned@.is_prefix_of(old(self).assigned@));
                Self::lemma_after_drop(&st1, self, &s1, s, assignment as int, ok);
                Self::lemma_same_models(&s0, s);
                assert(self.assigned@ =~= trail0.subrange(0, self.assigned@.len() as int));
                lemma_unwound_alike(
                    st1.conflicts(),
                    self.conflicts(),
                    trail0,
                    flags0,
                    assignment as int,
                    self.assigned@.len() as nat,
                    n0,
                );
                Self::lemma_values_after_drop(&st1, &s0, &s1, s, trail0);
                let now = unwound(self.conflicts(), trail0, flags0, assignment as int, top as nat);
                assert(now.0 == goal.0);
                assert forall|a: int, b: int| 0 <= a < n0 && 0 <= b < n0 implies #[trigger] (now.1)(
                    a,
                    b,
                ) == (goal.1)(a, b) by {
                    assert((link.1)(a, b) == (goal.1)(a, b));
                }
                assert forall|i: int| 0 <= i < self.assigned@.len() implies self.var_exhausted@[i]
                    == flags0[i] && self.antecedents@[i] == old(self).antecedents@[i] by {
                    assert(entered.var_exhausted@[i] == flags0[i]);
                    assert(st1.var_exhausted@[i] == entered.var_exhausted@[i]);
                }
            }
            if self.assigned.len() == 0 {
                proof {
                    if ok {
                        self.lemma_no_model(s, assignment as int);
                    }
                    let ended = unwound(self.conflicts(), trail0, flags0, assignment as int, 0);
                    assert(ended.0 == 0);
                    assert forall|a: int, b: int|
                        0 <= a < n0 && 0 <= b < n0 implies #[trigger] self.conflict_set.has(a, b)
                        == (goal.1)(a, b) by {
                        assert((ended.1)(a, b) == (self.conflicts())(a, b));
                        assert((ended.1)(a, b) == (goal.1)(a, b));
                    }
                }
                return true;
            }
            let ghost st2 = *self;
            self.unsettle(s);
            proof {
                Self::lemma_after_unsettle(&st2, self, s, assignment as int, ok);
                lemma_unwound_alike(
                    st2.conflicts(),
                    self.conflicts(),
                    trail0,
                    flags0,
                    assignment as int,
                    self.assigned@.len() as nat,
                    n0,
                );
                let was = unwound(st2.conflicts(), trail0, flags0, assignment as int, top as nat);
                let now = unwound(self.conflicts(), trail0, flags0, assignment as int, top as nat);
                assert forall|a: int, b: int| 0 <= a < n0 && 0 <= b < n0 implies #[trigger] (now.1)(
                    a,
                    b,
                ) == (goal.1)(a, b) by {
                    assert((was.1)(a, b) == (goal.1)(a, b));
                }
            }
        }
    }

    /// After the top left the trail, the variables that left it have no
    /// value and the others have the value that they had.
    pub proof fn lemma_values_after_drop(
        o: &Search,
        s0: &Solver,
        s: &Solver,
        t: &Solver,
        trail0: Seq<usize>,
    )
        requires
            o.assigned@.len() > 0,
            o.assigned@ == trail0.subrange(0, o.assigned@.len() as int),
            o.assigned@.len() <= trail0.len(),
            s.num_vars() == s0.num_vars(),
            t.num_vars() == s0.num_vars(),
            forall|i: int| 0 <= i < trail0.len() ==> (#[trigger] trail0[i]) < s0.num_vars(),
            forall|v: int|
                0 <= v < s0.num_vars() ==> #[trigger] s.vals()[v] == (if exists|i: int|
                    o.assigned@.len() <= i < trail0.len() && trail0[i] == v {
                    None
                } else {
                    s0.vals()[v]
                }),
            t.vals()[o.assigned@[o.assigned@.len() - 1] as int] is None,
            forall|v: int|
                0 <= v < s0.num_vars() && v != o.assigned@[o.assigned@.len() - 1] ==> t.vals()[v]
                    == s.vals()[v],
        ensures
            forall|v: int|
                0 <= v < s0.num_vars() ==> #[trigger] t.vals()[v] == (if exists|i: int|
                    o.assigned@.len() - 1 <= i < trail0.len() && trail0[i] == v {
                    None
                } else {
                    s0.vals()[v]
                }),
    {
        let top = o.assigned@.len() - 1;
        assert(trail0.subrange(0, o.assigned@.len() as int)[top] == trail0[top]);
        assert forall|v: int| 0 <= v < s0.num_vars() implies #[trigger] t.vals()[v] == (
        if exists|i: int| o.assigned@.len() - 1 <= i < trail0.len() && trail0[i] == v {
            None
        } else {
            s0.vals()[v]
        }) by {
            let gone_now = exists|i: int| top <= i < trail0.len() && trail0[i] == v;
            let gone_before = exists|i: int| top + 1 <= i < trail0.len() && trail0[i] == v;
            assert(s.vals()[v] == (if gone_before {
                None
            } else {
                s0.vals()[v]
            }));
            if v == trail0[top] {
                assert(gone_now);
            } else {
                if gone_now {
                    let i = choose|i: int| top <= i < trail0.len() && trail0[i] == v;
                    assert(top + 1 <= i);
                    assert(gone_before);
                }
                if gone_before {
                    let i = choose|i: int| top + 1 <= i < trail0.len() && trail0[i] == v;
                    assert(top <= i < trail0.len() && trail0[i] == v);
                }
            }
        }
    }

    /// What is known of the present variable `a` before the top leaves
    /// the trail is known after.
    pub proof fn lemma_after_drop(o: &Search, r: &Search, s: &Solver, t: &Solver, a: int, ok: bool)
        requires
            o.inv(s, true),
            r.inv(t, false),
            0 <= a < s.num_vars(),
            t.connection_groups == s.connection_groups,
            t.connections == s.connections,
            t.variable_connections == s.variable_connections,
            t.variables@.len() == s.variables@.len(),
            forall|v: int|
                0 <= v < s.variables@.len() ==> (#[trigger] t.variables@[v]).name
                    == s.variables@[v].name && t.variables@[v].pos == s.variables@[v].pos && (v
                    != o.assigned@[o.assigned@.len() - 1] ==> t.variables@[v].value
                    == s.variables@[v].value),
            r.assigned@ == o.assigned@.drop_last(),
            r.antecedents == o.antecedents,
            r.conflict_set == o.conflict_set,
            r.var_exhausted@ == o.var_exhausted@.update(o.assigned@.len() - 1, None),
            ok ==> o.sound(s) && o.dead(s, a, o.assigned@.len() - 1),
        ensures
            ok ==> r.sound(t) && r.dead(t, a, r.assigned@.len() as int),
    {
        if ok {
            let top = o.assigned@.len() - 1;
            let pos = o.assigned@[top] as int;
            s.lemma_same_formula(*t);
            assert(Self::grown(s, t));
            assert(o.var_assigned_index@[o.assigned@[top] as int] == top);
            assert forall|i: int| 0 <= i < top implies o.assigned@[i] != pos by {
                assert(o.var_assigned_index@[o.assigned@[i] as int] == i);
            }
            assert forall|v: int| 0 <= v < s.num_vars() && v != pos implies (#[trigger] t.vals()[v])
                == s.vals()[v] by {
                assert(t.variables@[v].value == s.variables@[v].value);
            }
            Self::lemma_sound_kept(o, r, s, t, true, pos);
            assert forall|i: int| 0 <= i < top implies (#[trigger] r.assigned@[i]) == o.assigned@[i]
                && r.assigned@[i] < s.num_vars() && t.vals()[r.assigned@[i] as int]
                == s.vals()[r.assigned@[i] as int] by {
                assert(o.assigned@[i] < s.num_vars());
            }
            Self::lemma_dead_carried(o, r, s, t, a, top);
        }
    }

    /// What is known of the present variable `a` before the top is opened
    /// again is known after.
    pub proof fn lemma_after_unsettle(o: &Search, r: &Search, s: &Solver, a: int, ok: bool)
        requires
            o.inv(s, false),
            r.inv(s, true),
            0 <= a < s.num_vars(),
            r.assigned == o.assigned,
            r.antecedents == o.antecedents,
            r.conflict_set == o.conflict_set,
            r.var_exhausted == o.var_exhausted,
            o.assigned@.len() > 0,
            ok ==> o.sound(s) && o.dead(s, a, o.assigned@.len() as int),
        ensures
            ok ==> r.sound(s) && r.dead(s, a, r.assigned@.len() as int),
            s.vals()[o.assigned@[o.assigned@.len() - 1] as int] is Some,
    {
        assert(o.masked(s, false) == s.vals());
        assert(o.var_assigned_index@[o.assigned@[o.assigned@.len() - 1] as int] == o.assigned@.len()
            - 1);
        assert(o.masked(s, false)[o.assigned@[o.assigned@.len() - 1] as int] is Some);
        if ok {
            assert(Self::grown(s, s));
            Self::lemma_sound_kept(o, r, s, s, false, -1);
            assert forall|i: int|
                0 <= i < o.assigned@.len() implies (#[trigger] r.assigned@[i]) == o.assigned@[i]
                && r.assigned@[i] < s.num_vars() && s.vals()[r.assigned@[i] as int]
                == s.vals()[r.assigned@[i] as int] by {
                assert(o.assigned@[i] < s.num_vars());
            }
            Self::lemma_dead_carried(o, r, s, s, a, o.assigned@.len() as int);
        }
    }

    /// The invariant holds for a solver that has the same variables,
    /// values and clauses.
    pub proof fn lemma_inv_solver(st: &Search, s: &Solver, t: &Solver, open: bool)
        requires
            st.inv(s, open),
            t.connection_groups == s.connection_groups,
            t.connections == s.connections,
            t.variable_connections == s.variable_connections,
            t.variables == s.variables,
        ensures
            st.inv(t, open),
    {
        s.lemma_same_formula(*t);
        assert(t.vals() =~= s.vals());
        assert(st.masked(t, open) == st.masked(s, open));
        assert(st.shape(t));
        assert(st.trail_ok(t, open));
        assert forall|k: int| 0 <= k < t.num_clauses() implies (st.unsat_groups@.contains(k as usize)
            <==> !clause_true(#[trigger] t.clause(k), st.masked(t, open))) by {
            assert(t.clause(k) == s.clause(k));
            assert(st.unsat_groups@.contains(k as usize) <==> !clause_true(
                s.clause(k),
                st.masked(s, open),
            ));
        }
        assert forall|v: int, k: int| 0 <= v < t.num_vars() && 0 <= k < st.capacity implies (
        #[trigger] st.variable_unsat_groups.has(v, k) <==> (k < t.num_clauses()
            && st.unsat_groups@.contains(k as usize) && mentions(t.clause(k), v))) by {
            if k < t.num_clauses() {
                assert(t.clause(k) == s.clause(k));
            }
        }
        assert(st.index_ok(t, open));
        assert forall|i: int, j: int|
            0 <= i < st.settled(open) && 0 <= j < st.groups_sat_at_assignment@[i]@.len()
                implies st.satisfied_at(t, (#[trigger] st.groups_sat_at_assignment@[i]@[j]) as int, i) by {
            let k = st.groups_sat_at_assignment@[i]@[j] as int;
            assert(st.satisfied_at(s, k, i));
            assert(t.clause(k) == s.clause(k));
        }
        assert(st.saved_ok(t, open));
        assert forall|p: int|
            0 <= p < st.assigned@.len() && (#[trigger] st.antecedents@[p]).is_uc implies st.unit_at(
            t,
            p,
        ) by {
            assert(st.unit_at(s, p));
            assert(t.clause(st.antecedents@[p].antecedent->0 as int) == s.clause(
                st.antecedents@[p].antecedent->0 as int,
            ));
        }
    }

    /// Restarts the search: every entry but the first leaves the trail,
    /// and the first is open again, without a value, at level 0, with an
    /// empty conflict set and both of its values still to try. What was
    /// learned stays.
    pub fn restart(&mut self, s: &mut Solver)
        requires
            old(self).inv(old(s), true),
        ensures
            final(self).inv(final(s), true),
            old(s).extended_by(final(s)),
            final(s).num_clauses() == old(s).num_clauses(),
            final(s).connections_checked == old(s).connections_checked,
            final(s).backtracks == old(s).backtracks,
            forall|v: int| 0 <= v < old(s).num_vars() ==> (#[trigger] final(s).vals()[v]) is None,
            final(self).assigned@ == seq![old(self).assigned@[0]],
            final(self).antecedents@[0].is_uc == old(self).antecedents@[0].is_uc,
            final(self).antecedents@[0].antecedent == old(self).antecedents@[0].antecedent,
            final(self).antecedents@[0].d == 0,
            final(self).var_exhausted@[0] is None,
            final(self).window == old(self).window,
            final(self).clauses_learned == old(self).clauses_learned,
            final(self).learned_at_restart == old(self).clauses_learned,
            final(self).last_trail == old(self).last_trail,
            final(self).sound(final(s)),
            Self::same_models(old(s), final(s)),
            final(self).capacity == old(self).capacity,
            final(self).room(final(s)) + old(self).learned_since() == old(self).room(old(s)),
    {
        let ghost s0 = *s;
        let first = self.assigned[0];
        proof {
            self.lemma_trail_bound(s, true);
        }
        let entry = self.antecedents[0];
        proof {
            assert(s.names() =~= s0.names());
            if entry.is_uc {
                assert(self.antecedents@[0].is_uc);
                assert(self.unit_at(s, 0));
            }
        }
        loop
            invariant_except_break
                self.inv(s, true),
                self.assigned@.len() >= 1,
                self.assigned@[0] == first,
                self.antecedents@[0] == entry,
            invariant
                s0 == *old(s),
                first < s0.num_vars(),
                first == old(self).assigned@[0],
                entry == old(self).antecedents@[0],
                s0.extended_by(s),
                s.num_clauses() == s0.num_clauses(),
                s.connections_checked == s0.connections_checked,
                s.backtracks == s0.backtracks,
                self.window == old(self).window,
                self.clauses_learned == old(self).clauses_learned,
                self.last_trail == old(self).last_trail,
                self.capacity == old(self).capacity,
            ensures
                self.inv(s, false),
                self.assigned@.len() == 0,
            decreases self.assigned@.len(),
        {
            let ghost s1 = *s;
            let ghost tv = self.assigned@[self.assigned@.len() - 1];
            self.drop_top(s);
            proof {
                Self::lemma_same_but_extends(&s1, s, tv as int);
                assert(s.names() =~= s0.names());
            }
            if self.assigned.len() == 0 {
                break ;
            }
            self.unsettle(s);
        }
        proof {
            assert(entry.is_uc ==> entry.antecedent is Some && entry.antecedent->0 < s.num_clauses());
            assert(self.masked(s, false) == s.vals());
            assert forall|v: int| 0 <= v < s.num_vars() implies (#[trigger] s.vals()[v]) is None by {
                assert(self.masked(s, false)[v] is Some <==> (self.var_assigned_index@[v]
                    < self.settled(false) && self.assigned@[self.var_assigned_index@[v] as int]
                    == v));
            }
            if entry.is_uc {
                let a = entry.antecedent->0 as int;
                assert(s.clause(a) == s0.clause(a));
                assert(old(self).antecedents@[0].is_uc);
                assert(old(self).unit_at(&s0, 0));
                assert(Self::unit_for(s, a, first as int));
            }
        }
        let ghost emptied = *self;
        self.push_entry(s, first, entry.is_uc, entry.antecedent);
        let ghost before = *self;
        self.learned_at_restart = self.clauses_learned;
        proof {
            Self::lemma_inv_core(&before, self, s, true);
            assert(self.assigned@ =~= seq![old(self).assigned@[0]]);
            emptied.lemma_sound_empty(s);
            Self::lemma_sound_pushed(&emptied, &before, s);
            Self::lemma_sound_kept(&before, self, s, s, true, -1);
            assert(Self::grown(&s0, s));
            Self::lemma_same_models(&s0, s);
        }
    }

    /// Handles a conflict at the top of the trail, which is open and has a
    /// value that falsifies clause `k`: the conflict set of the variable at
    /// the top takes the other variables of `k`, the length of the trail
    /// below the top is recorded for the restart rule, a clause is learned,
    /// and, when both values of the top are exhausted, the trail is
    /// unwound. Tells whether the trail was emptied; then the clauses have
    /// no model.
    ///
    /// The learned clause is falsified at the conflict. Afterwards each of
    /// its literals is still falsified or has lost its value, and no more
    /// of them have lost their value than entries were taken off the trail.
    pub fn on_conflict(&mut self, s: &mut Solver, k: usize) -> (emptied: bool)
        requires
            old(self).inv(old(s), true),
            old(s).vals()[old(self).assigned@[old(self).assigned@.len() - 1] as int] is Some,
            k < old(s).num_clauses(),
            forall|t: int|
                0 <= t < old(s).clause(k as int).len() ==> lit_false(
                    #[trigger] old(s).clause(k as int)[t],
                    old(s).vals(),
                ),
        ensures
            old(s).extended_by(final(s)),
            final(s).connections_checked == old(s).connections_checked,
            emptied ==> final(self).inv(final(s), false) && final(self).assigned@.len() == 0,
            !emptied ==> final(self).inv(final(s), true) && final(self).var_exhausted@[final(self).assigned@.len() - 1] == Some(false),
            final(self).assigned@.is_prefix_of(old(self).assigned@),
            final(s).backtracks == saturated(
                (old(s).backtracks + old(self).assigned@.len() - final(self).assigned@.len()) as nat,
            ),
            final(self).last_trail == old(self).assigned@.len() - 1,
            final(self).window.entries@ == crate::restart::recorded(
                old(self).window.entries@,
                old(self).window.capacity as nat,
                (old(self).assigned@.len() - 1) as usize,
            ),
            Self::same_models(old(s), final(s)),
            old(self).sound(old(s)) ==> {
                &&& emptied ==> forall|m: Seq<bool>| !final(s).is_model(m)
                &&& !emptied ==> final(self).sound(final(s)) && final(self).refuted_top(final(s))
            },
            final(self).room(final(s)) <= old(self).room(old(s)),
            forall|i: int|
                0 <= i < final(self).assigned@.len() ==> final(self).var_exhausted@[i] == old(self).var_exhausted@[i],
            old(self).var_exhausted@[old(self).assigned@.len() - 1] == Some(true)
                ==> final(self).assigned@.len() < old(self).assigned@.len(),
            old(self).var_exhausted@[old(self).assigned@.len() - 1] != Some(true) ==> final(self).assigned@.len() == old(self).assigned@.len(),
            final(s).num_clauses() == old(s).num_clauses() + (if !old(self).known(
                old(self).to_learn(old(s), k),
            ) && old(s).num_clauses() < old(self).capacity {
                1nat
            } else {
                0nat
            }),
            final(s).num_clauses() > old(s).num_clauses() ==> final(s).clause(
                old(s).num_clauses() as int,
            ) == old(self).to_learn(old(s), k),
            forall|t: int|
                0 <= t < old(self).to_learn(old(s), k).len() ==> lit_false(
                    #[trigger] old(self).to_learn(old(s), k)[t],
                    old(s).vals(),
                ),
            once_each(old(self).to_learn(old(s), k)),
            forall|t: int|
                0 <= t < old(self).to_learn(old(s), k).len() ==> lit_false(
                    #[trigger] old(self).to_learn(old(s), k)[t],
                    final(s).vals(),
                ) || lit_open(old(self).to_learn(old(s), k)[t], final(s).vals()),
            open_count(old(self).to_learn(old(s), k), final(s).vals()) <= old(self).assigned@.len()
                - final(self).assigned@.len(),
            clause_within(old(self).to_learn(old(s), k), old(s).num_vars()),
            forall|m: Seq<bool>| #[trigger]
                old(s).is_model(m) ==> model_satisfies(m, old(self).to_learn(old(s), k)),
            forall|v: int|
                0 <= v < old(s).num_vars() ==> #[trigger] final(s).vals()[v] == (if exists|i: int|
                    final(self).assigned@.len() <= i < old(self).assigned@.len() && old(self).assigned@[i] == v {
                    None
                } else {
                    old(s).vals()[v]
                }),
            old(self).var_exhausted@[old(self).assigned@.len() - 1] != Some(true) ==> forall|
                a: int,
                b: int,
            |
                0 <= a < old(s).num_vars() && 0 <= b < old(s).num_vars()
                    ==> #[trigger] final(self).conflict_set.has(a, b) == (noted(
                    old(self).conflicts(),
                    old(self).assigned@[old(self).assigned@.len() - 1] as int,
                    old(s).clause(k as int),
                ))(a, b),
            old(self).var_exhausted@[old(self).assigned@.len() - 1] == Some(true) ==> {
                &&& final(self).assigned@.len() == unwound(
                    noted(
                        old(self).conflicts(),
                        old(self).assigned@[old(self).assigned@.len() - 1] as int,
                        old(s).clause(k as int),
                    ),
                    old(self).assigned@,
                    old(self).var_exhausted@,
                    old(self).assigned@[old(self).assigned@.len() - 1] as int,
                    (old(self).assigned@.len() - 1) as nat,
                ).0
                &&& forall|a: int, b: int|
                    0 <= a < old(s).num_vars() && 0 <= b < old(s).num_vars()
                        ==> #[trigger] final(self).conflict_set.has(a, b) == (unwound(
                        noted(
                            old(self).conflicts(),
                            old(self).assigned@[old(self).assigned@.len() - 1] as int,
                            old(s).clause(k as int),
                        ),
                        old(self).assigned@,
                        old(self).var_exhausted@,
                        old(self).assigned@[old(self).assigned@.len() - 1] as int,
                        (old(self).assigned@.len() - 1) as nat,
                    ).1)(a, b)
            },
    {
        let ghost s0 = *s;
        let ghost ok = self.sound(s);
        proof {
            self.lemma_trail_bound(s, true);
            assert(s.names() =~= s0.names());
        }
        self.note_conflict(s, k);
        let top = self.assigned.len() - 1;
        let ghost before = *self;
        self.last_trail = top;
        self.window.record(top);
        proof {
            Self::lemma_inv_core(&before, self, s, true);
            if ok {
                Self::lemma_kept_here(&before, self, s, s);
            }
        }
        let ghost recorded_state = *self;
        let added = self.learn(s, k);
        proof {
            assert(s.names() =~= s0.names());
            assert(s0.extended_by(s));
            assert(Self::grown(&s0, s));
            assert(s.vals() =~= s0.vals());
            if ok {
                Self::lemma_kept_here(&recorded_state, self, &s0, s);
            }
            assert(Self::same_models(&s0, s)) by {
                assert forall|m: Seq<bool>| #[trigger] s0.is_model(m) <==> #[trigger] s.is_model(
                    m,
                ) by {
                    if s.is_model(m) {
                        Self::lemma_models_grown(&s0, s, m);
                    }
                    if s0.is_model(m) {
                        assert forall|c: int| 0 <= c < s.num_clauses() implies model_satisfies(
                            m,
                            #[trigger] s.clause(c),
                        ) by {
                            if c < s0.num_clauses() {
                                assert(model_satisfies(m, s0.clause(c)));
                            }
                        }
                    }
                }
            }
        }
        let ghost s1 = *s;
        let ghost learnt = *self;
        let ghost pos = old(self).assigned@[top as int] as int;
        let ghost marked = noted(old(self).conflicts(), pos, s0.clause(k as int));
        proof {
            assert forall|a: int, b: int|
                0 <= a < s0.num_vars() && 0 <= b < s0.num_vars() implies #[trigger] marked(a, b) == (
            learnt.conflicts())(a, b) by {
                assert(learnt.conflict_set.has(a, b) <==> (old(self).conflict_set.has(a, b) || (a
                    == pos && b != a && mentions(s0.clause(k as int), b))));
            }
            assert forall|i: int|
                0 <= i < old(self).assigned@.len() implies (#[trigger] old(self).assigned@[i])
                < s0.num_vars() by {}
        }
        let emptied = match self.var_exhausted[top] {
            Some(true) => {
                let emptied = self.backjump(s);
                proof {
                    lemma_unwound_alike(
                        marked,
                        learnt.conflicts(),
                        old(self).assigned@,
                        old(self).var_exhausted@,
                        pos,
                        top as nat,
                        s0.num_vars(),
                    );
                    let via = unwound(
                        learnt.conflicts(),
                        old(self).assigned@,
                        old(self).var_exhausted@,
                        pos,
                        top as nat,
                    );
                    let goal = unwound(
                        marked,
                        old(self).assigned@,
                        old(self).var_exhausted@,
                        pos,
                        top as nat,
                    );
                    assert forall|a: int, b: int|
                        0 <= a < s0.num_vars() && 0 <= b < s0.num_vars()
                            implies #[trigger] self.conflict_set.has(a, b) == (goal.1)(a, b) by {
                        assert((via.1)(a, b) == (goal.1)(a, b));
                    }
                }
                proof {
                    assert(s0.extended_by(s)) by {
                        assert forall|c: int| 0 <= c < s0.num_clauses() implies #[trigger] s.clause(c)
                            == s0.clause(c) by {
                            assert(s1.clause(c) == s0.clause(c));
                            assert(s.clause(c) == s1.clause(c));
                        }
                    }
                    assert(Self::same_models(&s0, s)) by {
                        assert forall|m: Seq<bool>| #[trigger] s0.is_model(m) <==> #[trigger] s.is_model(
                            m,
                        ) by {
                            assert(s0.is_model(m) <==> s1.is_model(m));
                            assert(s1.is_model(m) <==> s.is_model(m));
                        }
                    }
                }
                emptied
            },
            _ => {
                proof {
                    assert(s.vals()[self.assigned@[top as int] as int] is Some);
                }
                false
            },
        };
        proof {
            law_learned_after_backtrack(
                old(self).to_learn(&s0, k),
                s0.vals(),
                s.vals(),
                old(self).assigned@,
                self.assigned@.len() as int,
            );
        }
        emptied
    }

    /// What makes the answer right, and that the value of the top is
    /// refuted, stay true while the trail, the records, the values and
    /// the conflict sets stay, and the clauses only grow.
    pub proof fn lemma_kept_here(o: &Search, r: &Search, s: &Solver, t: &Solver)
        requires
            o.inv(s, true),
            o.sound(s),
            Self::grown(s, t),
            t.vals() == s.vals(),
            r.assigned == o.assigned,
            r.antecedents == o.antecedents,
            r.var_exhausted == o.var_exhausted,
            r.conflict_set == o.conflict_set,
        ensures
            r.sound(t),
            o.refuted_top(s) ==> r.refuted_top(t),
    {
        Self::lemma_sound_kept(o, r, s, t, true, -1);
        if o.refuted_top(s) {
            assert forall|i: int| 0 <= i < o.assigned@.len() implies (#[trigger] o.assigned@[i])
                < s.num_vars() by {}
            Self::lemma_refuted_carried(o, r, s, t);
        }
    }

    /// A round that does not end the search makes progress: from the state
    /// `o` the top got its next value (`a`), and then either the next entry
    /// was pushed, or a conflict was handled from the state `c` on.
    pub proof fn lemma_round_progress(
        o: &Search,
        s: &Solver,
        a: &Search,
        c: &Search,
        sc: &Solver,
        r: &Search,
        t: &Solver,
        pushed: bool,
    )
        requires
            o.assigned@.len() > 0,
            o.assigned@.len() <= s.num_vars(),
            o.var_exhausted@.len() == s.num_vars(),
            o.var_exhausted@[o.assigned@.len() - 1] != Some(true),
            s.num_clauses() <= o.capacity,
            a.var_exhausted@ == o.var_exhausted@.update(
                o.assigned@.len() - 1,
                Some(
                    o.antecedents@[o.assigned@.len() - 1].is_uc || o.var_exhausted@[o.assigned@.len()
                        - 1] is Some,
                ),
            ),
            t.num_vars() == s.num_vars(),
            sc.num_vars() == s.num_vars(),
            sc.num_clauses() == s.num_clauses(),
            c.capacity == o.capacity,
            c.clauses_learned == o.clauses_learned,
            c.learned_at_restart == o.learned_at_restart,
            pushed ==> {
                &&& r == c
                &&& t.num_clauses() == s.num_clauses()
                &&& r.assigned@.len() == o.assigned@.len() + 1
                &&& r.var_exhausted@.len() == s.num_vars()
                &&& r.assigned@.len() <= s.num_vars()
                &&& forall|i: int|
                    0 <= i < o.assigned@.len() ==> r.var_exhausted@[i] == a.var_exhausted@[i]
                &&& r.var_exhausted@[o.assigned@.len() as int] is None
            },
            !pushed ==> {
                &&& c.assigned@.len() == o.assigned@.len()
                &&& c.var_exhausted@ == a.var_exhausted@
                &&& r.room(t) <= c.room(sc)
                &&& r.assigned@.len() > 0
                &&& r.var_exhausted@.len() == s.num_vars()
                &&& r.var_exhausted@[r.assigned@.len() - 1] == Some(false)
                &&& forall|i: int|
                    0 <= i < r.assigned@.len() ==> r.var_exhausted@[i] == c.var_exhausted@[i]
                &&& c.var_exhausted@[c.assigned@.len() - 1] == Some(true) ==> r.assigned@.len()
                    < c.assigned@.len()
                &&& c.var_exhausted@[c.assigned@.len() - 1] != Some(true) ==> r.assigned@.len()
                    == c.assigned@.len()
            },
        ensures
            r.room(t) <= o.room(s),
            r.weight(t) > o.weight(s),
            o.progressed(s, r, t),
    {
        let n = s.num_vars() as int;
        let f0 = o.var_exhausted@;
        let l0 = o.assigned@.len() as int;
        let f2 = r.var_exhausted@;
        let l2 = r.assigned@.len() as int;
        let j = if pushed || l2 == l0 {
            l0 - 1
        } else {
            l2 - 1
        };
        assert(c.room(sc) == o.room(s));
        assert forall|p: int| 0 <= p < j implies crate::progress::digit(f0, l0, p)
            == crate::progress::digit(f2, l2, p) by {
            assert(f2[p] == a.var_exhausted@[p]);
            assert(a.var_exhausted@[p] == f0[p]);
        }
        assert(crate::progress::digit(f0, l0, j) < crate::progress::digit(f2, l2, j)) by {
            assert(f2[j] == a.var_exhausted@[j]);
        }
        crate::progress::lemma_weight_grows(f0, l0, f2, l2, n, j, 0);
    }

    /// When no clause is left in the global set, every clause has a
    /// literal that holds.
    pub proof fn lemma_all_satisfied(&self, s: &Solver, nc: CurResult)
        requires
            self.inv(s, false),
            s.next_decision(self.unsat_groups@, self.variable_unsat_groups, nc),
            !nc.set,
        ensures
            forall|k: int| 0 <= k < s.num_clauses() ==> clause_true(#[trigger] s.clause(k), s.vals()),
    {
        assert(self.masked(s, false) == s.vals());
        assert forall|k: int| 0 <= k < s.num_clauses() implies clause_true(
            #[trigger] s.clause(k),
            s.vals(),
        ) by {
            assert(!self.unsat_groups@.contains(k as usize));
        }
    }

    /// When there is nothing to assign, the clause that is reported is
    /// falsified.
    pub proof fn lemma_falsified(&self, s: &Solver, nc: CurResult)
        requires
            self.inv(s, false),
            s.next_decision(self.unsat_groups@, self.variable_unsat_groups, nc),
            nc.set,
            nc.cur is None,
        ensures
            nc.antecedent is Some,
            nc.antecedent->0 < s.num_clauses(),
            forall|t: int|
                0 <= t < s.clause(nc.antecedent->0 as int).len() ==> lit_false(
                    #[trigger] s.clause(nc.antecedent->0 as int)[t],
                    s.vals(),
                ),
    {
        let unsat = self.unsat_groups@;
        assert(exists|k: int| s.urgent(unsat, k));
        let a = nc.antecedent->0 as int;
        assert(s.urgent(unsat, a));
        let cl = s.clause(a);
        s.lemma_clause_within(a);
        lemma_open_count_zero(cl, s.vals());
        assert(self.masked(s, false) == s.vals());
        assert(!clause_true(cl, s.vals()));
        assert forall|t: int| 0 <= t < cl.len() implies lit_false(#[trigger] cl[t], s.vals()) by {
            assert(!lit_open(cl[t], s.vals()));
            assert(!lit_true(cl[t], s.vals()));
            lemma_closed_literal(cl[t], s.vals());
        }
    }

    /// The variable that the heuristic returns is an unassigned variable
    /// of the solver, and a unit clause that it names forces it.
    pub proof fn lemma_decision(&self, s: &Solver, nc: CurResult)
        requires
            self.inv(s, false),
            s.next_decision(self.unsat_groups@, self.variable_unsat_groups, nc),
            nc.set,
            nc.cur is Some,
        ensures
            nc.cur->0 < s.num_vars(),
            s.vals()[nc.cur->0 as int] is None,
            nc.is_uc ==> nc.antecedent is Some && nc.antecedent->0 < s.num_clauses()
                && Self::unit_for(s, nc.antecedent->0 as int, nc.cur->0 as int),
    {
        let unsat = self.unsat_groups@;
        let v = nc.cur->0;
        assert(self.masked(s, false) == s.vals());
        if exists|k: int| s.urgent(unsat, k) {
            let a = nc.antecedent->0 as int;
            let cl = s.clause(a);
            s.lemma_clause_within(a);
            assert(s.urgent(unsat, a));
            assert(open_count(cl, s.vals()) == 1);
            let j = choose|j: int|
                0 <= j < cl.len() && lit_open(#[trigger] cl[j], s.vals()) && cl[j].var_pos == v
                    && cl[j].val == nc.literal_sign->0;
            assert(!clause_true(cl, s.vals()));
            assert forall|t: int|
                0 <= t < cl.len() && (#[trigger] cl[t]).var_pos != v implies lit_false(
                cl[t],
                s.vals(),
            ) by {
                if lit_open(cl[t], s.vals()) {
                    lemma_single_open(cl, s.vals(), j, t);
                }
                assert(!lit_true(cl[t], s.vals()));
                lemma_closed_literal(cl[t], s.vals());
            }
            assert forall|t1: int, t2: int|
                0 <= t1 < cl.len() && 0 <= t2 < cl.len() && (#[trigger] cl[t1]).var_pos == v && (
                #[trigger] cl[t2]).var_pos == v implies t1 == t2 by {
                lemma_single_open(cl, s.vals(), j, t1);
                lemma_single_open(cl, s.vals(), j, t2);
            }
            assert(mentions(cl, v as int));
        } else {
            let m = choose|m: nat| #[trigger]
                s.least_open(unsat, m) && first_max_degree(
                    self.variable_unsat_groups,
                    s.candidates(unsat, m),
                    v,
                );
            let k = choose|k: int|
                0 <= k < s.num_clauses() && unsat.contains(k as usize) && open_count(
                    #[trigger] s.clause(k),
                    s.vals(),
                ) == m;
            assert(!s.urgent(unsat, k));
            s.lemma_clause_within(k);
            lemma_some_open(s.clause(k), s.vals());
            let j = choose|j: int|
                0 <= j < s.clause(k).len() && lit_open(#[trigger] s.clause(k)[j], s.vals());
            let w = s.clause(k)[j].var_pos;
            assert(has_open_on(s.clause(k), s.vals(), w as int));
            assert(s.candidate_below(unsat, m, s.num_clauses() as int, w as int));
            assert(s.candidates(unsat, m).contains(w));
            if v == crate::sat_linked_hash_set::NIL {
                assert(self.variable_unsat_groups.list(w as int).len() == 0);
                assert(mentions(s.clause(k), w as int));
                assert(k < self.capacity);
                assert(self.variable_unsat_groups.has(w as int, k));
                self.variable_unsat_groups.lemma_list_facts(w as int);
                assert(self.variable_unsat_groups.capacity(w as int) == self.capacity);
                assert(self.variable_unsat_groups.list(w as int).contains(k as usize));
                assert(false);
            }
            assert(s.candidates(unsat, m).contains(v));
            assert(s.candidate_below(unsat, m, s.num_clauses() as int, v as int));
            let k2 = choose|k2: int|
                0 <= k2 < s.num_clauses() && unsat.contains(k2 as usize) && open_count(
                    #[trigger] s.clause(k2),
                    s.vals(),
                ) == m && has_open_on(s.clause(k2), s.vals(), v as int);
            let j2 = choose|j2: int|
                0 <= j2 < s.clause(k2).len() && (#[trigger] s.clause(k2)[j2]).var_pos == v
                    && lit_open(s.clause(k2)[j2], s.vals());
        }
    }
}

impl Solver {
    /// Takes the value from every variable.
    pub fn clear_values(&mut self)
        requires
            old(self).wf(),
        ensures
            final(self).wf(),
            old(self).extended_by(final(self)),
            final(self).num_clauses() == old(self).num_clauses(),
            final(self).backtracks == old(self).backtracks,
            final(self).connections_checked == old(self).connections_checked,
            forall|v: int| 0 <= v < final(self).num_vars() ==> (#[trigger] final(self).vals()[v]) is None,
    {
        let n = self.variables.len();
        let mut i: usize = 0;
        while i < n
            invariant
                i <= n,
                n == old(self).variables@.len(),
                self.variables@.len() == n,
                old(self).wf(),
                self.connection_groups == old(self).connection_groups,
                self.connections == old(self).connections,
                self.variable_connections == old(self).variable_connections,
                self.backtracks == old(self).backtracks,
                self.connections_checked == old(self).connections_checked,
                forall|v: int|
                    0 <= v < n ==> (#[trigger] self.variables@[v]).name == old(self).variables@[v].name && self.variables@[v].pos == old(self).variables@[v].pos,
                forall|v: int| 0 <= v < i ==> (#[trigger] self.variables@[v]).value is None,
            decreases n - i,
        {
            self.variables[i].value = None;
            i += 1;
        }
        proof {
            assert(self.names() =~= old(self).names());
            old(self).lemma_same_formula(*self);
        }
    }

    /// Searches for an assignment that satisfies every clause, starting
    /// with every variable unassigned, and returns the answer together
    /// with the final state of the search.
    ///
    /// The answer is `sat` exactly when some assignment of values to the
    /// variables satisfies every clause that the solver had. Then the
    /// values of the variables satisfy every clause, those that were
    /// learned on the way included. The clauses that the solver had keep
    /// their indices, and the variables their names. The counters of the
    /// solver go up by the literals looked at and the entries taken off
    /// the trail.
    pub fn search(&mut self) -> (r: (SolveResult, Search))
        requires
            old(self).wf(),
        ensures
            final(self).wf(),
            old(self).extended_by(final(self)),
            r.0.num_backtracks == final(self).backtracks,
            r.0.connections_checked == final(self).connections_checked,
            r.0.sat <==> exists|m: Seq<bool>| old(self).is_model(m),
            r.0.sat ==> forall|k: int|
                0 <= k < final(self).num_clauses() ==> clause_true(
                    #[trigger] final(self).clause(k),
                    final(self).vals(),
                ),
            r.0.sat ==> old(self).is_model(final(self).completed()),
            !r.0.sat ==> r.1.assigned@.len() == 0,
            final(self).backtracks >= old(self).backtracks,
            !r.0.sat && (forall|k: int|
                0 <= k < old(self).num_clauses() ==> (#[trigger] old(self).clause(k)).len() > 0)
                ==> final(self).backtracks > old(self).backtracks || final(self).backtracks
                == usize::MAX,
            (exists|m: Seq<bool>, order: Seq<int>| #[trigger] old(self).propagates(m, order))
                ==> final(self).backtracks == old(self).backtracks,
            r.1.inv(final(self), false),
            r.1.sound(final(self)),
            Search::same_models(old(self), final(self)),
    {
        let ghost s0 = *self;
        let ghost lucky = exists|m: Seq<bool>, order: Seq<int>| #[trigger] s0.propagates(m, order);
        let ghost (m0, order0) = choose|m: Seq<bool>, order: Seq<int>| #[trigger]
            s0.propagates(m, order);
        self.clear_values();
        let ghost s1 = *self;
        proof {
            if lucky {
                s0.lemma_propagates_kept(&s1, m0, order0);
            }
        }
        proof {
            assert(Search::grown(&s0, &s1));
            Search::lemma_same_models(&s0, &s1);
        }
        let mut st = Search::begin(self);
        proof {
            st.lemma_sound_empty(self);
        }
        let nc = self.get_next_cur(&st.unsat_groups, &st.variable_unsat_groups);
        proof {
            if lucky {
                assert(st.on_course(self, m0, false));
                if nc.set {
                    st.lemma_next_is_unit(self, m0, order0, nc);
                }
            }
        }
        if !nc.set {
            proof {
                st.lemma_all_satisfied(self, nc);
                self.lemma_values_model();
                assert(s0.is_model(self.completed()) <==> s1.is_model(self.completed()));
            }
            return (
                SolveResult {
                    sat: true,
                    connections_checked: self.connections_checked as u64,
                    num_backtracks: self.backtracks as u64,
                },
                st,
            );
        }
        match nc.cur {
            None => {
                proof {
                    st.lemma_falsified(self, nc);
                    let a = nc.antecedent->0 as int;
                    self.lemma_clause_within(a);
                    assert forall|m: Seq<bool>| !s1.is_model(m) by {
                        if s1.is_model(m) {
                            assert(model_satisfies(m, s1.clause(a)));
                            let t = choose|t: int|
                                0 <= t < s1.clause(a).len() && m[(#[trigger] s1.clause(
                                    a,
                                )[t]).var_pos as int] == s1.clause(a)[t].val;
                            assert(lit_false(s1.clause(a)[t], s1.vals()));
                            assert(s1.vals()[s1.clause(a)[t].var_pos as int] is None);
                        }
                    }
                    assert forall|m: Seq<bool>| !s0.is_model(m) by {
                        assert(s0.is_model(m) <==> s1.is_model(m));
                    }
                    if s1.clause(a).len() > 0 {
                        assert(lit_false(s1.clause(a)[0], s1.vals()));
                        assert(s1.vals()[s1.clause(a)[0].var_pos as int] is None);
                    }
                    assert(s0.clause(a) == s1.clause(a));
                }
                return (
                    SolveResult {
                        sat: false,
                        connections_checked: self.connections_checked as u64,
                        num_backtracks: self.backtracks as u64,
                    },
                    st,
                );
            },
            Some(v) => {
                proof {
                    st.lemma_decision(self, nc);
                }
                let ghost before = st;
                st.push_entry(self, v, nc.is_uc, nc.antecedent);
                proof {
                    Search::lemma_sound_pushed(&before, &st, self);
                    if lucky {
                        assert(st.on_course(self, m0, true));
                    }
                }
            },
        }
        let ghost n = self.num_vars();
        loop
            invariant
                st.inv(self, true),
                st.var_exhausted@[st.assigned@.len() - 1] != Some(true),
                st.sound(self),
                self.vals()[st.assigned@[st.assigned@.len() - 1] as int] is Some ==> st.refuted_top(
                    self,
                ),
                s0.extended_by(self),
                Search::same_models(&s0, self),
                s0 == *old(self),
                n == self.num_vars(),
                self.backtracks >= s0.backtracks,
                lucky == (exists|m: Seq<bool>, order: Seq<int>| #[trigger] s0.propagates(m, order)),
                lucky ==> self.propagates(m0, order0) && st.on_course(self, m0, true)
                    && self.backtracks == s0.backtracks,
            decreases st.room(self), pow4(n) - st.weight(self),
        {
            let ghost s2 = *self;
            let ghost st2 = st;
            proof {
                lemma_weight_bound(st.var_exhausted@, st.assigned@.len() as int, n as int, 0);
            }
            let outcome = self.advance(&mut st);
            proof {
                if lucky {
                    assert(s2.propagates(m0, order0) && st2.on_course(&s2, m0, true));
                    assert(self.backtracks == s2.backtracks);
                    assert(self.propagates(m0, order0));
                    assert(st.on_course(self, m0, outcome is None));
                }
                assert forall|m: Seq<bool>| #[trigger] s0.is_model(m) <==> #[trigger] self.is_model(
                    m,
                ) by {
                    assert(s0.is_model(m) <==> s2.is_model(m));
                    assert(s2.is_model(m) <==> self.is_model(m));
                }
                assert(s0.extended_by(self)) by {
                    assert forall|c: int| 0 <= c < s0.num_clauses() implies #[trigger] self.clause(c)
                        == s0.clause(c) by {
                        assert(s2.clause(c) == s0.clause(c));
                        assert(self.clause(c) == s2.clause(c));
                    }
                }
                lemma_weight_bound(st.var_exhausted@, st.assigned@.len() as int, n as int, 0);
            }
            match outcome {
                Some(sat) => {
                    proof {
                        if !sat {
                            assert forall|m: Seq<bool>| !s0.is_model(m) by {
                                assert(s0.is_model(m) <==> self.is_model(m));
                            }
                        } else {
                            self.lemma_values_model();
                            assert(s0.is_model(self.completed()) <==> self.is_model(
                                self.completed(),
                            ));
                        }
                    }
                    return (
                        SolveResult {
                            sat,
                            connections_checked: self.connections_checked as u64,
                            num_backtracks: self.backtracks as u64,
                        },
                        st,
                    );
                },
                None => {
                    proof {
                        assert(st2.progressed(&s2, &st, self));
                    }
                },
            }
        }
    }

    /// One round of the search, from an open entry at the top of the
    /// trail: the entry gets its next value and is checked. After a
    /// successful check it is settled and the next variable is put on the
    /// trail; when no clause is left unsatisfied the round answers
    /// `Some(true)`. A conflict, at the check or at a clause that is left
    /// without an unassigned literal, is handled as `on_conflict` says;
    /// when that empties the trail the round answers `Some(false)`, and
    /// the clauses have no model. A round that does not end the search
    /// answers `None`, after a restart if the restart rule asks for one.
    /// The count of backtracks stays as it is unless a conflict takes
    /// entries off the trail; it has gone up when the trail was emptied.
    /// On the course of unit propagation (see `on_course`) the round meets
    /// no conflict and stays on that course.
    #[verifier::rlimit(80)]
    #[verifier::spinoff_prover]
    pub fn advance(&mut self, st: &mut Search) -> (outcome: Option<bool>)
        requires
            old(st).inv(old(self), true),
            old(st).var_exhausted@[old(st).assigned@.len() - 1] != Some(true),
            old(st).sound(old(self)),
            old(self).vals()[old(st).assigned@[old(st).assigned@.len() - 1] as int] is Some ==> old(st).refuted_top(old(self)),
        ensures
            final(self).wf(),
            old(self).extended_by(final(self)),
            Search::same_models(old(self), final(self)),
            final(st).sound(final(self)),
            outcome is None ==> final(st).inv(final(self), true) && final(st).var_exhausted@[final(st).assigned@.len() - 1] != Some(true) && (final(self).vals()[final(st).assigned@[final(st).assigned@.len() - 1] as int] is Some ==> final(st).refuted_top(final(self))),
            outcome is Some ==> final(st).inv(final(self), false),
            outcome == Some(true) ==> forall|k: int|
                0 <= k < final(self).num_clauses() ==> clause_true(
                    #[trigger] final(self).clause(k),
                    final(self).vals(),
                ),
            outcome == Some(false) ==> final(st).assigned@.len() == 0 && forall|m: Seq<bool>|
                !final(self).is_model(m),
            outcome is None ==> old(st).progressed(old(self), final(st), final(self)),
            final(self).backtracks >= old(self).backtracks,
            outcome == Some(true) || final(st).assigned@.len() > old(st).assigned@.len()
                ==> final(self).backtracks == old(self).backtracks,
            outcome == Some(false) ==> final(self).backtracks > old(self).backtracks
                || final(self).backtracks == usize::MAX,
            forall|m: Seq<bool>, order: Seq<int>| #[trigger]
                old(self).propagates(m, order) && old(st).on_course(old(self), m, true) ==> {
                    &&& outcome != Some(false)
                    &&& final(self).backtracks == old(self).backtracks
                    &&& final(self).propagates(m, order)
                    &&& final(st).on_course(final(self), m, outcome is None)
                },
    {
        let ghost s0 = *self;
        let ghost st0 = *st;
        let ghost hopeful = exists|m: Seq<bool>, order: Seq<int>| #[trigger]
            s0.propagates(m, order) && st0.on_course(&s0, m, true);
        proof {
            assert(self.names() =~= s0.names());
            st.lemma_trail_bound(self, true);
        }
        let ghost pos0 = st.assigned@[st.assigned@.len() - 1] as int;
        st.assign_top(self);
        proof {
            Search::lemma_same_but_extends(&s0, self, pos0);
            Search::lemma_sound_assigned(&st0, st, &s0, self);
        }
        let ghost sa = *self;
        proof {
            assert forall|m: Seq<bool>, order: Seq<int>| #[trigger]
                s0.propagates(m, order) && st0.on_course(&s0, m, true) implies agrees(sa.vals(), m)
                && sa.propagates(m, order) by {
                st0.lemma_forced_value(&s0, m);
                assert forall|c: int| 0 <= c < s0.num_clauses() implies #[trigger] sa.clause(c)
                    == s0.clause(c) by {
                    assert(sa.clause(c) =~= s0.clause(c));
                }
                s0.lemma_propagates_kept(&sa, m, order);
                assert forall|v: int| 0 <= v < sa.vals().len() && (#[trigger] sa.vals()[v]) is Some implies sa.vals()[v]
                    == Some(m[v]) by {
                    if v != pos0 {
                        assert(sa.vals()[v] == s0.vals()[v]);
                    }
                }
            }
        }
        let ghost st1 = *st;
        let ghost mut pushed = false;
        let top = st.assigned.len() - 1;
        let pos = st.assigned[top];
        proof {
            st.lemma_lists_in_range(self, true, pos as int);
        }
        let cr = self.do_check(
            &st.unsat_groups,
            &st.var_assigned_index,
            &pos,
            &st.variable_unsat_groups,
        );
        let ghost s1 = *self;
        self.connections_checked = self.connections_checked.saturating_add(cr.connections_checked);
        proof {
            Search::lemma_inv_solver(st, &s1, self, true);
            assert(self.vals() =~= s1.vals());
            assert(self.names() =~= s0.names());
            assert forall|c: int| 0 <= c < s0.num_clauses() implies #[trigger] self.clause(c)
                == s0.clause(c) by {
                assert(self.clause(c) =~= s1.clause(c));
            }
            assert(s0.extended_by(self));
            assert(Search::grown(&s1, self));
            Search::lemma_sound_kept(st, st, &s1, self, true, -1);
            Search::lemma_same_models(&s1, self);
        }
        let ghost s2 = *self;
        proof {
            assert forall|m: Seq<bool>| #[trigger] s0.is_model(m) <==> #[trigger] s2.is_model(m) by {
                assert(s0.is_model(m) <==> s1.is_model(m));
                assert(s1.is_model(m) <==> s2.is_model(m));
            }
            assert(s2.vals() =~= sa.vals());
            assert forall|m: Seq<bool>, order: Seq<int>| #[trigger]
                s0.propagates(m, order) && st0.on_course(&s0, m, true) implies agrees(s2.vals(), m)
                && s2.propagates(m, order) by {
                assert forall|c: int| 0 <= c < sa.num_clauses() implies #[trigger] s2.clause(c)
                    == sa.clause(c) by {
                    assert(s2.clause(c) =~= sa.clause(c));
                }
                sa.lemma_propagates_kept(&s2, m, order);
            }
            if hopeful && !cr.check {
                let (m, order) = choose|m: Seq<bool>, order: Seq<int>| #[trigger]
                    s0.propagates(m, order) && st0.on_course(&s0, m, true);
                sa.lemma_all_live(m, st.variable_unsat_groups.list(pos as int));
            }
            assert(hopeful ==> cr.check);
        }
        let conflict: Option<usize>;
        if cr.check {
            proof {
                assert forall|c: int| 0 <= c < s2.num_clauses() implies #[trigger] s2.clause(c)
                    == s1.clause(c) by {
                    assert(s2.clause(c) =~= s1.clause(c));
                }
                assert(s2.newly_satisfied(
                    st.variable_unsat_groups.list(pos as int),
                    st.unsat_groups@,
                ) == s1.newly_satisfied(
                    st.variable_unsat_groups.list(pos as int),
                    st.unsat_groups@,
                )) by {
                    Self::lemma_newly_same(
                        &s1,
                        &s2,
                        st.variable_unsat_groups.list(pos as int),
                        st.unsat_groups@,
                    );
                }
            }
            let ghost open = *st;
            st.settle(self, cr.groups_sat);
            proof {
                assert(Search::grown(&s2, &s2));
                Search::lemma_sound_kept(&open, st, &s2, &s2, true, -1);
            }
            let nc = self.get_next_cur(&st.unsat_groups, &st.variable_unsat_groups);
            if !nc.set {
                proof {
                    st.lemma_all_satisfied(self, nc);
                }
                return Some(true);
            }
            proof {
                if hopeful {
                    let (m, order) = choose|m: Seq<bool>, order: Seq<int>| #[trigger]
                        s0.propagates(m, order) && st0.on_course(&s0, m, true);
                    st.lemma_next_is_unit(self, m, order, nc);
                }
                assert(hopeful ==> nc.is_uc && nc.cur is Some);
            }
            match nc.cur {
                Some(v) => {
                    proof {
                        st.lemma_decision(self, nc);
                    }
                    let ghost settled = *st;
                    st.push_entry(self, v, nc.is_uc, nc.antecedent);
                    proof {
                        Search::lemma_sound_pushed(&settled, st, self);
                        assert(st.var_assigned_index@[st.assigned@[st.assigned@.len() - 1] as int]
                            == st.assigned@.len() - 1);
                        pushed = true;
                    }
                    conflict = None;
                },
                None => {
                    proof {
                        st.lemma_falsified(self, nc);
                        assert(st.masked(self, false) == self.vals());
                        assert(st.var_assigned_index@[st.assigned@[top as int] as int] == top);
                        assert(st.masked(self, false)[pos as int] is Some);
                    }
                    let ghost settled = *st;
                    st.unsettle(self);
                    proof {
                        Search::lemma_sound_kept(&settled, st, &s2, &s2, false, -1);
                    }
                    conflict = nc.antecedent;
                },
            }
        } else {
            proof {
                let list = st.variable_unsat_groups.list(pos as int);
                let i = choose|i: int|
                    #![trigger list[i]]
                    s1.earliest_conflict(list, pos as int, st.var_assigned_index@, i) && list[i]
                        == cr.min_group_index->0;
                let k = list[i] as int;
                assert(self.clause(k) =~= s1.clause(k));
                assert(!clause_live(s1.clause(k), s1.vals()));
                assert forall|t: int| 0 <= t < self.clause(k).len() implies lit_false(
                    #[trigger] self.clause(k)[t],
                    self.vals(),
                ) by {
                    assert(s1.clause(k)[t] == self.clause(k)[t]);
                }
            }
            conflict = cr.min_group_index;
        }
        let ghost st2 = *st;
        let ghost s2b = *self;
        match conflict {
            Some(k) => {
                let ghost s3 = *self;
                let emptied = st.on_conflict(self, k);
                proof {
                    assert(s0.extended_by(self)) by {
                        assert forall|c: int| 0 <= c < s0.num_clauses() implies #[trigger] self.clause(
                            c,
                        ) == s0.clause(c) by {
                            assert(s3.clause(c) == s0.clause(c));
                            assert(self.clause(c) == s3.clause(c));
                        }
                    }
                    assert forall|m: Seq<bool>| #[trigger] s0.is_model(m) <==> #[trigger] self.is_model(
                        m,
                    ) by {
                        assert(s0.is_model(m) <==> s3.is_model(m));
                        assert(s3.is_model(m) <==> self.is_model(m));
                    }
                }
                if emptied {
                    proof {
                        st.lemma_sound_empty(self);
                    }
                    return Some(false);
                }
            },
            None => {},
        }
        proof {
            Search::lemma_round_progress(&st0, &s0, &st1, &st2, &s2b, st, self, pushed);
        }
        let since = if st.clauses_learned >= st.learned_at_restart {
            st.clauses_learned - st.learned_at_restart
        } else {
            0
        };
        proof {
            assert(hopeful ==> conflict is None && since == 0);
        }
        if since >= 20 && st.window.below_mean(st.last_trail) {
            let ghost s4 = *self;
            st.restart(self);
            proof {
                assert(s0.extended_by(self)) by {
                    assert forall|c: int| 0 <= c < s0.num_clauses() implies #[trigger] self.clause(c)
                        == s0.clause(c) by {
                        assert(s4.clause(c) == s0.clause(c));
                        assert(self.clause(c) == s4.clause(c));
                    }
                }
                assert forall|m: Seq<bool>| #[trigger] s0.is_model(m) <==> #[trigger] self.is_model(
                    m,
                ) by {
                    assert(s0.is_model(m) <==> s4.is_model(m));
                    assert(s4.is_model(m) <==> self.is_model(m));
                }
                assert(st.assigned@[0] < self.num_vars());
            }
        }
        None
    }

    /// Solvers with the same clauses and values agree on the newly
    /// satisfied clauses.
    pub proof fn lemma_newly_same(s: &Solver, t: &Solver, ks: Seq<usize>, unsat: Set<usize>)
        requires
            t.connection_groups == s.connection_groups,
            t.connections == s.connections,
            t.variables == s.variables,
        ensures
            t.newly_satisfied(ks, unsat) == s.newly_satisfied(ks, unsat),
        decreases ks.len(),
    {
        if ks.len() > 0 {
            Self::lemma_newly_same(s, t, ks.drop_last(), unsat);
            assert(t.clause(ks.last() as int) =~= s.clause(ks.last() as int));
            assert(t.vals() =~= s.vals());
        }
    }

    /// Searches for an assignment that satisfies every clause, starting
    /// with every variable unassigned. The answer is `sat` exactly when
    /// some assignment of values to the variables satisfies every clause;
    /// then the values of the variables satisfy every clause, those that
    /// were learned on the way included.
    ///
    /// The count of backtracks never goes down. It goes up when the answer
    /// is "unsatisfiable" and no clause is empty, and it stays as it is
    /// when unit propagation alone finds a model (see `propagates`).
    pub fn solve(&mut self) -> (r: SolveResult)
        requires
            old(self).wf(),
        ensures
            final(self).wf(),
            old(self).extended_by(final(self)),
            r.num_backtracks == final(self).backtracks,
            r.connections_checked == final(self).connections_checked,
            r.sat <==> exists|m: Seq<bool>| old(self).is_model(m),
            r.sat ==> forall|k: int|
                0 <= k < old(self).num_clauses() ==> clause_true(
                    #[trigger] old(self).clause(k),
                    final(self).vals(),
                ),
            r.sat ==> old(self).is_model(final(self).completed()),
            r.sat ==> forall|k: int|
                0 <= k < final(self).num_clauses() ==> clause_true(
                    #[trigger] final(self).clause(k),
                    final(self).vals(),
                ),
            final(self).backtracks >= old(self).backtracks,
            !r.sat && (forall|k: int|
                0 <= k < old(self).num_clauses() ==> (#[trigger] old(self).clause(k)).len() > 0)
                ==> final(self).backtracks > old(self).backtracks || final(self).backtracks
                == usize::MAX,
            (exists|m: Seq<bool>, order: Seq<int>| #[trigger] old(self).propagates(m, order))
                ==> final(self).backtracks == old(self).backtracks,
    {
        let (r, _st) = self.search();
        proof {
            if r.sat {
                assert forall|k: int| 0 <= k < old(self).num_clauses() implies clause_true(
                    #[trigger] old(self).clause(k),
                    self.vals(),
                ) by {
                    assert(self.clause(k) == old(self).clause(k));
                }
            }
        }
        r
    }
}

} // verus!

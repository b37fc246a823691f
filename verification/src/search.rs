use crate::antecedent::Antecedent;
use crate::conflict_set::ConflictSet;
use crate::learned_clause::sorted_lits;
use crate::learned_clause::LearnedClause;
use crate::logic::clause_true;
use crate::logic::lit_false;
use crate::logic::lit_true;
use crate::logic::mentions;
use crate::logic::Values;
use crate::restart::TrailWindow;
use crate::sat_linked_hash_set::SatLinkedHashSet;
use crate::solver::Solver;
use std::collections::BTreeSet;
use vstd::prelude::*;
use vstd::std_specs::btree::group_btree_axioms;

verus! {

/// The state of a search: the trail with what is recorded of each of its
/// positions, the unsatisfied clauses, globally and for each variable, the
/// conflict sets, the clauses seen so far, and what the restart rule needs.
///
/// The last entry of the trail may be open: its variable is on the trail,
/// but the clauses that its value satisfies still count as unsatisfied.
/// Every entry below it is settled.
pub struct Search {
    pub assigned: Vec<usize>,
    pub antecedents: Vec<Antecedent>,
    pub var_exhausted: Vec<Option<bool>>,
    pub groups_sat_at_assignment: Vec<Vec<usize>>,
    pub var_assigned_index: Vec<usize>,
    pub unsat_groups: BTreeSet<usize>,
    pub variable_unsat_groups: SatLinkedHashSet,
    pub conflict_set: ConflictSet,
    pub unique_clauses: Vec<LearnedClause>,
    pub window: TrailWindow,
    pub clauses_learned: usize,
    pub learned_at_restart: usize,
    pub last_trail: usize,
    pub capacity: usize,
}

/// Puts the variables of clause `k` other than `pos` into the conflict set
/// of `pos`.
pub fn add_others(cs: &mut ConflictSet, s: &Solver, k: usize, pos: usize)
    requires
        s.wf(),
        old(cs).wf(),
        old(cs).num_vars() == s.num_vars(),
        k < s.num_clauses(),
        pos < s.num_vars(),
    ensures
        final(cs).wf(),
        final(cs).num_vars() == s.num_vars(),
        forall|a: int, b: int|
            0 <= a < s.num_vars() && 0 <= b < s.num_vars() ==> (#[trigger] final(cs).has(a, b) <==> (
            old(cs).has(a, b) || (a == pos && b != a && mentions(s.clause(k as int), b)))),
{
    let group = &s.connection_groups[k];
    let n = group.connections.len();
    let ghost cl = s.clause(k as int);
    let mut j: usize = 0;
    while j < n
        invariant
            j <= n,
            k < s.num_clauses(),
            pos < s.num_vars(),
            group == &s.connection_groups@[k as int],
            cl == s.clause(k as int),
            n == cl.len(),
            s.wf(),
            cs.wf(),
            cs.num_vars() == s.num_vars(),
            forall|a: int, b: int|
                0 <= a < s.num_vars() && 0 <= b < s.num_vars() ==> (#[trigger] cs.has(a, b) <==> (old(
                    cs,
                ).has(a, b) || (a == pos && b != a && exists|t: int|
                    0 <= t < j && (#[trigger] cl[t]).var_pos == b))),
        decreases n - j,
    {
        let l = group.connections[j];
        assert(s.connection_groups@[k as int].connections@[j as int] < s.connections@.len());
        let var = s.connections[l].var_pos;
        assert(s.connections@[l as int].var_pos < s.variables@.len());
        let ghost before = *cs;
        if var != pos {
            cs.add(pos, var);
        }
        proof {
            assert(cl[j as int].var_pos == var);
            assert forall|a: int, b: int| 0 <= a < s.num_vars() && 0 <= b < s.num_vars() implies (
            #[trigger] cs.has(a, b) <==> (old(cs).has(a, b) || (a == pos && b != a && exists|t: int|
                0 <= t < j + 1 && (#[trigger] cl[t]).var_pos == b))) by {
                assert(before.has(a, b) <==> (old(cs).has(a, b) || (a == pos && b != a
                    && exists|t: int| 0 <= t < j && (#[trigger] cl[t]).var_pos == b)));
                if exists|t: int| 0 <= t < j && (#[trigger] cl[t]).var_pos == b {
                    let t = choose|t: int| 0 <= t < j && (#[trigger] cl[t]).var_pos == b;
                    assert(0 <= t < j + 1 && cl[t].var_pos == b);
                }
                if exists|t: int| 0 <= t < j + 1 && (#[trigger] cl[t]).var_pos == b {
                    let t = choose|t: int| 0 <= t < j + 1 && (#[trigger] cl[t]).var_pos == b;
                    if t < j {
                        assert(exists|t: int| 0 <= t < j && (#[trigger] cl[t]).var_pos == b);
                    }
                }
            }
        }
        j += 1;
    }
    proof {
        assert forall|a: int, b: int| 0 <= a < s.num_vars() && 0 <= b < s.num_vars() implies (
        #[trigger] cs.has(a, b) <==> (old(cs).has(a, b) || (a == pos && b != a && mentions(cl, b)))) by {
            if mentions(cl, b) {
                let t = choose|t: int| 0 <= t < cl.len() && (#[trigger] cl[t]).var_pos == b;
                assert(0 <= t < n && cl[t].var_pos == b);
            }
            if exists|t: int| 0 <= t < n && (#[trigger] cl[t]).var_pos == b {
                let t = choose|t: int| 0 <= t < n && (#[trigger] cl[t]).var_pos == b;
                assert(mentions(cl, b));
            }
        }
    }
}

/// The list without clause `g`, the others in their order.
pub open spec fn without(l: Seq<usize>, g: usize) -> Seq<usize> {
    if l.contains(g) {
        l.remove(l.index_of(g))
    } else {
        l
    }
}

/// The list without the clauses `gs`, taken out one after the other.
pub open spec fn without_all(l: Seq<usize>, gs: Seq<usize>) -> Seq<usize>
    decreases gs.len(),
{
    if gs.len() == 0 {
        l
    } else {
        without(without_all(l, gs.drop_last()), gs.last())
    }
}

impl Solver {
    /// The list of variable `v` with clause `g` at its head, if `g`
    /// mentions `v` and the list lacks it.
    pub open spec fn with_clause(&self, l: Seq<usize>, g: usize, v: int) -> Seq<usize> {
        if mentions(self.clause(g as int), v) && !l.contains(g) {
            seq![g] + l
        } else {
            l
        }
    }

    /// The list of variable `v` with the clauses `gs` put at its head, one
    /// after the other.
    pub open spec fn with_all(&self, l: Seq<usize>, gs: Seq<usize>, v: int) -> Seq<usize>
        decreases gs.len(),
    {
        if gs.len() == 0 {
            l
        } else {
            self.with_clause(self.with_all(l, gs.drop_last(), v), gs.last(), v)
        }
    }
}

impl Search {
    /// The number of settled entries.
    pub open spec fn settled(&self, open: bool) -> int {
        if open {
            self.assigned@.len() - 1
        } else {
            self.assigned@.len() as int
        }
    }

    /// The values of the settled variables: those of the solver, without
    /// the value of the open entry.
    pub open spec fn masked(&self, s: &Solver, open: bool) -> Values {
        if open && self.assigned@.len() > 0 {
            s.vals().update(self.assigned@[self.assigned@.len() - 1] as int, None)
        } else {
            s.vals()
        }
    }

    /// The arrays have one entry per variable, and the parts are well
    /// formed.
    pub open spec fn shape(&self, s: &Solver) -> bool {
        let n = s.num_vars();
        &&& s.wf()
        &&& self.antecedents@.len() == n
        &&& self.var_exhausted@.len() == n
        &&& self.groups_sat_at_assignment@.len() == n
        &&& self.var_assigned_index@.len() == n
        &&& self.variable_unsat_groups.wf()
        &&& self.variable_unsat_groups.num_vars() == n
        &&& forall|v: int|
            0 <= v < n ==> #[trigger] self.variable_unsat_groups.capacity(v) == self.capacity
        &&& s.num_clauses() <= self.capacity
        &&& self.conflict_set.wf()
        &&& self.conflict_set.num_vars() == n
        &&& self.window.wf()
        &&& forall|v: int| 0 <= v < n ==> (#[trigger] self.var_assigned_index@[v]) < n
    }

    /// The trail names each variable at most once, the index of positions
    /// is its inverse, and the settled variables are exactly the assigned
    /// ones.
    pub open spec fn trail_ok(&self, s: &Solver, open: bool) -> bool {
        let n = s.num_vars();
        let len = self.assigned@.len() as int;
        &&& open ==> len > 0
        &&& forall|i: int|
            0 <= i < len ==> (#[trigger] self.assigned@[i]) < n
                && self.var_assigned_index@[self.assigned@[i] as int] == i
        &&& forall|v: int|
            0 <= v < n ==> ((#[trigger] self.masked(s, open)[v]) is Some <==> (
            self.var_assigned_index@[v] < self.settled(open)
                && self.assigned@[self.var_assigned_index@[v] as int] == v))
        &&& open ==> (s.vals()[self.assigned@[len - 1] as int] is None
            <==> self.var_exhausted@[len - 1] is None)
        &&& forall|i: int| 0 <= i < self.settled(open) ==> (#[trigger] self.var_exhausted@[i]) is Some
        &&& forall|i: int|
            0 <= i < len && (#[trigger] self.antecedents@[i]).is_uc ==> {
                &&& self.antecedents@[i].antecedent is Some
                &&& self.antecedents@[i].antecedent->0 < s.num_clauses()
                &&& self.var_exhausted@[i] is Some ==> self.var_exhausted@[i] == Some(true)
            }
    }

    /// The two indices agree with the values: a clause is in the global
    /// set exactly when none of its literals holds under the settled
    /// values, and in the set of a variable exactly when it is in the
    /// global set and mentions the variable.
    pub open spec fn index_ok(&self, s: &Solver, open: bool) -> bool {
        &&& forall|k: usize| self.unsat_groups@.contains(k) ==> k < s.num_clauses()
        &&& forall|k: int|
            0 <= k < s.num_clauses() ==> (self.unsat_groups@.contains(k as usize) <==> !clause_true(
                #[trigger] s.clause(k),
                self.masked(s, open),
            ))
        &&& forall|v: int, k: int|
            0 <= v < s.num_vars() && 0 <= k < self.capacity ==> (
            #[trigger] self.variable_unsat_groups.has(v, k) <==> (k < s.num_clauses()
                && self.unsat_groups@.contains(k as usize) && mentions(s.clause(k), v)))
    }

    /// Clause `k` was satisfied by the entry at position `i`: it has a
    /// literal on the variable of that position which holds, and none that
    /// holds on a variable assigned earlier.
    pub open spec fn satisfied_at(&self, s: &Solver, k: int, i: int) -> bool {
        &&& 0 <= k < s.num_clauses()
        &&& exists|t: int|
            0 <= t < s.clause(k).len() && lit_true(#[trigger] s.clause(k)[t], s.vals()) && s.clause(
                k,
            )[t].var_pos == self.assigned@[i]
        &&& forall|t: int|
            0 <= t < s.clause(k).len() && lit_true(#[trigger] s.clause(k)[t], s.vals())
                ==> self.var_assigned_index@[s.clause(k)[t].var_pos as int] >= i
    }

    /// Each settled position lists clauses that it satisfied, and every
    /// clause that is out of the global set is listed at a settled
    /// position.
    pub open spec fn saved_ok(&self, s: &Solver, open: bool) -> bool {
        &&& forall|i: int, j: int|
            0 <= i < self.settled(open) && 0 <= j < self.groups_sat_at_assignment@[i]@.len()
                ==> self.satisfied_at(s, (#[trigger] self.groups_sat_at_assignment@[i]@[j]) as int, i)
        &&& forall|k: int|
            0 <= k < s.num_clauses() ==> (#[trigger] self.listed_below(k, self.settled(open)))
                || self.unsat_groups@.contains(k as usize)
    }

    /// Clause `k` is listed at a position below `bound`.
    pub open spec fn listed_below(&self, k: int, bound: int) -> bool {
        exists|i: int|
            0 <= i < bound && (#[trigger] self.groups_sat_at_assignment@[i])@.contains(k as usize)
    }

    /// The antecedent of the unit entry at position `p` has one literal on
    /// the variable of that position, which holds once the variable has a
    /// value; its other literals are falsified by variables assigned
    /// earlier.
    pub open spec fn unit_at(&self, s: &Solver, p: int) -> bool {
        let cl = s.clause(self.antecedents@[p].antecedent->0 as int);
        let u = self.assigned@[p] as int;
        &&& forall|t: int|
            0 <= t < cl.len() && (#[trigger] cl[t]).var_pos != u ==> lit_false(cl[t], s.vals())
                && self.var_assigned_index@[cl[t].var_pos as int] < p
        &&& forall|t1: int, t2: int|
            0 <= t1 < cl.len() && 0 <= t2 < cl.len() && (#[trigger] cl[t1]).var_pos == u && (
            #[trigger] cl[t2]).var_pos == u ==> t1 == t2
        &&& forall|t: int|
            0 <= t < cl.len() && (#[trigger] cl[t]).var_pos == u && s.vals()[u] is Some ==> lit_true(
                cl[t],
                s.vals(),
            )
        &&& mentions(cl, u)
    }

    /// Every unit entry of the trail has an antecedent that is unit under
    /// the entries before it.
    pub open spec fn units_ok(&self, s: &Solver) -> bool {
        forall|p: int|
            0 <= p < self.assigned@.len() && (#[trigger] self.antecedents@[p]).is_uc ==> self.unit_at(
                s,
                p,
            )
    }

    /// The invariant of the search.
    pub open spec fn inv(&self, s: &Solver, open: bool) -> bool {
        &&& self.shape(s)
        &&& self.trail_ok(s, open)
        &&& self.index_ok(s, open)
        &&& self.saved_ok(s, open)
        &&& self.units_ok(s)
    }

    /// The trail is no longer than the number of variables, and shorter
    /// while a variable is off it.
    pub proof fn lemma_trail_short(&self, s: &Solver, open: bool, v: int)
        requires
            self.shape(s),
            self.trail_ok(s, open),
            0 <= v < s.num_vars(),
            !(self.var_assigned_index@[v] < self.assigned@.len()
                && self.assigned@[self.var_assigned_index@[v] as int] == v),
        ensures
            self.assigned@.len() < s.num_vars(),
    {
        let tr = self.assigned@;
        assert(tr.no_duplicates()) by {
            assert forall|i: int, j: int| 0 <= i < tr.len() && 0 <= j < tr.len() && i != j implies tr[i]
                != tr[j] by {
                assert(self.var_assigned_index@[tr[i] as int] == i);
                assert(self.var_assigned_index@[tr[j] as int] == j);
            }
        }
        if tr.contains(v as usize) {
            let i = choose|i: int| 0 <= i < tr.len() && tr[i] == v as usize;
            assert(self.var_assigned_index@[tr[i] as int] == i);
        }
        crate::counting::lemma_distinct_below_missing(tr, s.num_vars(), v as usize);
    }

    /// The state before the first decision, for a solver none of whose
    /// variables has a value: the trail is empty and every clause is
    /// unsatisfied.
    pub fn begin(s: &Solver) -> (st: Search)
        requires
            s.wf(),
            forall|v: int| 0 <= v < s.num_vars() ==> (#[trigger] s.vals()[v]) is None,
        ensures
            st.inv(s, false),
            st.assigned@.len() == 0,
            st.clauses_learned == 0,
            st.learned_at_restart == 0,
            st.last_trail == 0,
            st.window.entries@.len() == 0,
            st.window.capacity == (if s.num_vars() <= usize::MAX / 5 {
                s.num_vars() * 5 / 2
            } else {
                usize::MAX as nat
            }),
            st.capacity == (if s.num_clauses() <= usize::MAX / 2 - 32 {
                2 * s.num_clauses() + 64
            } else {
                usize::MAX as nat
            }),
            st.unique_clauses@.len() == s.num_clauses(),
            forall|k: int|
                0 <= k < s.num_clauses() ==> {
                    &&& (#[trigger] st.unique_clauses@[k]).index == k
                    &&& sorted_lits(st.unique_clauses@[k].lits@)
                    &&& st.unique_clauses@[k].lits@.to_multiset() == s.clause(k).to_multiset()
                },
            forall|v: int, w: int|
                0 <= v < s.num_vars() && 0 <= w < s.num_vars() ==> !st.conflict_set.has(v, w),
            forall|v: int|
                0 <= v < s.num_vars() ==> #[trigger] st.variable_unsat_groups.list(v)
                    == s.occurrences(v),
    {
        broadcast use group_btree_axioms;

        let n = s.variables.len();
        let m = s.connection_groups.len();
        let capacity = if m <= usize::MAX / 2 - 32 {
            2 * m + 64
        } else {
            usize::MAX
        };
        proof {
            assert forall|v: int| 0 <= v < s.variable_connections@.len() implies (
            #[trigger] s.variable_connections@[v])@.no_duplicates() by {
                assert(s.occurrences(v).no_duplicates());
            }
            assert forall|v: int, j: int|
                0 <= v < s.variable_connections@.len() && 0 <= j
                    < s.variable_connections@[v]@.len() implies (
            #[trigger] s.variable_connections@[v]@[j]) < capacity by {
                assert(s.occurrences(v)[j] < m);
            }
        }
        let variable_unsat_groups = SatLinkedHashSet::new(&s.variable_connections, capacity);
        let mut unsat_groups: BTreeSet<usize> = BTreeSet::new();
        let mut k: usize = 0;
        while k < m
            invariant
                k <= m,
                forall|c: usize| unsat_groups@.contains(c) <==> c < k,
            decreases m - k,
        {
            unsat_groups.insert(k);
            k += 1;
        }
        let mut antecedents: Vec<Antecedent> = Vec::new();
        let mut var_exhausted: Vec<Option<bool>> = Vec::new();
        let mut groups_sat_at_assignment: Vec<Vec<usize>> = Vec::new();
        let mut var_assigned_index: Vec<usize> = Vec::new();
        let mut v: usize = 0;
        while v < n
            invariant
                v <= n,
                antecedents@.len() == v,
                var_exhausted@.len() == v,
                groups_sat_at_assignment@.len() == v,
                var_assigned_index@.len() == v,
                forall|w: int| 0 <= w < v ==> (#[trigger] var_assigned_index@[w]) == 0,
            decreases n - v,
        {
            antecedents.push(Antecedent::new());
            var_exhausted.push(None);
            groups_sat_at_assignment.push(Vec::new());
            var_assigned_index.push(0);
            v += 1;
        }
        let conflict_set = ConflictSet::new(n);
        let mut unique_clauses: Vec<LearnedClause> = Vec::new();
        let mut k: usize = 0;
        while k < m
            invariant
                k <= m,
                m == s.num_clauses(),
                s.wf(),
                unique_clauses@.len() == k,
                forall|c: int|
                    0 <= c < k ==> {
                        &&& (#[trigger] unique_clauses@[c]).index == c
                        &&& sorted_lits(unique_clauses@[c].lits@)
                        &&& unique_clauses@[c].lits@.to_multiset() == s.clause(c).to_multiset()
                    },
            decreases m - k,
        {
            let lits = s.group_literals(k);
            unique_clauses.push(LearnedClause::new(0, lits, k));
            k += 1;
        }
        let span = if n <= usize::MAX / 5 {
            n * 5 / 2
        } else {
            usize::MAX
        };
        let st = Search {
            assigned: Vec::new(),
            antecedents,
            var_exhausted,
            groups_sat_at_assignment,
            var_assigned_index,
            unsat_groups,
            variable_unsat_groups,
            conflict_set,
            unique_clauses,
            window: TrailWindow::new(span),
            clauses_learned: 0,
            learned_at_restart: 0,
            last_trail: 0,
            capacity,
        };
        proof {
            assert(st.shape(s));
            assert(st.masked(s, false) == s.vals());
            assert(st.trail_ok(s, false));
            assert forall|k: int| 0 <= k < s.num_clauses() implies (st.unsat_groups@.contains(
                k as usize,
            ) <==> !clause_true(#[trigger] s.clause(k), st.masked(s, false))) by {
                s.lemma_clause_within(k);
                if clause_true(s.clause(k), s.vals()) {
                    let t = choose|t: int|
                        0 <= t < s.clause(k).len() && lit_true(#[trigger] s.clause(k)[t], s.vals());
                    assert(s.vals()[s.clause(k)[t].var_pos as int] is None);
                }
            }
            assert forall|v: int, k: int| 0 <= v < s.num_vars() && 0 <= k < st.capacity implies (
            #[trigger] st.variable_unsat_groups.has(v, k) <==> (k < s.num_clauses()
                && st.unsat_groups@.contains(k as usize) && mentions(s.clause(k), v))) by {
                st.variable_unsat_groups.lemma_list_facts(v);
                assert(st.variable_unsat_groups.capacity(v) == capacity);
                assert(st.variable_unsat_groups.list(v) == s.occurrences(v));
                if s.occurrences(v).contains(k as usize) {
                    let i = choose|i: int|
                        0 <= i < s.occurrences(v).len() && s.occurrences(v)[i] == k as usize;
                    assert(s.occurrences(v)[i] < s.num_clauses());
                    assert(mentions(s.clause(s.occurrences(v)[i] as int), v));
                }
                if k < s.num_clauses() && mentions(s.clause(k), v) {
                    assert(s.occurrences(v).contains(k as usize));
                }
            }
            assert(st.index_ok(s, false));
            assert(st.saved_ok(s, false));
            assert(st.units_ok(s));
        }
        st
    }

    /// Clause `a` is unit and forces `var`: it has one literal on `var`,
    /// and its other literals are falsified.
    pub open spec fn unit_for(s: &Solver, a: int, var: int) -> bool {
        let cl = s.clause(a);
        &&& forall|t: int|
            0 <= t < cl.len() && (#[trigger] cl[t]).var_pos != var ==> lit_false(cl[t], s.vals())
        &&& forall|t1: int, t2: int|
            0 <= t1 < cl.len() && 0 <= t2 < cl.len() && (#[trigger] cl[t1]).var_pos == var && (
            #[trigger] cl[t2]).var_pos == var ==> t1 == t2
        &&& mentions(cl, var)
    }

    /// Everything but the trail, the records of its positions and the
    /// conflict sets is as in `other`.
    pub open spec fn same_indices(&self, other: &Search) -> bool {
        &&& self.unsat_groups@ == other.unsat_groups@
        &&& self.variable_unsat_groups == other.variable_unsat_groups
        &&& self.unique_clauses == other.unique_clauses
        &&& self.window == other.window
        &&& self.clauses_learned == other.clauses_learned
        &&& self.learned_at_restart == other.learned_at_restart
        &&& self.last_trail == other.last_trail
        &&& self.capacity == other.capacity
    }

    /// Puts the unassigned variable `var` on the trail as an open entry: a
    /// unit entry with its antecedent at the level of the entry below, or a
    /// decision one level up. The first entry is at level 0. The conflict
    /// set of `var` is emptied; that of a unit entry then takes the other
    /// variables of its antecedent, which force its value.
    pub fn push_entry(&mut self, s: &Solver, var: usize, is_uc: bool, antecedent: Option<usize>)
        requires
            old(self).inv(s, false),
            var < s.num_vars(),
            s.vals()[var as int] is None,
            is_uc ==> antecedent is Some && antecedent->0 < s.num_clauses() && Self::unit_for(
                s,
                antecedent->0 as int,
                var as int,
            ),
        ensures
            final(self).inv(s, true),
            final(self).assigned@ == old(self).assigned@.push(var),
            final(self).same_indices(old(self)),
            final(self).antecedents@[old(self).assigned@.len() as int].is_uc == is_uc,
            final(self).antecedents@[old(self).assigned@.len() as int].antecedent == antecedent,
            final(self).antecedents@[old(self).assigned@.len() as int].d == (
            if old(self).assigned@.len() == 0 {
                0usize
            } else if is_uc {
                old(self).antecedents@[old(self).assigned@.len() - 1].d
            } else {
                crate::logic::saturated(
                    (old(self).antecedents@[old(self).assigned@.len() - 1].d + 1) as nat,
                )
            }),
            forall|i: int|
                0 <= i < old(self).assigned@.len() ==> final(self).antecedents@[i] == old(self).antecedents@[i] && final(self).var_exhausted@[i] == old(self).var_exhausted@[i],
            final(self).var_exhausted@[old(self).assigned@.len() as int] is None,
            final(self).var_assigned_index@ == old(self).var_assigned_index@.update(
                var as int,
                old(self).assigned@.len() as usize,
            ),
            final(self).groups_sat_at_assignment@.len() == old(self).groups_sat_at_assignment@.len(),
            final(self).groups_sat_at_assignment@[old(self).assigned@.len() as int]@.len() == 0,
            forall|i: int|
                0 <= i < old(self).groups_sat_at_assignment@.len() && i != old(self).assigned@.len()
                    ==> final(self).groups_sat_at_assignment@[i] == old(self).groups_sat_at_assignment@[i],
            forall|a: int, b: int|
                0 <= a < s.num_vars() && 0 <= b < s.num_vars() ==> (
                #[trigger] final(self).conflict_set.has(a, b) <==> ((a != var && old(self).conflict_set.has(a, b)) || (a == var && is_uc && b != a && mentions(
                    s.clause(antecedent->0 as int),
                    b,
                )))),
    {
        let len = self.assigned.len();
        proof {
            assert(self.masked(s, false)[var as int] is None);
            self.lemma_trail_short(s, false, var as int);
        }
        let d: usize = if len == 0 {
            0
        } else {
            let prev = self.antecedents[len - 1].d;
            if is_uc {
                prev
            } else {
                prev.saturating_add(1)
            }
        };
        self.assigned.push(var);
        self.antecedents[len] = Antecedent { is_uc, antecedent, d };
        self.var_exhausted[len] = None;
        self.groups_sat_at_assignment[len] = Vec::new();
        self.conflict_set.clear(var);
        match antecedent {
            Some(a) => {
                if is_uc {
                    add_others(&mut self.conflict_set, s, a, var);
                }
            },
            None => {},
        }
        self.var_assigned_index[var] = len;
        proof {
            let o = old(self);
            let n = s.num_vars();
            assert(self.masked(s, true) =~= s.vals());
            assert(o.masked(s, false) == s.vals());
            assert forall|i: int| 0 <= i < len implies o.assigned@[i] != var by {
                assert(o.var_assigned_index@[o.assigned@[i] as int] == i);
                assert(o.masked(s, false)[o.assigned@[i] as int] is Some);
            }
            assert forall|v: int| 0 <= v < n && s.vals()[v] is Some implies v != var
                && self.var_assigned_index@[v] == o.var_assigned_index@[v]
                && o.var_assigned_index@[v] < len by {
                assert(o.masked(s, false)[v] is Some);
            }
            assert(self.shape(s));
            assert forall|i: int| 0 <= i < self.assigned@.len() implies (#[trigger] self.assigned@[i])
                < n && self.var_assigned_index@[self.assigned@[i] as int] == i by {
                if i < len {
                    assert(o.assigned@[i] != var);
                }
            }
            assert forall|v: int| 0 <= v < n implies ((#[trigger] self.masked(s, true)[v]) is Some
                <==> (self.var_assigned_index@[v] < self.settled(true)
                && self.assigned@[self.var_assigned_index@[v] as int] == v)) by {
                if v != var {
                    assert(o.masked(s, false)[v] is Some <==> (o.var_assigned_index@[v] < len
                        && o.assigned@[o.var_assigned_index@[v] as int] == v));
                }
            }
            assert forall|i: int| 0 <= i < self.settled(true) implies (
            #[trigger] self.var_exhausted@[i]) is Some by {
                assert(o.var_exhausted@[i] is Some);
            }
            assert forall|i: int|
                0 <= i < self.assigned@.len() && (#[trigger] self.antecedents@[i]).is_uc implies {
                &&& self.antecedents@[i].antecedent is Some
                &&& self.antecedents@[i].antecedent->0 < s.num_clauses()
                &&& self.var_exhausted@[i] is Some ==> self.var_exhausted@[i] == Some(true)
            } by {
                if i < len {
                    assert(o.antecedents@[i].is_uc);
                }
            }
            assert(self.trail_ok(s, true));
            assert(self.index_ok(s, true));
            assert forall|i: int, j: int|
                0 <= i < self.settled(true) && 0 <= j < self.groups_sat_at_assignment@[i]@.len()
                    implies self.satisfied_at(
                s,
                (#[trigger] self.groups_sat_at_assignment@[i]@[j]) as int,
                i,
            ) by {
                let k = o.groups_sat_at_assignment@[i]@[j] as int;
                assert(o.satisfied_at(s, k, i));
                let t0 = choose|t: int|
                    0 <= t < s.clause(k).len() && lit_true(#[trigger] s.clause(k)[t], s.vals())
                        && s.clause(k)[t].var_pos == o.assigned@[i];
                assert(lit_true(s.clause(k)[t0], s.vals()) && s.clause(k)[t0].var_pos
                    == self.assigned@[i]);
                s.lemma_clause_within(k);
                assert forall|t: int|
                    0 <= t < s.clause(k).len() && lit_true(
                        #[trigger] s.clause(k)[t],
                        s.vals(),
                    ) implies self.var_assigned_index@[s.clause(k)[t].var_pos as int] >= i by {
                    assert(s.vals()[s.clause(k)[t].var_pos as int] is Some);
                }
            }
            assert forall|k: int| 0 <= k < s.num_clauses() implies (#[trigger] self.listed_below(
                k,
                self.settled(true),
            )) || self.unsat_groups@.contains(k as usize) by {
                if o.listed_below(k, len as int) {
                    let i = choose|i: int|
                        0 <= i < len && (#[trigger] o.groups_sat_at_assignment@[i])@.contains(
                            k as usize,
                        );
                    assert(self.groups_sat_at_assignment@[i] == o.groups_sat_at_assignment@[i]);
                }
            }
            assert(self.saved_ok(s, true));
            assert forall|p: int|
                0 <= p < self.assigned@.len() && (#[trigger] self.antecedents@[p]).is_uc implies self.unit_at(
                s,
                p,
            ) by {
                let a = self.antecedents@[p].antecedent->0 as int;
                let cl = s.clause(a);
                s.lemma_clause_within(a);
                if p < len {
                    assert(o.antecedents@[p].is_uc);
                    assert(o.unit_at(s, p));
                    assert forall|t: int|
                        0 <= t < cl.len() && (#[trigger] cl[t]).var_pos != self.assigned@[p]
                            implies lit_false(cl[t], s.vals())
                        && self.var_assigned_index@[cl[t].var_pos as int] < p by {
                        assert(s.vals()[cl[t].var_pos as int] is Some);
                    }
                } else {
                    assert forall|t: int|
                        0 <= t < cl.len() && (#[trigger] cl[t]).var_pos != self.assigned@[p]
                            implies lit_false(cl[t], s.vals())
                        && self.var_assigned_index@[cl[t].var_pos as int] < p by {
                        assert(s.vals()[cl[t].var_pos as int] is Some);
                    }
                }
            }
            assert(self.units_ok(s));
        }
    }

    /// The solver `t` has the clauses, names and occurrence lists of `s`,
    /// and its values but for that of variable `pos`.
    pub open spec fn same_but(s: &Solver, t: &Solver, pos: int) -> bool {
        &&& t.connection_groups == s.connection_groups
        &&& t.connections == s.connections
        &&& t.variable_connections == s.variable_connections
        &&& t.backtracks == s.backtracks
        &&& t.connections_checked == s.connections_checked
        &&& t.variables@.len() == s.variables@.len()
        &&& forall|v: int|
            0 <= v < s.variables@.len() ==> (#[trigger] t.variables@[v]).name == s.variables@[v].name
                && t.variables@[v].pos == s.variables@[v].pos && (v != pos ==> t.variables@[v].value
                == s.variables@[v].value)
    }

    /// The value that the open entry at the top of the trail gets next:
    /// for a unit entry the polarity of the literal of its antecedent on
    /// its variable; for a decision without a value the polarity that the
    /// score favours; for a decision with a value the other value.
    pub open spec fn next_value(&self, s: &Solver) -> bool {
        let top = self.assigned@.len() - 1;
        let pos = self.assigned@[top] as int;
        if self.antecedents@[top].is_uc {
            let cl = s.clause(self.antecedents@[top].antecedent->0 as int);
            cl[choose|t: int| 0 <= t < cl.len() && (#[trigger] cl[t]).var_pos == pos].val
        } else if s.vals()[pos] is None {
            s.lcv_score(self.variable_unsat_groups.list(pos), pos) >= 0
        } else {
            !s.vals()[pos]->0
        }
    }

    /// Gives the open entry at the top of the trail its next value (see
    /// `next_value`) and records whether the alternatives are exhausted:
    /// at once for a unit entry, with the second value for a decision.
    pub fn assign_top(&mut self, s: &mut Solver)
        requires
            old(self).inv(old(s), true),
            old(self).var_exhausted@[old(self).assigned@.len() - 1] != Some(true),
        ensures
            final(self).inv(final(s), true),
            Self::same_but(old(s), final(s), old(self).assigned@[old(self).assigned@.len() - 1] as int),
            final(s).vals()[old(self).assigned@[old(self).assigned@.len() - 1] as int] == Some(
                old(self).next_value(old(s)),
            ),
            final(self).assigned == old(self).assigned,
            final(self).antecedents == old(self).antecedents,
            final(self).groups_sat_at_assignment == old(self).groups_sat_at_assignment,
            final(self).var_assigned_index == old(self).var_assigned_index,
            final(self).conflict_set == old(self).conflict_set,
            final(self).same_indices(old(self)),
            final(self).var_exhausted@ == old(self).var_exhausted@.update(
                old(self).assigned@.len() - 1,
                Some(
                    old(self).antecedents@[old(self).assigned@.len() - 1].is_uc || old(self).var_exhausted@[old(self).assigned@.len() - 1] is Some,
                ),
            ),
    {
        let top = self.assigned.len() - 1;
        let pos = self.assigned[top];
        let entry = self.antecedents[top];
        let ghost s0 = *s;
        proof {
            assert(s.variables@[pos as int].pos == pos);
            assert(s.vals()[pos as int] == s.variables@[pos as int].value);
            self.lemma_lists_in_range(s, true, pos as int);
        }
        let val: bool;
        let exh: bool;
        if entry.is_uc {
            let a = match entry.antecedent {
                Some(a) => a,
                None => 0,
            };
            proof {
                assert(self.antecedents@[top as int].is_uc);
                assert(self.unit_at(s, top as int));
            }
            let j = s.literal_on(a, pos);
            val = match j {
                Some(b) => b,
                None => true,
            };
            exh = true;
        } else {
            match self.var_exhausted[top] {
                None => {
                    val = s.get_lcv(&s.variables[pos], &self.variable_unsat_groups);
                    exh = false;
                },
                Some(_) => {
                    val = match s.variables[pos].value {
                        Some(b) => !b,
                        None => true,
                    };
                    exh = true;
                },
            }
        }
        s.variables[pos].value = Some(val);
        self.var_exhausted[top] = Some(exh);
        proof {
            let o = old(self);
            let n = s0.num_vars();
            assert(Self::same_but(&s0, s, pos as int));
            s0.lemma_same_formula(*s);
            assert(self.masked(s, true) =~= o.masked(&s0, true));
            assert(self.shape(s));
            assert(o.trail_ok(&s0, true));
            assert forall|v: int| 0 <= v < n implies ((#[trigger] self.masked(s, true)[v]) is Some
                <==> (self.var_assigned_index@[v] < self.settled(true)
                && self.assigned@[self.var_assigned_index@[v] as int] == v)) by {
                assert(o.masked(&s0, true)[v] is Some <==> (o.var_assigned_index@[v] < o.settled(
                    true,
                ) && o.assigned@[o.var_assigned_index@[v] as int] == v));
            }
            assert forall|i: int| 0 <= i < self.settled(true) implies (
            #[trigger] self.var_exhausted@[i]) is Some by {
                assert(o.var_exhausted@[i] is Some);
            }
            assert forall|i: int|
                0 <= i < self.assigned@.len() && (#[trigger] self.antecedents@[i]).is_uc implies {
                &&& self.antecedents@[i].antecedent is Some
                &&& self.antecedents@[i].antecedent->0 < s.num_clauses()
                &&& self.var_exhausted@[i] is Some ==> self.var_exhausted@[i] == Some(true)
            } by {
                assert(o.antecedents@[i].is_uc);
            }
            assert(self.trail_ok(s, true));
            assert(o.index_ok(&s0, true));
            assert forall|k: int| 0 <= k < s.num_clauses() implies (self.unsat_groups@.contains(
                k as usize,
            ) <==> !clause_true(#[trigger] s.clause(k), self.masked(s, true))) by {
                assert(s.clause(k) == s0.clause(k));
                assert(o.unsat_groups@.contains(k as usize) <==> !clause_true(
                    s0.clause(k),
                    o.masked(&s0, true),
                ));
            }
            assert forall|v: int, k: int| 0 <= v < s.num_vars() && 0 <= k < self.capacity implies (
            #[trigger] self.variable_unsat_groups.has(v, k) <==> (k < s.num_clauses()
                && self.unsat_groups@.contains(k as usize) && mentions(s.clause(k), v))) by {
                assert(o.variable_unsat_groups.has(v, k) <==> (k < s0.num_clauses()
                    && o.unsat_groups@.contains(k as usize) && mentions(s0.clause(k), v)));
                if k < s.num_clauses() {
                    assert(s.clause(k) == s0.clause(k));
                }
            }
            assert(self.index_ok(s, true));
            assert(o.saved_ok(&s0, true));
            assert forall|i: int, j: int|
                0 <= i < self.settled(true) && 0 <= j < self.groups_sat_at_assignment@[i]@.len()
                    implies self.satisfied_at(
                s,
                (#[trigger] self.groups_sat_at_assignment@[i]@[j]) as int,
                i,
            ) by {
                let k = o.groups_sat_at_assignment@[i]@[j] as int;
                assert(o.satisfied_at(&s0, k, i));
                assert(s.clause(k) == s0.clause(k));
                let t0 = choose|t: int|
                    0 <= t < s0.clause(k).len() && lit_true(#[trigger] s0.clause(k)[t], s0.vals())
                        && s0.clause(k)[t].var_pos == o.assigned@[i];
                assert(o.var_assigned_index@[o.assigned@[i] as int] == i);
                assert(o.var_assigned_index@[pos as int] == top);
                assert(lit_true(s.clause(k)[t0], s.vals()) && s.clause(k)[t0].var_pos
                    == self.assigned@[i]);
                s0.lemma_clause_within(k);
                assert forall|t: int|
                    0 <= t < s.clause(k).len() && lit_true(
                        #[trigger] s.clause(k)[t],
                        s.vals(),
                    ) implies self.var_assigned_index@[s.clause(k)[t].var_pos as int] >= i by {
                    if s.clause(k)[t].var_pos != pos {
                        assert(lit_true(s0.clause(k)[t], s0.vals()));
                    }
                }
            }
            assert forall|k: int| 0 <= k < s.num_clauses() implies (#[trigger] self.listed_below(
                k,
                self.settled(true),
            )) || self.unsat_groups@.contains(k as usize) by {
                assert(o.listed_below(k, o.settled(true)) || o.unsat_groups@.contains(k as usize));
            }
            assert(self.saved_ok(s, true));
            assert(o.units_ok(&s0));
            assert forall|p: int|
                0 <= p < self.assigned@.len() && (#[trigger] self.antecedents@[p]).is_uc implies self.unit_at(
                s,
                p,
            ) by {
                let a = self.antecedents@[p].antecedent->0 as int;
                assert(o.antecedents@[p].is_uc);
                assert(o.unit_at(&s0, p));
                assert(s.clause(a) == s0.clause(a));
                let cl = s.clause(a);
                let u = self.assigned@[p] as int;
                assert(o.var_assigned_index@[o.assigned@[p] as int] == p);
                assert(o.var_assigned_index@[pos as int] == top);
                assert forall|t: int|
                    0 <= t < cl.len() && (#[trigger] cl[t]).var_pos != u implies lit_false(
                    cl[t],
                    s.vals(),
                ) && self.var_assigned_index@[cl[t].var_pos as int] < p by {
                    assert(lit_false(cl[t], s0.vals()));
                    assert(o.var_assigned_index@[cl[t].var_pos as int] < p);
                }
                assert forall|t: int|
                    0 <= t < cl.len() && (#[trigger] cl[t]).var_pos == u && s.vals()[u]
                        is Some implies lit_true(cl[t], s.vals()) by {
                    if p < top {
                        assert(u != pos);
                    } else {
                        let t0 = choose|t: int|
                            0 <= t < cl.len() && (#[trigger] cl[t]).var_pos == pos;
                        assert(t0 == t);
                    }
                }
            }
            assert(self.units_ok(s));
        }
    }

    /// The clauses in the set of a variable are clauses of the solver.
    pub proof fn lemma_lists_in_range(&self, s: &Solver, open: bool, v: int)
        requires
            self.shape(s),
            self.index_ok(s, open),
            0 <= v < s.num_vars(),
        ensures
            forall|i: int|
                0 <= i < self.variable_unsat_groups.list(v).len() ==> (
                #[trigger] self.variable_unsat_groups.list(v)[i]) < s.num_clauses(),
    {
        self.variable_unsat_groups.lemma_list_facts(v);
        assert(self.variable_unsat_groups.capacity(v) == self.capacity);
        assert forall|i: int| 0 <= i < self.variable_unsat_groups.list(v).len() implies (
        #[trigger] self.variable_unsat_groups.list(v)[i]) < s.num_clauses() by {
            let k = self.variable_unsat_groups.list(v)[i];
            assert(self.variable_unsat_groups.list(v).contains(k));
            assert(self.variable_unsat_groups.has(v, k as int));
        }
    }

    /// The set of each variable holds the clauses of the global set that
    /// mention the variable.
    pub open spec fn sets_match(&self, s: &Solver) -> bool {
        &&& s.wf()
        &&& self.variable_unsat_groups.wf()
        &&& self.variable_unsat_groups.num_vars() == s.num_vars()
        &&& forall|v: int|
            0 <= v < s.num_vars() ==> #[trigger] self.variable_unsat_groups.capacity(v)
                == self.capacity
        &&& s.num_clauses() <= self.capacity
        &&& forall|v: int, k: int|
            0 <= v < s.num_vars() && 0 <= k < self.capacity ==> (
            #[trigger] self.variable_unsat_groups.has(v, k) <==> (k < s.num_clauses()
                && self.unsat_groups@.contains(k as usize) && mentions(s.clause(k), v)))
    }

    /// The trail, the records of its positions, the conflict sets and
    /// what the restart rule needs are as in `other`.
    pub open spec fn same_trail(&self, other: &Search) -> bool {
        &&& self.assigned == other.assigned
        &&& self.antecedents == other.antecedents
        &&& self.var_exhausted == other.var_exhausted
        &&& self.groups_sat_at_assignment == other.groups_sat_at_assignment
        &&& self.var_assigned_index == other.var_assigned_index
        &&& self.conflict_set == other.conflict_set
        &&& self.unique_clauses == other.unique_clauses
        &&& self.window == other.window
        &&& self.clauses_learned == other.clauses_learned
        &&& self.learned_at_restart == other.learned_at_restart
        &&& self.last_trail == other.last_trail
        &&& self.capacity == other.capacity
    }

    /// Takes clause `g` out of the global set and out of the set of every
    /// variable that it mentions.
    pub fn retire_clause(&mut self, s: &Solver, g: usize)
        requires
            old(self).sets_match(s),
            g < s.num_clauses(),
        ensures
            final(self).sets_match(s),
            final(self).same_trail(old(self)),
            final(self).unsat_groups@ == old(self).unsat_groups@.remove(g),
            forall|v: int|
                0 <= v < s.num_vars() ==> #[trigger] final(self).variable_unsat_groups.list(v)
                    == without(old(self).variable_unsat_groups.list(v), g),
    {
        broadcast use group_btree_axioms;

        self.unsat_groups.remove(&g);
        let group = &s.connection_groups[g];
        let n = group.connections.len();
        let mut j: usize = 0;
        while j < n
            invariant
                j <= n,
                g < s.num_clauses(),
                group == &s.connection_groups@[g as int],
                n == s.clause(g as int).len(),
                s.wf(),
                old(self).sets_match(s),
                self.same_trail(old(self)),
                self.unsat_groups@ == old(self).unsat_groups@.remove(g),
                self.variable_unsat_groups.wf(),
                self.variable_unsat_groups.num_vars() == s.num_vars(),
                forall|v: int|
                    0 <= v < s.num_vars() ==> #[trigger] self.variable_unsat_groups.capacity(v)
                        == self.capacity,
                forall|v: int, k: int|
                    0 <= v < s.num_vars() && 0 <= k < self.capacity && k != g ==> (
                    #[trigger] self.variable_unsat_groups.has(v, k) <==> old(self).variable_unsat_groups.has(v, k)),
                forall|v: int|
                    0 <= v < s.num_vars() && #[trigger] self.variable_unsat_groups.has(v, g as int)
                        ==> mentions(s.clause(g as int), v),
                forall|t: int|
                    0 <= t < j ==> !self.variable_unsat_groups.has(
                        (#[trigger] s.clause(g as int)[t]).var_pos as int,
                        g as int,
                    ),
                forall|v: int|
                    0 <= v < s.num_vars() ==> #[trigger] self.variable_unsat_groups.list(v) == (
                    if self.variable_unsat_groups.has(v, g as int) == old(self).variable_unsat_groups.has(v, g as int) {
                        old(self).variable_unsat_groups.list(v)
                    } else {
                        without(old(self).variable_unsat_groups.list(v), g)
                    }),
            decreases n - j,
        {
            let l = group.connections[j];
            assert(s.connection_groups@[g as int].connections@[j as int] < s.connections@.len());
            let var = s.connections[l].var_pos;
            assert(s.connections@[l as int].var_pos < s.variables@.len());
            assert(s.clause(g as int)[j as int].var_pos == var);
            assert(self.variable_unsat_groups.capacity(var as int) == self.capacity);
            let ghost before = self.variable_unsat_groups;
            if self.variable_unsat_groups.contains(var, g) {
                self.variable_unsat_groups.remove(var, g);
            }
            proof {
                assert forall|v: int| 0 <= v < s.num_vars() implies #[trigger] self.variable_unsat_groups.list(
                    v,
                ) == (if self.variable_unsat_groups.has(v, g as int) == old(self).variable_unsat_groups.has(v, g as int) {
                    old(self).variable_unsat_groups.list(v)
                } else {
                    without(old(self).variable_unsat_groups.list(v), g)
                }) by {
                    assert(before.capacity(v) == self.capacity);
                    assert(before.list(v) == (if before.has(v, g as int) == old(self).variable_unsat_groups.has(v, g as int) {
                        old(self).variable_unsat_groups.list(v)
                    } else {
                        without(old(self).variable_unsat_groups.list(v), g)
                    }));
                    if v == var && before.has(var as int, g as int) {
                        old(self).variable_unsat_groups.lemma_list_facts(v);
                        assert(old(self).variable_unsat_groups.capacity(v) == self.capacity);
                        if !old(self).variable_unsat_groups.has(v, g as int) {
                            before.lemma_list_facts(v);
                            let l0 = old(self).variable_unsat_groups.list(v);
                            assert(!l0.contains(g));
                            assert(before.list(v) == l0);
                            assert(false);
                        }
                        assert(old(self).variable_unsat_groups.list(v).contains(g));
                    }
                }
            }
            proof {
                assert forall|v: int| 0 <= v < s.num_vars() implies #[trigger] self.variable_unsat_groups.capacity(
                    v,
                ) == self.capacity by {
                    assert(before.capacity(v) == self.capacity);
                }
                assert forall|v: int, k: int|
                    0 <= v < s.num_vars() && 0 <= k < self.capacity && k != g implies (
                #[trigger] self.variable_unsat_groups.has(v, k) <==> old(self).variable_unsat_groups.has(v, k)) by {
                    assert(before.capacity(v) == self.capacity);
                    assert(before.has(v, k) <==> old(self).variable_unsat_groups.has(v, k));
                }
                assert forall|v: int|
                    0 <= v < s.num_vars() && #[trigger] self.variable_unsat_groups.has(
                        v,
                        g as int,
                    ) implies mentions(s.clause(g as int), v) by {
                    assert(before.capacity(v) == self.capacity);
                    assert(before.has(v, g as int));
                }
                assert forall|t: int| 0 <= t < j + 1 implies !self.variable_unsat_groups.has(
                    (#[trigger] s.clause(g as int)[t]).var_pos as int,
                    g as int,
                ) by {
                    s.lemma_clause_within(g as int);
                    let w = s.clause(g as int)[t].var_pos as int;
                    assert(before.capacity(w) == self.capacity);
                    if t < j {
                        assert(!before.has(w, g as int));
                    }
                }
            }
            j += 1;
        }
        proof {
            assert forall|v: int| 0 <= v < s.num_vars() implies #[trigger] self.variable_unsat_groups.list(
                v,
            ) == without(old(self).variable_unsat_groups.list(v), g) by {
                old(self).variable_unsat_groups.lemma_list_facts(v);
                assert(old(self).variable_unsat_groups.capacity(v) == self.capacity);
                if self.variable_unsat_groups.has(v, g as int) {
                    let t = choose|t: int|
                        0 <= t < s.clause(g as int).len() && (#[trigger] s.clause(
                            g as int,
                        )[t]).var_pos == v;
                    assert(false);
                }
                if !old(self).variable_unsat_groups.has(v, g as int) {
                    assert(!old(self).variable_unsat_groups.list(v).contains(g));
                }
            }
            assert forall|v: int, k: int| 0 <= v < s.num_vars() && 0 <= k < self.capacity implies (
            #[trigger] self.variable_unsat_groups.has(v, k) <==> (k < s.num_clauses()
                && self.unsat_groups@.contains(k as usize) && mentions(s.clause(k), v))) by {
                if k == g {
                    if self.variable_unsat_groups.has(v, g as int) {
                        let t = choose|t: int|
                            0 <= t < s.clause(g as int).len() && (#[trigger] s.clause(
                                g as int,
                            )[t]).var_pos == v;
                        assert(false);
                    }
                } else {
                    assert(old(self).variable_unsat_groups.has(v, k) <==> (k < s.num_clauses()
                        && old(self).unsat_groups@.contains(k as usize) && mentions(
                        s.clause(k),
                        v,
                    )));
                }
            }
        }
    }

    /// Puts clause `g` into the global set and into the set of every
    /// variable that it mentions.
    pub fn restore_clause(&mut self, s: &Solver, g: usize)
        requires
            old(self).sets_match(s),
            g < s.num_clauses(),
        ensures
            final(self).sets_match(s),
            final(self).same_trail(old(self)),
            final(self).unsat_groups@ == old(self).unsat_groups@.insert(g),
            forall|v: int|
                0 <= v < s.num_vars() ==> #[trigger] final(self).variable_unsat_groups.list(v)
                    == s.with_clause(old(self).variable_unsat_groups.list(v), g, v),
    {
        broadcast use group_btree_axioms;

        self.unsat_groups.insert(g);
        let group = &s.connection_groups[g];
        let n = group.connections.len();
        let mut j: usize = 0;
        while j < n
            invariant
                j <= n,
                g < s.num_clauses(),
                group == &s.connection_groups@[g as int],
                n == s.clause(g as int).len(),
                s.wf(),
                old(self).sets_match(s),
                self.same_trail(old(self)),
                self.unsat_groups@ == old(self).unsat_groups@.insert(g),
                self.variable_unsat_groups.wf(),
                self.variable_unsat_groups.num_vars() == s.num_vars(),
                forall|v: int|
                    0 <= v < s.num_vars() ==> #[trigger] self.variable_unsat_groups.capacity(v)
                        == self.capacity,
                forall|v: int, k: int|
                    0 <= v < s.num_vars() && 0 <= k < self.capacity && k != g ==> (
                    #[trigger] self.variable_unsat_groups.has(v, k) <==> old(self).variable_unsat_groups.has(v, k)),
                forall|v: int|
                    0 <= v < s.num_vars() && #[trigger] self.variable_unsat_groups.has(v, g as int)
                        ==> mentions(s.clause(g as int), v),
                forall|t: int|
                    0 <= t < j ==> self.variable_unsat_groups.has(
                        (#[trigger] s.clause(g as int)[t]).var_pos as int,
                        g as int,
                    ),
                forall|v: int|
                    0 <= v < s.num_vars() ==> #[trigger] self.variable_unsat_groups.list(v) == (
                    if self.variable_unsat_groups.has(v, g as int) == old(self).variable_unsat_groups.has(v, g as int) {
                        old(self).variable_unsat_groups.list(v)
                    } else {
                        seq![g] + old(self).variable_unsat_groups.list(v)
                    }),
            decreases n - j,
        {
            let l = group.connections[j];
            assert(s.connection_groups@[g as int].connections@[j as int] < s.connections@.len());
            let var = s.connections[l].var_pos;
            assert(s.connections@[l as int].var_pos < s.variables@.len());
            assert(s.clause(g as int)[j as int].var_pos == var);
            assert(self.variable_unsat_groups.capacity(var as int) == self.capacity);
            let ghost before = self.variable_unsat_groups;
            if !self.variable_unsat_groups.contains(var, g) {
                self.variable_unsat_groups.insert(var, g);
            }
            proof {
                assert forall|v: int| 0 <= v < s.num_vars() implies #[trigger] self.variable_unsat_groups.list(
                    v,
                ) == (if self.variable_unsat_groups.has(v, g as int) == old(self).variable_unsat_groups.has(v, g as int) {
                    old(self).variable_unsat_groups.list(v)
                } else {
                    seq![g] + old(self).variable_unsat_groups.list(v)
                }) by {
                    assert(before.capacity(v) == self.capacity);
                    assert(before.list(v) == (if before.has(v, g as int) == old(self).variable_unsat_groups.has(v, g as int) {
                        old(self).variable_unsat_groups.list(v)
                    } else {
                        seq![g] + old(self).variable_unsat_groups.list(v)
                    }));
                    if v == var && !before.has(var as int, g as int) {
                        if old(self).variable_unsat_groups.has(v, g as int) {
                            before.lemma_list_facts(v);
                            let l1 = before.list(v);
                            assert(l1[0] == g);
                            assert(l1.contains(g));
                            assert(false);
                        }
                    }
                }
            }
            proof {
                assert forall|v: int| 0 <= v < s.num_vars() implies #[trigger] self.variable_unsat_groups.capacity(
                    v,
                ) == self.capacity by {
                    assert(before.capacity(v) == self.capacity);
                }
                assert forall|v: int, k: int|
                    0 <= v < s.num_vars() && 0 <= k < self.capacity && k != g implies (
                #[trigger] self.variable_unsat_groups.has(v, k) <==> old(self).variable_unsat_groups.has(v, k)) by {
                    assert(before.capacity(v) == self.capacity);
                    assert(before.has(v, k) <==> old(self).variable_unsat_groups.has(v, k));
                }
                assert forall|v: int|
                    0 <= v < s.num_vars() && #[trigger] self.variable_unsat_groups.has(
                        v,
                        g as int,
                    ) implies mentions(s.clause(g as int), v) by {
                    assert(before.capacity(v) == self.capacity);
                    if v != var {
                        assert(before.has(v, g as int));
                    }
                }
                assert forall|t: int| 0 <= t < j + 1 implies self.variable_unsat_groups.has(
                    (#[trigger] s.clause(g as int)[t]).var_pos as int,
                    g as int,
                ) by {
                    s.lemma_clause_within(g as int);
                    let w = s.clause(g as int)[t].var_pos as int;
                    assert(before.capacity(w) == self.capacity);
                    if t < j {
                        assert(before.has(w, g as int));
                    }
                }
            }
            j += 1;
        }
        proof {
            assert forall|v: int| 0 <= v < s.num_vars() implies #[trigger] self.variable_unsat_groups.list(
                v,
            ) == s.with_clause(old(self).variable_unsat_groups.list(v), g, v) by {
                old(self).variable_unsat_groups.lemma_list_facts(v);
                assert(old(self).variable_unsat_groups.capacity(v) == self.capacity);
                let l0 = old(self).variable_unsat_groups.list(v);
                assert(l0.contains(g) <==> old(self).variable_unsat_groups.has(v, g as int));
                if mentions(s.clause(g as int), v) {
                    let t = choose|t: int|
                        0 <= t < s.clause(g as int).len() && (#[trigger] s.clause(
                            g as int,
                        )[t]).var_pos == v;
                    assert(self.variable_unsat_groups.has(
                        s.clause(g as int)[t].var_pos as int,
                        g as int,
                    ));
                } else {
                    assert(!self.variable_unsat_groups.has(v, g as int));
                    assert(!old(self).variable_unsat_groups.has(v, g as int));
                }
            }
            assert forall|v: int, k: int| 0 <= v < s.num_vars() && 0 <= k < self.capacity implies (
            #[trigger] self.variable_unsat_groups.has(v, k) <==> (k < s.num_clauses()
                && self.unsat_groups@.contains(k as usize) && mentions(s.clause(k), v))) by {
                if k == g {
                    if mentions(s.clause(g as int), v) {
                        let t = choose|t: int|
                            0 <= t < s.clause(g as int).len() && (#[trigger] s.clause(
                                g as int,
                            )[t]).var_pos == v;
                        assert(self.variable_unsat_groups.has(
                            s.clause(g as int)[t].var_pos as int,
                            g as int,
                        ));
                    }
                } else {
                    assert(old(self).variable_unsat_groups.has(v, k) <==> (k < s.num_clauses()
                        && old(self).unsat_groups@.contains(k as usize) && mentions(
                        s.clause(k),
                        v,
                    )));
                }
            }
        }
    }

    /// Settles the open entry at the top of the trail, which has a value:
    /// the clauses `groups_sat` that its value newly satisfies leave the
    /// global set and the sets of their variables, and are listed at its
    /// position.
    pub fn settle(&mut self, s: &Solver, groups_sat: Vec<usize>)
        requires
            old(self).inv(s, true),
            s.vals()[old(self).assigned@[old(self).assigned@.len() - 1] as int] is Some,
            groups_sat@ == s.newly_satisfied(
                old(self).variable_unsat_groups.list(
                    old(self).assigned@[old(self).assigned@.len() - 1] as int,
                ),
                old(self).unsat_groups@,
            ),
        ensures
            final(self).inv(s, false),
            final(self).assigned == old(self).assigned,
            final(self).antecedents == old(self).antecedents,
            final(self).var_exhausted == old(self).var_exhausted,
            final(self).var_assigned_index == old(self).var_assigned_index,
            final(self).conflict_set == old(self).conflict_set,
            final(self).unique_clauses == old(self).unique_clauses,
            final(self).window == old(self).window,
            final(self).clauses_learned == old(self).clauses_learned,
            final(self).learned_at_restart == old(self).learned_at_restart,
            final(self).last_trail == old(self).last_trail,
            final(self).capacity == old(self).capacity,
            forall|k: usize|
                (#[trigger] final(self).unsat_groups@.contains(k)) <==> (old(self).unsat_groups@.contains(k) && !groups_sat@.contains(k)),
            final(self).groups_sat_at_assignment@ == old(self).groups_sat_at_assignment@.update(
                old(self).assigned@.len() - 1,
                groups_sat,
            ),
            forall|v: int|
                0 <= v < s.num_vars() ==> #[trigger] final(self).variable_unsat_groups.list(v)
                    == without_all(old(self).variable_unsat_groups.list(v), groups_sat@),
    {
        let top = self.assigned.len() - 1;
        let ghost pos = self.assigned@[top as int] as int;
        let n = groups_sat.len();
        proof {
            s.lemma_newly_satisfied(self.variable_unsat_groups.list(pos), self.unsat_groups@);
            self.lemma_lists_in_range(s, true, pos);
            assert(self.sets_match(s));
            assert forall|j: int| 0 <= j < n implies (#[trigger] groups_sat@[j]) < s.num_clauses() by {
                let k = groups_sat@[j];
                assert(groups_sat@.contains(k));
                let l = self.variable_unsat_groups.list(pos);
                assert(l.contains(k));
                let i = choose|i: int| 0 <= i < l.len() && l[i] == k;
                assert(l[i] < s.num_clauses());
            }
        }
        let mut i: usize = 0;
        proof {
            assert(groups_sat@.subrange(0, 0) =~= Seq::<usize>::empty());
        }
        while i < n
            invariant
                i <= n,
                n == groups_sat@.len(),
                self.sets_match(s),
                self.same_trail(old(self)),
                forall|j: int| 0 <= j < n ==> (#[trigger] groups_sat@[j]) < s.num_clauses(),
                forall|k: usize|
                    (#[trigger] self.unsat_groups@.contains(k)) <==> (old(self).unsat_groups@.contains(k) && !groups_sat@.subrange(0, i as int).contains(k)),
                forall|v: int|
                    0 <= v < s.num_vars() ==> #[trigger] self.variable_unsat_groups.list(v)
                        == without_all(
                        old(self).variable_unsat_groups.list(v),
                        groups_sat@.subrange(0, i as int),
                    ),
            decreases n - i,
        {
            let g = groups_sat[i];
            let ghost before = self.unsat_groups@;
            let ghost lists_before = self.variable_unsat_groups;
            self.retire_clause(s, g);
            proof {
                assert(groups_sat@.subrange(0, i + 1).drop_last() =~= groups_sat@.subrange(
                    0,
                    i as int,
                ));
                assert(groups_sat@.subrange(0, i + 1).last() == g);
                assert forall|v: int| 0 <= v < s.num_vars() implies #[trigger] self.variable_unsat_groups.list(
                    v,
                ) == without_all(
                    old(self).variable_unsat_groups.list(v),
                    groups_sat@.subrange(0, i + 1),
                ) by {
                    assert(lists_before.list(v) == without_all(
                        old(self).variable_unsat_groups.list(v),
                        groups_sat@.subrange(0, i as int),
                    ));
                }
            }
            proof {
                let a = groups_sat@.subrange(0, i as int);
                let b = groups_sat@.subrange(0, i + 1);
                assert forall|k: usize|
                    (#[trigger] self.unsat_groups@.contains(k)) <==> (old(self).unsat_groups@.contains(k) && !b.contains(k)) by {
                    assert(before.contains(k) <==> (old(self).unsat_groups@.contains(k)
                        && !a.contains(k)));
                    assert(b[i as int] == g);
                    if a.contains(k) {
                        let j = choose|j: int| 0 <= j < a.len() && a[j] == k;
                        assert(b[j] == k);
                    }
                    if b.contains(k) && k != g {
                        let j = choose|j: int| 0 <= j < b.len() && b[j] == k;
                        assert(a[j] == k);
                    }
                }
            }
            i += 1;
        }
        proof {
            assert(groups_sat@.subrange(0, n as int) =~= groups_sat@);
        }
        let ghost mid = *self;
        let ghost taken = groups_sat@;
        self.groups_sat_at_assignment[top] = groups_sat;
        proof {
            Self::lemma_settled(old(self), self, s, taken);
            assert forall|v: int| 0 <= v < s.num_vars() implies #[trigger] self.variable_unsat_groups.list(
                v,
            ) == without_all(old(self).variable_unsat_groups.list(v), taken) by {
                assert(mid.variable_unsat_groups.list(v) == without_all(
                    old(self).variable_unsat_groups.list(v),
                    taken.subrange(0, n as int),
                ));
            }
        }
    }

    /// What `settle` leaves satisfies the invariant.
    pub proof fn lemma_settled(o: &Search, r: &Search, s: &Solver, g: Seq<usize>)
        requires
            o.inv(s, true),
            s.vals()[o.assigned@[o.assigned@.len() - 1] as int] is Some,
            g == s.newly_satisfied(
                o.variable_unsat_groups.list(o.assigned@[o.assigned@.len() - 1] as int),
                o.unsat_groups@,
            ),
            r.sets_match(s),
            r.assigned == o.assigned,
            r.antecedents == o.antecedents,
            r.var_exhausted == o.var_exhausted,
            r.var_assigned_index == o.var_assigned_index,
            r.conflict_set == o.conflict_set,
            r.window == o.window,
            r.capacity == o.capacity,
            r.groups_sat_at_assignment@.len() == o.groups_sat_at_assignment@.len(),
            forall|i: int|
                0 <= i < o.assigned@.len() - 1 ==> #[trigger] r.groups_sat_at_assignment@[i]
                    == o.groups_sat_at_assignment@[i],
            r.groups_sat_at_assignment@[o.assigned@.len() - 1]@ == g,
            forall|k: usize|
                (#[trigger] r.unsat_groups@.contains(k)) <==> (o.unsat_groups@.contains(k)
                    && !g.contains(k)),
        ensures
            r.inv(s, false),
    {
        let top = o.assigned@.len() - 1;
        let pos = o.assigned@[top] as int;
        let n = s.num_vars();
        let mv = o.masked(s, true);
        s.lemma_newly_satisfied(o.variable_unsat_groups.list(pos), o.unsat_groups@);
        o.variable_unsat_groups.lemma_list_facts(pos);
        assert(o.variable_unsat_groups.capacity(pos) == o.capacity);
        assert(o.var_assigned_index@[o.assigned@[top] as int] == top);
        assert(r.masked(s, false) == s.vals());
        // a literal that holds under the settled values holds
        assert forall|k: int, t: int|
            0 <= k < s.num_clauses() && 0 <= t < s.clause(k).len() implies (lit_true(
            #[trigger] s.clause(k)[t],
            mv,
        ) <==> (lit_true(s.clause(k)[t], s.vals()) && s.clause(k)[t].var_pos != pos)) by {
            s.lemma_clause_within(k);
        }
        // the clauses of g hold by the variable at the top alone
        assert forall|k: usize| g.contains(k) implies k < s.num_clauses() && o.unsat_groups@.contains(
            k,
        ) && clause_true(s.clause(k as int), s.vals()) && !clause_true(s.clause(k as int), mv) by {
            let l = o.variable_unsat_groups.list(pos);
            assert(g.contains(k));
            assert(l.contains(k));
            let i = choose|i: int| 0 <= i < l.len() && l[i] == k;
            assert(l[i] < o.capacity);
            assert(o.variable_unsat_groups.has(pos, k as int));
            assert(o.unsat_groups@.contains(k) <==> !clause_true(s.clause(k as int), mv));
        }
        assert(r.shape(s));
        assert forall|v: int| 0 <= v < n implies ((#[trigger] r.masked(s, false)[v]) is Some <==> (
        r.var_assigned_index@[v] < r.settled(false) && r.assigned@[r.var_assigned_index@[v] as int]
            == v)) by {
            if v != pos {
                assert(mv[v] == s.vals()[v]);
                assert(mv[v] is Some <==> (o.var_assigned_index@[v] < top
                    && o.assigned@[o.var_assigned_index@[v] as int] == v));
            }
        }
        assert forall|i: int| 0 <= i < r.settled(false) implies (#[trigger] r.var_exhausted@[i])
            is Some by {
            if i < top {
                assert(o.var_exhausted@[i] is Some);
            }
        }
        assert(r.trail_ok(s, false));
        assert forall|k: int| 0 <= k < s.num_clauses() implies (r.unsat_groups@.contains(k as usize)
            <==> !clause_true(#[trigger] s.clause(k), r.masked(s, false))) by {
            let ku = k as usize;
            assert(o.unsat_groups@.contains(ku) <==> !clause_true(s.clause(k), mv));
            assert(r.unsat_groups@.contains(ku) <==> (o.unsat_groups@.contains(ku) && !g.contains(
                ku,
            )));
            if clause_true(s.clause(k), mv) {
                let t = choose|t: int|
                    0 <= t < s.clause(k).len() && lit_true(#[trigger] s.clause(k)[t], mv);
                assert(lit_true(s.clause(k)[t], s.vals()));
                assert(clause_true(s.clause(k), s.vals()));
            }
            if g.contains(ku) {
                assert(clause_true(s.clause(ku as int), s.vals()));
            }
            if o.unsat_groups@.contains(ku) && clause_true(s.clause(k), s.vals()) {
                let t = choose|t: int|
                    0 <= t < s.clause(k).len() && lit_true(#[trigger] s.clause(k)[t], s.vals());
                if s.clause(k)[t].var_pos != pos {
                    assert(lit_true(s.clause(k)[t], mv));
                    assert(clause_true(s.clause(k), mv));
                    assert(false);
                }
                assert(mentions(s.clause(k), pos));
                assert(k < o.capacity);
                assert(o.variable_unsat_groups.has(pos, k));
                assert(o.variable_unsat_groups.list(pos).contains(ku));
                assert(s.newly_satisfied(
                    o.variable_unsat_groups.list(pos),
                    o.unsat_groups@,
                ).contains(ku));
                assert(g.contains(ku));
            }
        }
        assert forall|v: int, k: int| 0 <= v < s.num_vars() && 0 <= k < r.capacity implies (
        #[trigger] r.variable_unsat_groups.has(v, k) <==> (k < s.num_clauses()
            && r.unsat_groups@.contains(k as usize) && mentions(s.clause(k), v))) by {}
        assert forall|k: usize| r.unsat_groups@.contains(k) implies k < s.num_clauses() by {
            assert(o.unsat_groups@.contains(k));
        }
        assert(r.index_ok(s, false));
        assert forall|i: int, j: int|
            0 <= i < r.settled(false) && 0 <= j < r.groups_sat_at_assignment@[i]@.len()
                implies r.satisfied_at(s, (#[trigger] r.groups_sat_at_assignment@[i]@[j]) as int, i) by {
            if i < top {
                let k = o.groups_sat_at_assignment@[i]@[j] as int;
                assert(o.satisfied_at(s, k, i));
            } else {
                let k = g[j];
                assert(g.contains(k));
                let t0 = choose|t: int|
                    0 <= t < s.clause(k as int).len() && lit_true(
                        #[trigger] s.clause(k as int)[t],
                        s.vals(),
                    );
                if s.clause(k as int)[t0].var_pos != pos {
                    assert(lit_true(s.clause(k as int)[t0], mv));
                }
                assert forall|t: int|
                    0 <= t < s.clause(k as int).len() && lit_true(
                        #[trigger] s.clause(k as int)[t],
                        s.vals(),
                    ) implies r.var_assigned_index@[s.clause(k as int)[t].var_pos as int] >= i by {
                    if s.clause(k as int)[t].var_pos != pos {
                        assert(lit_true(s.clause(k as int)[t], mv));
                    }
                }
            }
        }
        assert forall|k: int| 0 <= k < s.num_clauses() implies (#[trigger] r.listed_below(
            k,
            r.settled(false),
        )) || r.unsat_groups@.contains(k as usize) by {
            assert(o.settled(true) == top);
            assert(o.listed_below(k, o.settled(true)) || o.unsat_groups@.contains(k as usize));
            if o.listed_below(k, top) {
                let i = choose|i: int|
                    0 <= i < top && (#[trigger] o.groups_sat_at_assignment@[i])@.contains(
                        k as usize,
                    );
                assert(r.groups_sat_at_assignment@[i] == o.groups_sat_at_assignment@[i]);
            } else if g.contains(k as usize) {
                assert(r.groups_sat_at_assignment@[top]@.contains(k as usize));
            }
        }
        assert(r.saved_ok(s, false));
        assert forall|p: int|
            0 <= p < r.assigned@.len() && (#[trigger] r.antecedents@[p]).is_uc implies r.unit_at(
            s,
            p,
        ) by {
            assert(o.antecedents@[p].is_uc);
            assert(o.unit_at(s, p));
        }
        assert(r.units_ok(s));
    }

    /// Opens the settled entry at the top of the trail again: the clauses
    /// listed at its position go back into the global set and into the
    /// sets of their variables, and its list is emptied.
    pub fn unsettle(&mut self, s: &Solver)
        requires
            old(self).inv(s, false),
            old(self).assigned@.len() > 0,
        ensures
            final(self).inv(s, true),
            final(self).assigned == old(self).assigned,
            final(self).antecedents == old(self).antecedents,
            final(self).var_exhausted == old(self).var_exhausted,
            final(self).var_assigned_index == old(self).var_assigned_index,
            final(self).conflict_set == old(self).conflict_set,
            final(self).unique_clauses == old(self).unique_clauses,
            final(self).window == old(self).window,
            final(self).clauses_learned == old(self).clauses_learned,
            final(self).learned_at_restart == old(self).learned_at_restart,
            final(self).last_trail == old(self).last_trail,
            final(self).capacity == old(self).capacity,
            forall|k: usize|
                (#[trigger] final(self).unsat_groups@.contains(k)) <==> (old(self).unsat_groups@.contains(k) || old(self).groups_sat_at_assignment@[old(self).assigned@.len() - 1]@.contains(k)),
            forall|v: int|
                0 <= v < s.num_vars() ==> #[trigger] final(self).variable_unsat_groups.list(v)
                    == s.with_all(
                    old(self).variable_unsat_groups.list(v),
                    old(self).groups_sat_at_assignment@[old(self).assigned@.len() - 1]@,
                    v,
                ),
            final(self).groups_sat_at_assignment@.len() == old(self).groups_sat_at_assignment@.len(),
            final(self).groups_sat_at_assignment@[old(self).assigned@.len() - 1]@.len() == 0,
            forall|i: int|
                0 <= i < old(self).groups_sat_at_assignment@.len() && i != old(self).assigned@.len()
                    - 1 ==> final(self).groups_sat_at_assignment@[i] == old(self).groups_sat_at_assignment@[i],
    {
        let top = self.assigned.len() - 1;
        proof {
            self.lemma_trail_bound(s, false);
        }
        let n = self.groups_sat_at_assignment[top].len();
        let ghost listed = self.groups_sat_at_assignment@[top as int]@;
        proof {
            assert(self.sets_match(s));
            assert forall|j: int| 0 <= j < n implies (#[trigger] listed[j]) < s.num_clauses() by {
                assert(self.satisfied_at(s, self.groups_sat_at_assignment@[top as int]@[j] as int, top as int));
            }
        }
        let mut i: usize = 0;
        proof {
            assert(listed.subrange(0, 0) =~= Seq::<usize>::empty());
        }
        while i < n
            invariant
                i <= n,
                top < self.groups_sat_at_assignment@.len(),
                n == listed.len(),
                listed == old(self).groups_sat_at_assignment@[top as int]@,
                self.sets_match(s),
                self.same_trail(old(self)),
                forall|j: int| 0 <= j < n ==> (#[trigger] listed[j]) < s.num_clauses(),
                forall|k: usize|
                    (#[trigger] self.unsat_groups@.contains(k)) <==> (old(self).unsat_groups@.contains(k) || listed.subrange(0, i as int).contains(k)),
                forall|v: int|
                    0 <= v < s.num_vars() ==> #[trigger] self.variable_unsat_groups.list(v)
                        == s.with_all(
                        old(self).variable_unsat_groups.list(v),
                        listed.subrange(0, i as int),
                        v,
                    ),
            decreases n - i,
        {
            let g = self.groups_sat_at_assignment[top][i];
            let ghost before = self.unsat_groups@;
            let ghost lists_before = self.variable_unsat_groups;
            self.restore_clause(s, g);
            proof {
                assert(listed.subrange(0, i + 1).drop_last() =~= listed.subrange(0, i as int));
                assert(listed.subrange(0, i + 1).last() == g);
                assert forall|v: int| 0 <= v < s.num_vars() implies #[trigger] self.variable_unsat_groups.list(
                    v,
                ) == s.with_all(
                    old(self).variable_unsat_groups.list(v),
                    listed.subrange(0, i + 1),
                    v,
                ) by {
                    assert(lists_before.list(v) == s.with_all(
                        old(self).variable_unsat_groups.list(v),
                        listed.subrange(0, i as int),
                        v,
                    ));
                }
            }
            proof {
                let a = listed.subrange(0, i as int);
                let b = listed.subrange(0, i + 1);
                assert forall|k: usize|
                    (#[trigger] self.unsat_groups@.contains(k)) <==> (old(self).unsat_groups@.contains(k) || b.contains(k)) by {
                    assert(before.contains(k) <==> (old(self).unsat_groups@.contains(k)
                        || a.contains(k)));
                    assert(b[i as int] == g);
                    if a.contains(k) {
                        let j = choose|j: int| 0 <= j < a.len() && a[j] == k;
                        assert(b[j] == k);
                    }
                    if b.contains(k) && k != g {
                        let j = choose|j: int| 0 <= j < b.len() && b[j] == k;
                        assert(a[j] == k);
                    }
                }
            }
            i += 1;
        }
        proof {
            assert(listed.subrange(0, n as int) =~= listed);
        }
        let ghost mid = *self;
        self.groups_sat_at_assignment[top] = Vec::new();
        proof {
            Self::lemma_unsettled(old(self), self, s);
            assert forall|v: int| 0 <= v < s.num_vars() implies #[trigger] self.variable_unsat_groups.list(
                v,
            ) == s.with_all(old(self).variable_unsat_groups.list(v), listed, v) by {
                assert(mid.variable_unsat_groups.list(v) == s.with_all(
                    old(self).variable_unsat_groups.list(v),
                    listed.subrange(0, n as int),
                    v,
                ));
            }
        }
    }

    /// The trail is no longer than the number of variables.
    pub proof fn lemma_trail_bound(&self, s: &Solver, open: bool)
        requires
            self.shape(s),
            self.trail_ok(s, open),
        ensures
            self.assigned@.len() <= s.num_vars(),
    {
        let tr = self.assigned@;
        assert(tr.no_duplicates()) by {
            assert forall|i: int, j: int| 0 <= i < tr.len() && 0 <= j < tr.len() && i != j implies tr[i]
                != tr[j] by {
                assert(self.var_assigned_index@[tr[i] as int] == i);
                assert(self.var_assigned_index@[tr[j] as int] == j);
            }
        }
        crate::counting::lemma_distinct_below(tr, s.num_vars());
    }

    /// What `unsettle` leaves satisfies the invariant.
    pub proof fn lemma_unsettled(o: &Search, r: &Search, s: &Solver)
        requires
            o.inv(s, false),
            o.assigned@.len() > 0,
            r.sets_match(s),
            r.assigned == o.assigned,
            r.antecedents == o.antecedents,
            r.var_exhausted == o.var_exhausted,
            r.var_assigned_index == o.var_assigned_index,
            r.conflict_set == o.conflict_set,
            r.window == o.window,
            r.capacity == o.capacity,
            r.groups_sat_at_assignment@.len() == o.groups_sat_at_assignment@.len(),
            forall|i: int|
                0 <= i < o.assigned@.len() - 1 ==> #[trigger] r.groups_sat_at_assignment@[i]
                    == o.groups_sat_at_assignment@[i],
            forall|k: usize|
                (#[trigger] r.unsat_groups@.contains(k)) <==> (o.unsat_groups@.contains(k)
                    || o.groups_sat_at_assignment@[o.assigned@.len() - 1]@.contains(k)),
        ensures
            r.inv(s, true),
    {
        let top = o.assigned@.len() - 1;
        let pos = o.assigned@[top] as int;
        let n = s.num_vars();
        let mv = r.masked(s, true);
        let listed = o.groups_sat_at_assignment@[top]@;
        o.lemma_trail_bound(s, false);
        assert(o.var_assigned_index@[o.assigned@[top] as int] == top);
        assert(o.masked(s, false) == s.vals());
        assert(o.masked(s, false)[pos] is Some);
        assert forall|k: int, t: int|
            0 <= k < s.num_clauses() && 0 <= t < s.clause(k).len() implies (lit_true(
            #[trigger] s.clause(k)[t],
            mv,
        ) <==> (lit_true(s.clause(k)[t], s.vals()) && s.clause(k)[t].var_pos != pos)) by {
            s.lemma_clause_within(k);
        }
        assert forall|k: usize| listed.contains(k) implies k < s.num_clauses() && !clause_true(
            s.clause(k as int),
            mv,
        ) by {
            let j = choose|j: int| 0 <= j < listed.len() && listed[j] == k;
            assert(o.satisfied_at(s, o.groups_sat_at_assignment@[top]@[j] as int, top));
            s.lemma_clause_within(k as int);
            if clause_true(s.clause(k as int), mv) {
                let t = choose|t: int|
                    0 <= t < s.clause(k as int).len() && lit_true(
                        #[trigger] s.clause(k as int)[t],
                        mv,
                    );
                let w = s.clause(k as int)[t].var_pos as int;
                assert(lit_true(s.clause(k as int)[t], s.vals()));
                assert(o.masked(s, false)[w] is Some);
                assert(o.var_assigned_index@[w] >= top);
                assert(false);
            }
        }
        assert(r.shape(s));
        assert forall|v: int| 0 <= v < n implies ((#[trigger] r.masked(s, true)[v]) is Some <==> (
        r.var_assigned_index@[v] < r.settled(true) && r.assigned@[r.var_assigned_index@[v] as int]
            == v)) by {
            assert(o.masked(s, false)[v] is Some <==> (o.var_assigned_index@[v] < o.settled(false)
                && o.assigned@[o.var_assigned_index@[v] as int] == v));
        }
        assert(o.var_exhausted@[top] is Some);
        assert forall|i: int| 0 <= i < r.settled(true) implies (#[trigger] r.var_exhausted@[i])
            is Some by {
            assert(o.var_exhausted@[i] is Some);
        }
        assert forall|i: int|
            0 <= i < r.assigned@.len() && (#[trigger] r.antecedents@[i]).is_uc implies {
            &&& r.antecedents@[i].antecedent is Some
            &&& r.antecedents@[i].antecedent->0 < s.num_clauses()
            &&& r.var_exhausted@[i] is Some ==> r.var_exhausted@[i] == Some(true)
        } by {
            assert(o.antecedents@[i].is_uc);
        }
        assert(r.trail_ok(s, true));
        assert forall|k: int| 0 <= k < s.num_clauses() implies (r.unsat_groups@.contains(k as usize)
            <==> !clause_true(#[trigger] s.clause(k), r.masked(s, true))) by {
            let ku = k as usize;
            assert(o.unsat_groups@.contains(ku) <==> !clause_true(s.clause(k), s.vals()));
            assert(r.unsat_groups@.contains(ku) <==> (o.unsat_groups@.contains(ku)
                || listed.contains(ku)));
            if clause_true(s.clause(k), mv) {
                let t = choose|t: int|
                    0 <= t < s.clause(k).len() && lit_true(#[trigger] s.clause(k)[t], mv);
                assert(lit_true(s.clause(k)[t], s.vals()));
                assert(clause_true(s.clause(k), s.vals()));
                if listed.contains(ku) {
                    assert(!clause_true(s.clause(ku as int), mv));
                }
            } else {
                if !o.unsat_groups@.contains(ku) && !listed.contains(ku) {
                    assert(o.listed_below(k, o.settled(false)) || o.unsat_groups@.contains(ku));
                    let i = choose|i: int|
                        0 <= i < o.settled(false) && (
                        #[trigger] o.groups_sat_at_assignment@[i])@.contains(ku);
                    assert(i < top);
                    let j = choose|j: int|
                        0 <= j < o.groups_sat_at_assignment@[i]@.len()
                            && o.groups_sat_at_assignment@[i]@[j] == ku;
                    assert(o.satisfied_at(s, o.groups_sat_at_assignment@[i]@[j] as int, i));
                    let t = choose|t: int|
                        0 <= t < s.clause(k).len() && lit_true(
                            #[trigger] s.clause(k)[t],
                            s.vals(),
                        ) && s.clause(k)[t].var_pos == o.assigned@[i];
                    assert(o.var_assigned_index@[o.assigned@[i] as int] == i);
                    assert(lit_true(s.clause(k)[t], mv));
                    assert(false);
                }
            }
        }
        assert forall|k: usize| r.unsat_groups@.contains(k) implies k < s.num_clauses() by {
            if !o.unsat_groups@.contains(k) {
                assert(listed.contains(k));
            }
        }
        assert forall|v: int, k: int| 0 <= v < s.num_vars() && 0 <= k < r.capacity implies (
        #[trigger] r.variable_unsat_groups.has(v, k) <==> (k < s.num_clauses()
            && r.unsat_groups@.contains(k as usize) && mentions(s.clause(k), v))) by {}
        assert(r.index_ok(s, true));
        assert forall|i: int, j: int|
            0 <= i < r.settled(true) && 0 <= j < r.groups_sat_at_assignment@[i]@.len()
                implies r.satisfied_at(s, (#[trigger] r.groups_sat_at_assignment@[i]@[j]) as int, i) by {
            let k = o.groups_sat_at_assignment@[i]@[j] as int;
            assert(o.satisfied_at(s, k, i));
        }
        assert forall|k: int| 0 <= k < s.num_clauses() implies (#[trigger] r.listed_below(
            k,
            r.settled(true),
        )) || r.unsat_groups@.contains(k as usize) by {
            let ku = k as usize;
            assert(o.listed_below(k, o.settled(false)) || o.unsat_groups@.contains(ku));
            if !r.unsat_groups@.contains(ku) {
                let i = choose|i: int|
                    0 <= i < o.settled(false) && (#[trigger] o.groups_sat_at_assignment@[i])@.contains(
                        ku,
                    );
                if i == top {
                    assert(listed.contains(ku));
                }
                assert(r.groups_sat_at_assignment@[i] == o.groups_sat_at_assignment@[i]);
            }
        }
        assert(r.saved_ok(s, true));
        assert forall|p: int|
            0 <= p < r.assigned@.len() && (#[trigger] r.antecedents@[p]).is_uc implies r.unit_at(
            s,
            p,
        ) by {
            assert(o.antecedents@[p].is_uc);
            assert(o.unit_at(s, p));
        }
        assert(r.units_ok(s));
    }

    /// Takes the open entry off the top of the trail: its variable loses
    /// its value and the record of its alternatives.
    pub fn drop_top(&mut self, s: &mut Solver)
        requires
            old(self).inv(old(s), true),
        ensures
            final(self).inv(final(s), false),
            Self::same_but(old(s), final(s), old(self).assigned@[old(self).assigned@.len() - 1] as int),
            final(s).vals()[old(self).assigned@[old(self).assigned@.len() - 1] as int] is None,
            final(self).assigned@ == old(self).assigned@.drop_last(),
            final(self).antecedents == old(self).antecedents,
            final(self).groups_sat_at_assignment == old(self).groups_sat_at_assignment,
            final(self).var_assigned_index == old(self).var_assigned_index,
            final(self).conflict_set == old(self).conflict_set,
            final(self).same_indices(old(self)),
            final(self).var_exhausted@ == old(self).var_exhausted@.update(
                old(self).assigned@.len() - 1,
                None,
            ),
    {
        let top = self.assigned.len() - 1;
        let pos = self.assigned[top];
        let ghost s0 = *s;
        proof {
            self.lemma_trail_bound(s, true);
        }
        self.var_exhausted[top] = None;
        self.assigned.pop();
        s.variables[pos].value = None;
        proof {
            let o = old(self);
            let n = s0.num_vars();
            assert(self.assigned@ =~= o.assigned@.drop_last());
            assert(Self::same_but(&s0, s, pos as int));
            s0.lemma_same_formula(*s);
            assert(s.vals() =~= o.masked(&s0, true));
            assert(self.masked(s, false) == s.vals());
            assert(o.var_assigned_index@[o.assigned@[top as int] as int] == top);
            assert(self.shape(s));
            assert forall|v: int| 0 <= v < n implies ((#[trigger] self.masked(s, false)[v]) is Some
                <==> (self.var_assigned_index@[v] < self.settled(false)
                && self.assigned@[self.var_assigned_index@[v] as int] == v)) by {
                assert(o.masked(&s0, true)[v] is Some <==> (o.var_assigned_index@[v] < o.settled(
                    true,
                ) && o.assigned@[o.var_assigned_index@[v] as int] == v));
            }
            assert forall|i: int| 0 <= i < self.settled(false) implies (
            #[trigger] self.var_exhausted@[i]) is Some by {
                assert(o.var_exhausted@[i] is Some);
            }
            assert forall|i: int|
                0 <= i < self.assigned@.len() && (#[trigger] self.antecedents@[i]).is_uc implies {
                &&& self.antecedents@[i].antecedent is Some
                &&& self.antecedents@[i].antecedent->0 < s.num_clauses()
                &&& self.var_exhausted@[i] is Some ==> self.var_exhausted@[i] == Some(true)
            } by {
                assert(o.antecedents@[i].is_uc);
            }
            assert forall|i: int| 0 <= i < self.assigned@.len() implies (#[trigger] self.assigned@[i])
                < n && self.var_assigned_index@[self.assigned@[i] as int] == i by {
                assert(o.assigned@[i] < n);
            }
            assert(self.trail_ok(s, false));
            assert forall|k: int| 0 <= k < s.num_clauses() implies (self.unsat_groups@.contains(
                k as usize,
            ) <==> !clause_true(#[trigger] s.clause(k), self.masked(s, false))) by {
                assert(s.clause(k) == s0.clause(k));
                assert(o.unsat_groups@.contains(k as usize) <==> !clause_true(
                    s0.clause(k),
                    o.masked(&s0, true),
                ));
            }
            assert forall|v: int, k: int| 0 <= v < s.num_vars() && 0 <= k < self.capacity implies (
            #[trigger] self.variable_unsat_groups.has(v, k) <==> (k < s.num_clauses()
                && self.unsat_groups@.contains(k as usize) && mentions(s.clause(k), v))) by {
                assert(o.variable_unsat_groups.has(v, k) <==> (k < s0.num_clauses()
                    && o.unsat_groups@.contains(k as usize) && mentions(s0.clause(k), v)));
                if k < s.num_clauses() {
                    assert(s.clause(k) == s0.clause(k));
                }
            }
            assert(self.index_ok(s, false));
            assert forall|i: int, j: int|
                0 <= i < self.settled(false) && 0 <= j < self.groups_sat_at_assignment@[i]@.len()
                    implies self.satisfied_at(
                s,
                (#[trigger] self.groups_sat_at_assignment@[i]@[j]) as int,
                i,
            ) by {
                let k = o.groups_sat_at_assignment@[i]@[j] as int;
                assert(o.satisfied_at(&s0, k, i));
                assert(s.clause(k) == s0.clause(k));
                let t0 = choose|t: int|
                    0 <= t < s0.clause(k).len() && lit_true(#[trigger] s0.clause(k)[t], s0.vals())
                        && s0.clause(k)[t].var_pos == o.assigned@[i];
                assert(o.var_assigned_index@[o.assigned@[i] as int] == i);
                assert(lit_true(s.clause(k)[t0], s.vals()) && s.clause(k)[t0].var_pos
                    == self.assigned@[i]);
                s0.lemma_clause_within(k);
                assert forall|t: int|
                    0 <= t < s.clause(k).len() && lit_true(
                        #[trigger] s.clause(k)[t],
                        s.vals(),
                    ) implies self.var_assigned_index@[s.clause(k)[t].var_pos as int] >= i by {
                    assert(lit_true(s0.clause(k)[t], s0.vals()));
                }
            }
            assert forall|k: int| 0 <= k < s.num_clauses() implies (#[trigger] self.listed_below(
                k,
                self.settled(false),
            )) || self.unsat_groups@.contains(k as usize) by {
                assert(o.listed_below(k, o.settled(true)) || o.unsat_groups@.contains(k as usize));
            }
            assert(self.saved_ok(s, false));
            assert forall|p: int|
                0 <= p < self.assigned@.len() && (#[trigger] self.antecedents@[p]).is_uc implies self.unit_at(
                s,
                p,
            ) by {
                let a = self.antecedents@[p].antecedent->0 as int;
                assert(o.antecedents@[p].is_uc);
                assert(o.unit_at(&s0, p));
                assert(s.clause(a) == s0.clause(a));
                let cl = s.clause(a);
                let u = self.assigned@[p] as int;
                assert(o.var_assigned_index@[o.assigned@[p] as int] == p);
                assert forall|t: int|
                    0 <= t < cl.len() && (#[trigger] cl[t]).var_pos != u implies lit_false(
                    cl[t],
                    s.vals(),
                ) && self.var_assigned_index@[cl[t].var_pos as int] < p by {
                    assert(lit_false(cl[t], s0.vals()));
                    assert(o.var_assigned_index@[cl[t].var_pos as int] < p);
                }
            }
            assert(self.units_ok(s));
        }
    }
}

} // verus!

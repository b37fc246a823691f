use crate::connections::Connection;
use crate::implication_graph::analysis_inputs;
use crate::implication_graph::clause_of;
use crate::implication_graph::conflict_state;
use crate::implication_graph::forces;
use crate::implication_graph::lit_holds;
use crate::implication_graph::premises_hold;
use crate::implication_graph::set_holds;
use crate::logic::model_satisfies;
use crate::implication_graph::ImplicationGraph;
use crate::implication_graph::analysed;
use crate::implication_graph::learned_of;
use crate::learned_clause::canonical;
use crate::learned_clause::is_known;
use crate::learned_clause::sort_literals;
use crate::learned_clause::LearnedClause;
use crate::logic::clause_true;
use crate::logic::clause_within;
use crate::logic::lit_false;
use crate::logic::lit_true;
use crate::logic::mentions;
use crate::logic::Clause;
use crate::search::Search;
use crate::solver::Solver;
use std::collections::BTreeSet;
use vstd::prelude::*;
use vstd::std_specs::btree::group_btree_axioms;

verus! {

/// The literals of the pool whose index is in `learned` and below `bound`,
/// by rising index.
pub open spec fn picked(learned: Set<usize>, connections: Seq<Connection>, bound: nat) -> Clause
    decreases bound,
{
    if bound == 0 {
        Seq::empty()
    } else {
        let r = picked(learned, connections, (bound - 1) as nat);
        if learned.contains((bound - 1) as usize) {
            r.push(connections[bound - 1])
        } else {
            r
        }
    }
}

/// The literal `c` is a literal of the pool with its index in `learned`.
pub open spec fn drawn(learned: Set<usize>, connections: Seq<Connection>, c: Connection) -> bool {
    exists|l: usize| l < connections.len() && #[trigger] learned.contains(l) && connections[l as int] == c
}

/// Every picked literal is a literal of the pool with its index in
/// `learned`.
pub proof fn lemma_picked(learned: Set<usize>, connections: Seq<Connection>, bound: nat)
    requires
        bound <= connections.len(),
        bound <= usize::MAX,
    ensures
        forall|i: int|
            0 <= i < picked(learned, connections, bound).len() ==> drawn(
                learned,
                connections,
                #[trigger] picked(learned, connections, bound)[i],
            ),
    decreases bound,
{
    if bound > 0 {
        lemma_picked(learned, connections, (bound - 1) as nat);
        let r = picked(learned, connections, (bound - 1) as nat);
        let p = picked(learned, connections, bound);
        assert forall|i: int| 0 <= i < p.len() implies drawn(learned, connections, #[trigger] p[i]) by {
            if i < r.len() {
                assert(drawn(learned, connections, r[i]));
                assert(p[i] == r[i]);
            } else {
                let l = (bound - 1) as usize;
                assert(l < connections.len() && learned.contains(l) && connections[l as int] == p[i]);
            }
        }
    }
}

/// The literal `c` is among the picked literals.
pub open spec fn holds_picked(learned: Set<usize>, connections: Seq<Connection>, c: Connection) -> bool {
    exists|i: int|
        0 <= i < picked(learned, connections, connections.len()).len() && #[trigger] picked(
            learned,
            connections,
            connections.len(),
        )[i] == c
}

/// Every literal of the pool with its index in `learned` is picked.
pub proof fn lemma_picked_all(learned: Set<usize>, connections: Seq<Connection>, bound: nat)
    requires
        bound <= connections.len(),
        bound <= usize::MAX,
    ensures
        forall|l: usize|
            l < bound && #[trigger] learned.contains(l) ==> exists|i: int|
                0 <= i < picked(learned, connections, bound).len() && #[trigger] picked(
                    learned,
                    connections,
                    bound,
                )[i] == connections[l as int],
    decreases bound,
{
    if bound > 0 {
        lemma_picked_all(learned, connections, (bound - 1) as nat);
        let r = picked(learned, connections, (bound - 1) as nat);
        let p = picked(learned, connections, bound);
        assert forall|l: usize| l < bound && #[trigger] learned.contains(l) implies exists|i: int|
            0 <= i < p.len() && #[trigger] p[i] == connections[l as int] by {
            if l < bound - 1 {
                let i = choose|i: int| 0 <= i < r.len() && #[trigger] r[i] == connections[l as int];
                assert(p[i] == connections[l as int]);
            } else {
                assert(p[p.len() - 1] == connections[l as int]);
            }
        }
    }
}

/// No two literals of the clause are on one variable.
pub open spec fn once_each(cl: Clause) -> bool {
    forall|i: int, j: int|
        0 <= i < j < cl.len() ==> (#[trigger] cl[i]).var_pos != (#[trigger] cl[j]).var_pos
}

/// The literal `c` is a literal of the pool with its index in `learned`
/// and below `bound`.
pub open spec fn drawn_below(
    learned: Set<usize>,
    connections: Seq<Connection>,
    c: Connection,
    bound: nat,
) -> bool {
    exists|l: usize| l < bound && #[trigger] learned.contains(l) && connections[l as int] == c
}

/// When `learned` holds one literal per variable, no two of the picked
/// literals are on one variable, and each is picked from an index below
/// `bound`.
pub proof fn lemma_picked_once(learned: Set<usize>, connections: Seq<Connection>, bound: nat)
    requires
        bound <= connections.len(),
        bound <= usize::MAX,
        forall|l1: usize, l2: usize|
            learned.contains(l1) && learned.contains(l2) && l1 < connections.len() && l2
                < connections.len() && connections[l1 as int].var_pos
                == connections[l2 as int].var_pos ==> l1 == l2,
    ensures
        once_each(picked(learned, connections, bound)),
        forall|i: int|
            0 <= i < picked(learned, connections, bound).len() ==> drawn_below(
                learned,
                connections,
                #[trigger] picked(learned, connections, bound)[i],
                bound,
            ),
    decreases bound,
{
    if bound > 0 {
        lemma_picked_once(learned, connections, (bound - 1) as nat);
        let r = picked(learned, connections, (bound - 1) as nat);
        let p = picked(learned, connections, bound);
        let last = (bound - 1) as usize;
        assert forall|i: int| 0 <= i < p.len() implies drawn_below(
            learned,
            connections,
            #[trigger] p[i],
            bound,
        ) by {
            if i < r.len() {
                assert(drawn_below(learned, connections, r[i], (bound - 1) as nat));
                let l = choose|l: usize|
                    l < bound - 1 && #[trigger] learned.contains(l) && connections[l as int] == r[i];
                assert(l < bound && learned.contains(l) && connections[l as int] == p[i]);
            } else {
                assert(last < bound && learned.contains(last) && connections[last as int] == p[i]);
            }
        }
        assert forall|i: int, j: int| 0 <= i < j < p.len() implies (#[trigger] p[i]).var_pos != (
        #[trigger] p[j]).var_pos by {
            if j < r.len() {
                assert(r[i].var_pos != r[j].var_pos);
            } else {
                assert(drawn_below(learned, connections, r[i], (bound - 1) as nat));
                let l = choose|l: usize|
                    l < bound - 1 && #[trigger] learned.contains(l) && connections[l as int] == r[i];
                assert(learned.contains(last));
                assert(l != last);
            }
        }
    }
}

/// The literals of the learned set, by rising index in the pool.
pub fn collect(learned: &BTreeSet<usize>, connections: &Vec<Connection>) -> (lits: Vec<Connection>)
    ensures
        lits@ == picked(learned@, connections@, connections@.len()),
{
    broadcast use group_btree_axioms;

    let n = connections.len();
    let mut lits: Vec<Connection> = Vec::new();
    let mut l: usize = 0;
    while l < n
        invariant
            l <= n,
            n == connections@.len(),
            lits@ == picked(learned@, connections@, l as nat),
        decreases n - l,
    {
        if learned.contains(&l) {
            lits.push(connections[l]);
        }
        l += 1;
    }
    lits
}

/// A copy of the list.
pub fn copy_literals(lits: &Vec<Connection>) -> (r: Vec<Connection>)
    ensures
        r@ == lits@,
{
    let mut r: Vec<Connection> = Vec::new();
    let n = lits.len();
    let mut i: usize = 0;
    while i < n
        invariant
            i <= n,
            n == lits@.len(),
            r@ == lits@.subrange(0, i as int),
        decreases n - i,
    {
        r.push(lits[i]);
        proof {
            assert(r@ =~= lits@.subrange(0, i + 1));
        }
        i += 1;
    }
    proof {
        assert(lits@.subrange(0, n as int) =~= lits@);
    }
    r
}

impl Solver {
    /// The literals of clause `k`, in their order.
    pub fn group_literals(&self, k: usize) -> (lits: Vec<Connection>)
        requires
            self.wf(),
            k < self.num_clauses(),
        ensures
            lits@ == self.clause(k as int),
    {
        let group = &self.connection_groups[k];
        let n = group.connections.len();
        let mut lits: Vec<Connection> = Vec::new();
        let mut j: usize = 0;
        while j < n
            invariant
                j <= n,
                self.wf(),
                k < self.num_clauses(),
                group == &self.connection_groups@[k as int],
                n == self.clause(k as int).len(),
                lits@ == self.clause(k as int).subrange(0, j as int),
            decreases n - j,
        {
            let l = group.connections[j];
            assert(self.connection_groups@[k as int].connections@[j as int] < self.connections@.len());
            lits.push(self.connections[l]);
            proof {
                assert(lits@ =~= self.clause(k as int).subrange(0, j + 1));
            }
            j += 1;
        }
        proof {
            assert(self.clause(k as int).subrange(0, n as int) =~= self.clause(k as int));
        }
        lits
    }
}

impl Search {
    /// The decision levels of the variables of the literals, in their
    /// order.
    pub open spec fn levels_of(&self, lits: Seq<Connection>) -> Seq<usize> {
        Seq::new(
            lits.len(),
            |i: int| self.antecedents@[self.var_assigned_index@[lits[i].var_pos as int] as int].d,
        )
    }

    /// The number of distinct decision levels among the variables of the
    /// literals.
    pub fn block_distance(&self, s: &Solver, lits: &Vec<Connection>) -> (lbd: usize)
        requires
            self.shape(s),
            clause_within(lits@, s.num_vars()),
        ensures
            lbd == self.levels_of(lits@).to_set().len(),
            lbd <= lits@.len(),
    {
        let n = lits.len();
        let ghost all = self.levels_of(lits@);
        let mut levels: Vec<usize> = Vec::new();
        let mut i: usize = 0;
        proof {
            assert(levels@.to_set() =~= all.subrange(0, 0).to_set());
        }
        while i < n
            invariant
                i <= n,
                n == lits@.len(),
                self.shape(s),
                clause_within(lits@, s.num_vars()),
                all == self.levels_of(lits@),
                levels@.len() <= i,
                levels@.no_duplicates(),
                levels@.to_set() == all.subrange(0, i as int).to_set(),
            decreases n - i,
        {
            let v = lits[i].var_pos;
            assert(lits@[i as int].var_pos < s.num_vars());
            let index = self.var_assigned_index[v];
            let d = self.antecedents[index].d;
            let m = levels.len();
            let mut seen = false;
            let mut j: usize = 0;
            while j < m
                invariant
                    j <= m,
                    m == levels@.len(),
                    seen == levels@.subrange(0, j as int).contains(d),
                decreases m - j,
            {
                proof {
                    let a = levels@.subrange(0, j as int);
                    let b = levels@.subrange(0, j + 1);
                    if a.contains(d) {
                        let w = choose|w: int| 0 <= w < a.len() && a[w] == d;
                        assert(b[w] == d);
                    }
                    if b.contains(d) && levels@[j as int] != d {
                        let w = choose|w: int| 0 <= w < b.len() && b[w] == d;
                        assert(a[w] == d);
                    }
                    if levels@[j as int] == d {
                        assert(b[j as int] == d);
                    }
                }
                if levels[j] == d {
                    seen = true;
                }
                j += 1;
            }
            proof {
                assert(levels@.subrange(0, m as int) =~= levels@);
                assert(all[i as int] == d);
            }
            let ghost before = levels@;
            if !seen {
                levels.push(d);
            }
            proof {
                let a = all.subrange(0, i as int);
                let b = all.subrange(0, i + 1);
                assert(b[i as int] == d);
                assert forall|x: usize| levels@.to_set().contains(x) <==> b.to_set().contains(x) by {
                    assert(before.to_set().contains(x) <==> a.to_set().contains(x));
                    if a.contains(x) {
                        let w = choose|w: int| 0 <= w < a.len() && a[w] == x;
                        assert(b[w] == x);
                    }
                    if b.contains(x) && x != d {
                        let w = choose|w: int| 0 <= w < b.len() && b[w] == x;
                        assert(a[w] == x);
                    }
                    if before.contains(x) {
                        let w = choose|w: int| 0 <= w < before.len() && before[w] == x;
                        assert(levels@[w] == x);
                    }
                    if levels@.contains(x) && x != d {
                        let w = choose|w: int| 0 <= w < levels@.len() && levels@[w] == x;
                        assert(before[w] == x);
                    }
                    if x == d {
                        if seen {
                            assert(before.contains(d));
                        } else {
                            assert(levels@[before.len() as int] == d);
                        }
                    }
                }
                assert(levels@.to_set() =~= b.to_set());
                if !seen {
                    assert forall|p: int, q: int|
                        0 <= p < levels@.len() && 0 <= q < levels@.len() && p != q implies levels@[p]
                        != levels@[q] by {
                        if p < before.len() && q < before.len() {
                            assert(before[p] != before[q]);
                        } else if p < before.len() {
                            assert(before.contains(before[p]));
                        } else {
                            assert(before.contains(before[q]));
                        }
                    }
                }
            }
            i += 1;
        }
        proof {
            assert(all.subrange(0, n as int) =~= all);
            levels@.unique_seq_to_set();
        }
        levels.len()
    }

    /// The clause that the analysis of the conflict at clause `k` yields:
    /// the literals of the learned set, by rising index in the pool.
    pub open spec fn to_learn(&self, s: &Solver, k: usize) -> Clause {
        picked(
            learned_of(
                analysed(
                    self.assigned@,
                    k,
                    self.antecedents@,
                    self.var_assigned_index@,
                    s.connection_groups@,
                    s.connections@,
                ).lit_of,
            ),
            s.connections@,
            s.connections@.len(),
        )
    }

    /// A clause with the same literals as `lits` was seen before.
    pub open spec fn known(&self, lits: Clause) -> bool {
        exists|i: int|
            0 <= i < self.unique_clauses@.len() && (#[trigger] self.unique_clauses@[i]).lits@
                == canonical(lits)
    }

    /// Learns from the falsified clause `k`: the clause that the analysis
    /// of the conflict yields is appended to the solver and enters the
    /// indices, unless a clause with the same literals was seen before or
    /// the per-variable sets are full. Tells whether a clause was added.
    /// Every literal of that clause is falsified, no two of them are on
    /// one variable, and every model of the clauses satisfies it.
    pub fn learn(&mut self, s: &mut Solver, k: usize) -> (added: bool)
        requires
            old(self).inv(old(s), true),
            old(s).vals()[old(self).assigned@[old(self).assigned@.len() - 1] as int] is Some,
            k < old(s).num_clauses(),
            forall|t: int|
                0 <= t < old(s).clause(k as int).len() ==> lit_false(
                    #[trigger] old(s).clause(k as int)[t],
                    old(s).vals(),
                ),
        ensures
            final(self).inv(final(s), true),
            final(s).variables == old(s).variables,
            final(s).backtracks == old(s).backtracks,
            final(s).connections_checked == old(s).connections_checked,
            final(s).num_clauses() == old(s).num_clauses() + (if added {
                1nat
            } else {
                0nat
            }),
            forall|c: int|
                0 <= c < old(s).num_clauses() ==> #[trigger] final(s).clause(c) == old(s).clause(c),
            added ==> forall|t: int|
                0 <= t < final(s).clause(old(s).num_clauses() as int).len() ==> lit_false(
                    #[trigger] final(s).clause(old(s).num_clauses() as int)[t],
                    final(s).vals(),
                ),
            added ==> forall|m: Seq<bool>| #[trigger]
                old(s).is_model(m) ==> model_satisfies(
                    m,
                    final(s).clause(old(s).num_clauses() as int),
                ),
            final(self).assigned == old(self).assigned,
            final(self).antecedents == old(self).antecedents,
            final(self).var_exhausted == old(self).var_exhausted,
            final(self).groups_sat_at_assignment == old(self).groups_sat_at_assignment,
            final(self).var_assigned_index == old(self).var_assigned_index,
            final(self).conflict_set == old(self).conflict_set,
            final(self).window == old(self).window,
            final(self).learned_at_restart == old(self).learned_at_restart,
            final(self).last_trail == old(self).last_trail,
            final(self).capacity == old(self).capacity,
            final(self).clauses_learned == (if added {
                crate::logic::saturated((old(self).clauses_learned + 1) as nat)
            } else {
                old(self).clauses_learned
            }),
            added == (!old(self).known(old(self).to_learn(old(s), k)) && old(s).num_clauses() < old(self).capacity),
            forall|t: int|
                0 <= t < old(self).to_learn(old(s), k).len() ==> lit_false(
                    #[trigger] old(self).to_learn(old(s), k)[t],
                    old(s).vals(),
                ),
            once_each(old(self).to_learn(old(s), k)),
            clause_within(old(self).to_learn(old(s), k), old(s).num_vars()),
            forall|m: Seq<bool>| #[trigger]
                old(s).is_model(m) ==> model_satisfies(m, old(self).to_learn(old(s), k)),
            added ==> {
                &&& final(s).clause(old(s).num_clauses() as int) == old(self).to_learn(old(s), k)
                &&& final(self).unsat_groups@ == old(self).unsat_groups@.insert(
                    old(s).num_clauses() as usize,
                )
                &&& forall|v: int|
                    0 <= v < old(s).num_vars() ==> #[trigger] final(self).variable_unsat_groups.list(
                        v,
                    ) == final(s).with_clause(
                        old(self).variable_unsat_groups.list(v),
                        old(s).num_clauses() as usize,
                        v,
                    )
                &&& final(self).unique_clauses@.len() == old(self).unique_clauses@.len() + 1
                &&& forall|i: int|
                    0 <= i < old(self).unique_clauses@.len() ==> final(self).unique_clauses@[i]
                        == old(self).unique_clauses@[i]
                &&& final(self).unique_clauses@[old(self).unique_clauses@.len() as int].lits@
                    == canonical(old(self).to_learn(old(s), k))
                &&& final(self).unique_clauses@[old(self).unique_clauses@.len() as int].index
                    == old(s).num_clauses()
                &&& final(self).unique_clauses@[old(self).unique_clauses@.len() as int].lbd == old(self).levels_of(old(self).to_learn(old(s), k)).to_set().len()
            },
            !added ==> *final(s) == *old(s) && final(self).unique_clauses == old(self).unique_clauses && final(self).unsat_groups@ == old(self).unsat_groups@
                && final(self).variable_unsat_groups == old(self).variable_unsat_groups,
    {
        broadcast use group_btree_axioms;

        let ghost s0 = *s;
        let ghost top = self.assigned@.len() - 1;
        proof {
            self.lemma_trail_bound(s, true);
            assert(analysis_inputs(
                self.assigned@,
                k,
                self.antecedents@,
                self.var_assigned_index@,
                s.connection_groups@,
                s.connections@,
            ));
            assert forall|c: int| 0 <= c < s.num_clauses() implies clause_of(
                s.connection_groups@,
                s.connections@,
                c,
            ) == #[trigger] s.clause(c) by {
                assert(clause_of(s.connection_groups@, s.connections@, c) =~= s.clause(c));
            }
            assert(conflict_state(
                self.assigned@,
                self.antecedents@,
                s.connection_groups@,
                s.connections@,
                k as int,
                s.vals(),
            )) by {
                assert(s.clause(k as int) == clause_of(
                    s.connection_groups@,
                    s.connections@,
                    k as int,
                ));
                assert forall|p: int|
                    0 <= p < self.assigned@.len() && (#[trigger] self.antecedents@[p]).is_uc
                        implies forces(
                    clause_of(
                        s.connection_groups@,
                        s.connections@,
                        self.antecedents@[p].antecedent->0 as int,
                    ),
                    s.vals(),
                    self.assigned@[p] as int,
                ) by {
                    let a = self.antecedents@[p].antecedent->0 as int;
                    assert(self.unit_at(s, p));
                    assert(s.clause(a) == clause_of(s.connection_groups@, s.connections@, a));
                    let u = self.assigned@[p] as int;
                    assert(self.var_assigned_index@[self.assigned@[p] as int] == p);
                    if p < top {
                        assert(self.masked(s, true)[u] is Some);
                    }
                    assert(s.vals()[u] is Some);
                }
            }
        }
        let graph = ImplicationGraph::new(
            &self.assigned,
            &k,
            &self.antecedents,
            &self.var_assigned_index,
            &s.connection_groups,
            &s.connections,
        );
        let lits = collect(&graph.learned, &s.connections);
        let pool = s.connections.len();
        proof {
            lemma_picked_all(graph.learned@, s.connections@, s.connections@.len());
            assert forall|m: Seq<bool>| #[trigger] s.is_model(m) implies model_satisfies(
                m,
                lits@,
            ) by {
                assert(model_satisfies(m, s.clause(k as int)));
                assert(premises_hold(
                    self.assigned@,
                    self.antecedents@,
                    s.connection_groups@,
                    s.connections@,
                    k as int,
                    m,
                )) by {
                    assert forall|p: int|
                        0 <= p < self.assigned@.len() && (#[trigger] self.antecedents@[p]).is_uc
                            implies model_satisfies(
                        m,
                        clause_of(
                            s.connection_groups@,
                            s.connections@,
                            self.antecedents@[p].antecedent->0 as int,
                        ),
                    ) by {
                        let a = self.antecedents@[p].antecedent->0 as int;
                        assert(model_satisfies(m, s.clause(a)));
                    }
                }
                assert(set_holds(graph.learned@, s.connections@, m));
                let l = choose|l: usize|
                    #[trigger] graph.learned@.contains(l) && lit_holds(s.connections@[l as int], m);
                assert(holds_picked(graph.learned@, s.connections@, s.connections@[l as int]));
                let i = choose|i: int|
                    0 <= i < lits@.len() && #[trigger] lits@[i] == s.connections@[l as int];
                assert(m[lits@[i].var_pos as int] == lits@[i].val);
            }
        }
        proof {
            lemma_picked(graph.learned@, s.connections@, s.connections@.len());
            assert forall|t: int| 0 <= t < lits@.len() implies (#[trigger] lits@[t]).var_pos
                < s.num_vars() && lit_false(lits@[t], s.vals()) by {
                assert(drawn(graph.learned@, s.connections@, lits@[t]));
                let l = choose|l: usize|
                    l < s.connections@.len() && #[trigger] graph.learned@.contains(l)
                        && s.connections@[l as int] == lits@[t];
                assert(s.connections@[l as int].var_pos < s.num_vars());
                assert(lit_false(s.connections@[l as int], s.vals()));
            }
        }
        proof {
            lemma_picked_once(graph.learned@, s.connections@, s.connections@.len());
            assert(lits@ == self.to_learn(s, k));
        }
        let lbd = self.block_distance(s, &lits);
        let index = s.connection_groups.len();
        let canon = LearnedClause::new(lbd, copy_literals(&lits), index);
        if is_known(&self.unique_clauses, &canon.lits) || index >= self.capacity {
            return false;
        }
        self.clauses_learned = self.clauses_learned.saturating_add(1);
        self.unique_clauses.push(canon);
        let added_at = s.add_connection_group(&lits);
        proof {
            assert forall|m: Seq<bool>| #[trigger] s0.is_model(m) implies model_satisfies(
                m,
                s.clause(s0.num_clauses() as int),
            ) by {
                assert(model_satisfies(m, lits@));
            }
        }
        proof {
            let o = old(self);
            assert(s.num_clauses() == s0.num_clauses() + 1);
            assert forall|v: int, c: int| 0 <= v < s.num_vars() && 0 <= c < self.capacity implies (
            #[trigger] self.variable_unsat_groups.has(v, c) <==> (c < s.num_clauses()
                && self.unsat_groups@.contains(c as usize) && mentions(s.clause(c), v))) by {
                assert(o.variable_unsat_groups.has(v, c) <==> (c < s0.num_clauses()
                    && o.unsat_groups@.contains(c as usize) && mentions(s0.clause(c), v)));
                if c < s0.num_clauses() {
                    assert(s.clause(c) == s0.clause(c));
                }
                if c == index {
                    assert(!o.unsat_groups@.contains(c as usize));
                }
            }
            assert(self.sets_match(s));
        }
        let ghost mid = *self;
        self.restore_clause(s, added_at);
        proof {
            let o = old(self);
            let n = s.num_vars();
            assert(s.vals() == s0.vals());
            assert(self.masked(s, true) == o.masked(&s0, true));
            assert(self.shape(s));
            assert(o.trail_ok(&s0, true));
            assert forall|v: int| 0 <= v < n implies ((#[trigger] self.masked(s, true)[v]) is Some
                <==> (self.var_assigned_index@[v] < self.settled(true)
                && self.assigned@[self.var_assigned_index@[v] as int] == v)) by {
                assert(o.masked(&s0, true)[v] is Some <==> (o.var_assigned_index@[v] < o.settled(
                    true,
                ) && o.assigned@[o.var_assigned_index@[v] as int] == v));
            }
            assert forall|i: int| 0 <= i < self.settled(true) implies (
            #[trigger] self.var_exhausted@[i]) is Some by {
                assert(o.var_exhausted@[i] is Some);
            }
            assert forall|i: int|
                0 <= i < self.assigned@.len() && (#[trigger] self.antecedents@[i]).is_uc implies {
                &&& self.antecedents@[i].antecedent is Some
                &&& self.antecedents@[i].antecedent->0 < s.num_clauses()
                &&& self.var_exhausted@[i] is Some ==> self.var_exhausted@[i] == Some(true)
            } by {
                assert(o.antecedents@[i].is_uc);
            }
            assert(self.trail_ok(s, true));
            assert forall|c: int| 0 <= c < s.num_clauses() implies (self.unsat_groups@.contains(
                c as usize,
            ) <==> !clause_true(#[trigger] s.clause(c), self.masked(s, true))) by {
                if c < s0.num_clauses() {
                    assert(s.clause(c) == s0.clause(c));
                    assert(o.unsat_groups@.contains(c as usize) <==> !clause_true(
                        s0.clause(c),
                        o.masked(&s0, true),
                    ));
                } else {
                    if clause_true(s.clause(c), self.masked(s, true)) {
                        let t = choose|t: int|
                            0 <= t < s.clause(c).len() && lit_true(
                                #[trigger] s.clause(c)[t],
                                self.masked(s, true),
                            );
                        assert(lit_false(lits@[t], s.vals()));
                        assert(false);
                    }
                }
            }
            assert forall|c: usize| self.unsat_groups@.contains(c) implies c < s.num_clauses() by {
                if c != added_at {
                    assert(o.unsat_groups@.contains(c));
                }
            }
            assert(self.index_ok(s, true));
            assert forall|i: int, j: int|
                0 <= i < self.settled(true) && 0 <= j < self.groups_sat_at_assignment@[i]@.len()
                    implies self.satisfied_at(
                s,
                (#[trigger] self.groups_sat_at_assignment@[i]@[j]) as int,
                i,
            ) by {
                let c = o.groups_sat_at_assignment@[i]@[j] as int;
                assert(o.satisfied_at(&s0, c, i));
                assert(s.clause(c) == s0.clause(c));
            }
            assert forall|c: int| 0 <= c < s.num_clauses() implies (#[trigger] self.listed_below(
                c,
                self.settled(true),
            )) || self.unsat_groups@.contains(c as usize) by {
                if c < s0.num_clauses() {
                    assert(o.listed_below(c, o.settled(true)) || o.unsat_groups@.contains(
                        c as usize,
                    ));
                }
            }
            assert(self.saved_ok(s, true));
            assert forall|p: int|
                0 <= p < self.assigned@.len() && (#[trigger] self.antecedents@[p]).is_uc implies self.unit_at(
                s,
                p,
            ) by {
                let a = self.antecedents@[p].antecedent->0 as int;
                assert(o.antecedents@[p].is_uc);
                assert(o.unit_at(&s0, p));
                assert(s.clause(a) == s0.clause(a));
            }
            assert(self.units_ok(s));
        }
        true
    }
}

} // verus!

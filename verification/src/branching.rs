use crate::logic::clause_true;
use crate::logic::lit_open;
use crate::logic::open_count;
use crate::logic::Clause;
use crate::logic::Values;
use crate::sat_linked_hash_set::SatLinkedHashSet;
use crate::sat_linked_hash_set::NIL;
use crate::solver::Solver;
use crate::variable::Variable;
use std::collections::BTreeSet;
use vstd::prelude::*;
use vstd::std_specs::btree::group_btree_axioms;

verus! {

/// What the branching heuristic returns. `set` is `false` when no clause is
/// left unsatisfied. Otherwise `cur` is the variable to assign next; for a
/// unit clause `is_uc` holds, `literal_sign` is the forced value and
/// `antecedent` the clause. When a clause without any unassigned literal is
/// left unsatisfied there is nothing to assign: `cur` is `None` and
/// `antecedent` names that clause.
#[derive(Copy, Clone, Debug, PartialEq, Eq, Structural)]
pub struct CurResult {
    pub set: bool,
    pub cur: Option<usize>,
    pub connections_checked: usize,
    pub is_uc: bool,
    pub literal_sign: Option<bool>,
    pub antecedent: Option<usize>,
}

/// The clause has an unassigned literal on variable `v`.
pub open spec fn has_open_on(cl: Clause, vals: Values, v: int) -> bool {
    exists|j: int| 0 <= j < cl.len() && (#[trigger] cl[j]).var_pos == v && lit_open(cl[j], vals)
}

/// `r` is the first variable of `vars` with the largest degree, the degree
/// of a variable being the number of clauses in its set; `NIL` when no
/// variable of `vars` has a clause in its set.
pub open spec fn first_max_degree(uset: SatLinkedHashSet, vars: Set<usize>, r: usize) -> bool {
    if r == NIL {
        forall|w: int|
            0 <= w < uset.num_vars() && vars.contains(w as usize) ==> (#[trigger] uset.list(
                w,
            )).len() == 0
    } else {
        &&& r < uset.num_vars()
        &&& vars.contains(r)
        &&& uset.list(r as int).len() > 0
        &&& forall|w: int|
            0 <= w < uset.num_vars() && vars.contains(w as usize) ==> {
                &&& (#[trigger] uset.list(w)).len() <= uset.list(r as int).len()
                &&& w < r ==> uset.list(w).len() < uset.list(r as int).len()
            }
    }
}

/// The sum, over the literals of the clause on variable `v`, of `+1` for
/// a positive and `-1` for a negative one.
pub open spec fn polarity_sum(cl: Clause, v: int) -> int
    decreases cl.len(),
{
    if cl.len() == 0 {
        0
    } else {
        polarity_sum(cl.drop_last(), v) + (if cl.last().var_pos == v {
            if cl.last().val {
                1int
            } else {
                -1int
            }
        } else {
            0int
        })
    }
}

/// The number of positive literals of the clause on variable `v`.
pub open spec fn positive_on(cl: Clause, v: int) -> nat
    decreases cl.len(),
{
    if cl.len() == 0 {
        0
    } else {
        positive_on(cl.drop_last(), v) + (if cl.last().var_pos == v && cl.last().val {
            1nat
        } else {
            0nat
        })
    }
}

/// The number of negative literals of the clause on variable `v`.
pub open spec fn negative_on(cl: Clause, v: int) -> nat
    decreases cl.len(),
{
    if cl.len() == 0 {
        0
    } else {
        negative_on(cl.drop_last(), v) + (if cl.last().var_pos == v && !cl.last().val {
            1nat
        } else {
            0nat
        })
    }
}

/// The polarity sum is the positive occurrences less the negative ones, and
/// neither count exceeds the length of the clause.
pub proof fn lemma_polarity_split(cl: Clause, v: int)
    ensures
        polarity_sum(cl, v) == positive_on(cl, v) - negative_on(cl, v),
        positive_on(cl, v) <= cl.len(),
        negative_on(cl, v) <= cl.len(),
    decreases cl.len(),
{
    if cl.len() > 0 {
        lemma_polarity_split(cl.drop_last(), v);
    }
}

impl Solver {
    /// Clause `k` is one of `unsat` and has at most one unassigned literal.
    pub open spec fn urgent(&self, unsat: Set<usize>, k: int) -> bool {
        &&& 0 <= k < self.num_clauses()
        &&& unsat.contains(k as usize)
        &&& open_count(self.clause(k), self.vals()) <= 1
    }

    /// `m` is the least number of unassigned literals in a clause of
    /// `unsat`.
    pub open spec fn least_open(&self, unsat: Set<usize>, m: nat) -> bool {
        &&& forall|k: int|
            0 <= k < self.num_clauses() && unsat.contains(k as usize) ==> open_count(
                #[trigger] self.clause(k),
                self.vals(),
            ) >= m
        &&& exists|k: int|
            0 <= k < self.num_clauses() && unsat.contains(k as usize) && open_count(
                #[trigger] self.clause(k),
                self.vals(),
            ) == m
    }

    /// Variable `v` is unassigned in a clause of `unsat`, below index
    /// `bound`, that has `m` unassigned literals.
    pub open spec fn candidate_below(&self, unsat: Set<usize>, m: nat, bound: int, v: int) -> bool {
        exists|k: int|
            0 <= k < bound && unsat.contains(k as usize) && open_count(
                #[trigger] self.clause(k),
                self.vals(),
            ) == m && has_open_on(self.clause(k), self.vals(), v)
    }

    /// The unassigned variables of the clauses of `unsat` that have `m`
    /// unassigned literals.
    pub open spec fn candidates(&self, unsat: Set<usize>, m: nat) -> Set<usize> {
        Set::new(|v: usize| self.candidate_below(unsat, m, self.num_clauses() as int, v as int))
    }

    /// What the branching heuristic owes for the unsatisfied clauses `unsat`
    /// and the per-variable sets `uset`.
    ///
    /// With no clause in `unsat` there is nothing to decide. The first
    /// clause of `unsat` with at most one unassigned literal decides
    /// otherwise: with one such literal it is a unit clause and forces that
    /// literal; with none there is nothing to assign and the clause is
    /// reported. When every clause of `unsat` has two unassigned literals
    /// or more, the variable is the first of largest degree among the
    /// unassigned variables of the clauses with the fewest unassigned
    /// literals.
    pub open spec fn next_decision(
        &self,
        unsat: Set<usize>,
        uset: SatLinkedHashSet,
        r: CurResult,
    ) -> bool {
        &&& r.connections_checked == 0
        &&& r.set == (exists|k: usize| unsat.contains(k))
        &&& !r.set ==> r.cur is None && !r.is_uc && r.literal_sign is None && r.antecedent is None
        &&& r.set && (exists|k: int| self.urgent(unsat, k)) ==> {
            let a = r.antecedent->0 as int;
            &&& r.antecedent is Some
            &&& self.urgent(unsat, a)
            &&& forall|k: int| 0 <= k < a ==> !self.urgent(unsat, k)
            &&& open_count(self.clause(a), self.vals()) == 0 ==> r.cur is None && !r.is_uc
                && r.literal_sign is None
            &&& open_count(self.clause(a), self.vals()) == 1 ==> {
                &&& r.is_uc
                &&& r.cur is Some
                &&& r.literal_sign is Some
                &&& exists|j: int|
                    0 <= j < self.clause(a).len() && lit_open(
                        #[trigger] self.clause(a)[j],
                        self.vals(),
                    ) && self.clause(a)[j].var_pos == r.cur->0 && self.clause(a)[j].val
                        == r.literal_sign->0
            }
        }
        &&& r.set && !(exists|k: int| self.urgent(unsat, k)) ==> {
            &&& !r.is_uc
            &&& r.literal_sign is None
            &&& r.antecedent is None
            &&& r.cur is Some
            &&& exists|m: nat| #[trigger]
                self.least_open(unsat, m) && first_max_degree(
                    uset,
                    self.candidates(unsat, m),
                    r.cur->0,
                )
        }
    }

    /// The score by which a polarity is chosen for variable `v`: over the
    /// clauses `ks` in which no literal holds, the positive occurrences of
    /// `v` less the negative ones.
    pub open spec fn lcv_score(&self, ks: Seq<usize>, v: int) -> int
        decreases ks.len(),
    {
        if ks.len() == 0 {
            0
        } else {
            self.lcv_score(ks.drop_last(), v) + (if clause_true(
                self.clause(ks.last() as int),
                self.vals(),
            ) {
                0int
            } else {
                polarity_sum(self.clause(ks.last() as int), v)
            })
        }
    }

    /// The number of unassigned literals of clause `k`.
    pub fn count_open(&self, k: usize) -> (c: usize)
        requires
            self.wf(),
            k < self.num_clauses(),
        ensures
            c == open_count(self.clause(k as int), self.vals()),
            c <= self.clause(k as int).len(),
    {
        let group = &self.connection_groups[k];
        let n = group.connections.len();
        let mut c: usize = 0;
        let mut j: usize = 0;
        proof {
            assert(self.clause(k as int).subrange(0, 0) =~= Seq::<crate::connections::Connection>::empty());
        }
        while j < n
            invariant
                j <= n,
                self.wf(),
                k < self.num_clauses(),
                group == &self.connection_groups@[k as int],
                n == self.clause(k as int).len(),
                c <= j,
                c == open_count(self.clause(k as int).subrange(0, j as int), self.vals()),
            decreases n - j,
        {
            let l = group.connections[j];
            assert(self.connection_groups@[k as int].connections@[j as int] < self.connections@.len());
            let v = self.connections[l].var_pos;
            assert(self.connections@[l as int].var_pos < self.variables@.len());
            proof {
                let cl = self.clause(k as int);
                assert(cl.subrange(0, j + 1).drop_last() =~= cl.subrange(0, j as int));
                assert(cl.subrange(0, j + 1).last() == cl[j as int]);
            }
            if self.variables[v].value.is_none() {
                c += 1;
            }
            j += 1;
        }
        proof {
            assert(self.clause(k as int).subrange(0, n as int) =~= self.clause(k as int));
        }
        c
    }

    /// The first variable of `min_groups_vars` with the largest degree, or
    /// `NIL` when none of them has a clause in its set.
    pub fn get_var_max_deg(
        &self,
        variable_unsat_groups: &SatLinkedHashSet,
        min_groups_vars: &BTreeSet<usize>,
    ) -> (r: usize)
        requires
            variable_unsat_groups.wf(),
            forall|v: usize|
                min_groups_vars@.contains(v) ==> v < variable_unsat_groups.num_vars(),
        ensures
            first_max_degree(*variable_unsat_groups, min_groups_vars@, r),
    {
        broadcast use group_btree_axioms;

        let n = variable_unsat_groups.heads.len();
        let mut max_deg: usize = 0;
        let mut var_max_deg: usize = NIL;
        let mut v: usize = 0;
        while v < n
            invariant
                v <= n,
                n == variable_unsat_groups.num_vars(),
                variable_unsat_groups.wf(),
                var_max_deg == NIL ==> max_deg == 0,
                var_max_deg != NIL ==> {
                    &&& var_max_deg < v
                    &&& min_groups_vars@.contains(var_max_deg)
                    &&& variable_unsat_groups.list(var_max_deg as int).len() == max_deg
                    &&& max_deg > 0
                },
                forall|w: int|
                    0 <= w < v && min_groups_vars@.contains(w as usize) ==> {
                        &&& (#[trigger] variable_unsat_groups.list(w)).len() <= max_deg
                        &&& var_max_deg != NIL && w < var_max_deg ==> variable_unsat_groups.list(
                            w,
                        ).len() < max_deg
                    },
            decreases n - v,
        {
            if min_groups_vars.contains(&v) {
                let deg = variable_unsat_groups.degree(v);
                if deg > max_deg {
                    var_max_deg = v;
                    max_deg = deg;
                }
            }
            v += 1;
        }
        var_max_deg
    }

    /// The position, in clause `k`, of its first unassigned literal.
    pub fn first_open(&self, k: usize) -> (j: usize)
        requires
            self.wf(),
            k < self.num_clauses(),
            open_count(self.clause(k as int), self.vals()) > 0,
        ensures
            j < self.clause(k as int).len(),
            lit_open(self.clause(k as int)[j as int], self.vals()),
            forall|i: int| 0 <= i < j ==> !lit_open(#[trigger] self.clause(k as int)[i], self.vals()),
    {
        let group = &self.connection_groups[k];
        let n = group.connections.len();
        let mut j: usize = 0;
        while j < n
            invariant
                j <= n,
                self.wf(),
                k < self.num_clauses(),
                group == &self.connection_groups@[k as int],
                n == self.clause(k as int).len(),
                forall|i: int|
                    0 <= i < j ==> !lit_open(#[trigger] self.clause(k as int)[i], self.vals()),
            decreases n - j,
        {
            let l = group.connections[j];
            assert(self.connection_groups@[k as int].connections@[j as int] < self.connections@.len());
            let v = self.connections[l].var_pos;
            assert(self.connections@[l as int].var_pos < self.variables@.len());
            if self.variables[v].value.is_none() {
                return j;
            }
            j += 1;
        }
        proof {
            self.lemma_clause_within(k as int);
            crate::logic::lemma_open_count_zero(self.clause(k as int), self.vals());
        }
        0
    }

    /// The unassigned variables of the clauses of `unsat_groups` that have
    /// `m` unassigned literals.
    fn min_group_vars(&self, unsat_groups: &BTreeSet<usize>, m: usize) -> (vars: BTreeSet<usize>)
        requires
            self.wf(),
        ensures
            vars@ == self.candidates(unsat_groups@, m as nat),
            forall|v: usize| vars@.contains(v) ==> v < self.num_vars(),
    {
        broadcast use group_btree_axioms;

        let mut vars: BTreeSet<usize> = BTreeSet::new();
        let n = self.connection_groups.len();
        let mut k: usize = 0;
        while k < n
            invariant
                k <= n,
                n == self.num_clauses(),
                self.wf(),
                forall|v: usize|
                    vars@.contains(v) <==> self.candidate_below(
                        unsat_groups@,
                        m as nat,
                        k as int,
                        v as int,
                    ),
                forall|v: usize| vars@.contains(v) ==> v < self.num_vars(),
            decreases n - k,
        {
            let mut hit = false;
            if unsat_groups.contains(&k) {
                hit = self.count_open(k) == m;
            }
            if hit {
                let group = &self.connection_groups[k];
                let len = group.connections.len();
                let mut j: usize = 0;
                while j < len
                    invariant
                        j <= len,
                        k < n,
                        n == self.num_clauses(),
                        self.wf(),
                        group == &self.connection_groups@[k as int],
                        len == self.clause(k as int).len(),
                        unsat_groups@.contains(k),
                        open_count(self.clause(k as int), self.vals()) == m,
                        forall|v: usize|
                            vars@.contains(v) <==> (self.candidate_below(
                                unsat_groups@,
                                m as nat,
                                k as int,
                                v as int,
                            ) || exists|i: int|
                                0 <= i < j && (#[trigger] self.clause(k as int)[i]).var_pos == v
                                    && lit_open(self.clause(k as int)[i], self.vals())),
                        forall|v: usize| vars@.contains(v) ==> v < self.num_vars(),
                    decreases len - j,
                {
                    let l = group.connections[j];
                    assert(self.connection_groups@[k as int].connections@[j as int]
                        < self.connections@.len());
                    let var = self.connections[l].var_pos;
                    assert(self.connections@[l as int].var_pos < self.variables@.len());
                    let ghost before = vars@;
                    if self.variables[var].value.is_none() {
                        vars.insert(var);
                    }
                    proof {
                        let cl = self.clause(k as int);
                        assert forall|v: usize|
                            vars@.contains(v) <==> (self.candidate_below(
                                unsat_groups@,
                                m as nat,
                                k as int,
                                v as int,
                            ) || exists|i: int|
                                0 <= i < j + 1 && (#[trigger] cl[i]).var_pos == v && lit_open(
                                    cl[i],
                                    self.vals(),
                                )) by {
                            let old_ex = exists|i: int|
                                0 <= i < j && (#[trigger] cl[i]).var_pos == v && lit_open(
                                    cl[i],
                                    self.vals(),
                                );
                            let new_ex = exists|i: int|
                                0 <= i < j + 1 && (#[trigger] cl[i]).var_pos == v && lit_open(
                                    cl[i],
                                    self.vals(),
                                );
                            if old_ex {
                                let i = choose|i: int|
                                    0 <= i < j && (#[trigger] cl[i]).var_pos == v && lit_open(
                                        cl[i],
                                        self.vals(),
                                    );
                                assert(0 <= i < j + 1 && cl[i].var_pos == v && lit_open(
                                    cl[i],
                                    self.vals(),
                                ));
                            }
                            if new_ex && !old_ex {
                                let i = choose|i: int|
                                    0 <= i < j + 1 && (#[trigger] cl[i]).var_pos == v && lit_open(
                                        cl[i],
                                        self.vals(),
                                    );
                                assert(i == j);
                            }
                            if cl[j as int].var_pos == v && lit_open(cl[j as int], self.vals()) {
                                assert(new_ex);
                            }
                        }
                    }
                    j += 1;
                }
            }
            proof {
                let cl = self.clause(k as int);
                assert forall|v: usize|
                    vars@.contains(v) <==> self.candidate_below(
                        unsat_groups@,
                        m as nat,
                        k + 1,
                        v as int,
                    ) by {
                    let below = self.candidate_below(unsat_groups@, m as nat, k as int, v as int);
                    let next = self.candidate_below(unsat_groups@, m as nat, k + 1, v as int);
                    if below {
                        let c = choose|c: int|
                            0 <= c < k && unsat_groups@.contains(c as usize) && open_count(
                                #[trigger] self.clause(c),
                                self.vals(),
                            ) == m && has_open_on(self.clause(c), self.vals(), v as int);
                        assert(0 <= c < k + 1 && unsat_groups@.contains(c as usize) && open_count(
                            self.clause(c),
                            self.vals(),
                        ) == m && has_open_on(self.clause(c), self.vals(), v as int));
                    }
                    if next && !below {
                        let c = choose|c: int|
                            0 <= c < k + 1 && unsat_groups@.contains(c as usize) && open_count(
                                #[trigger] self.clause(c),
                                self.vals(),
                            ) == m && has_open_on(self.clause(c), self.vals(), v as int);
                        assert(c == k);
                        assert(hit);
                        let i = choose|i: int|
                            0 <= i < cl.len() && (#[trigger] cl[i]).var_pos == v as int && lit_open(
                                cl[i],
                                self.vals(),
                            );
                        assert(vars@.contains(v));
                    }
                    if hit && vars@.contains(v) && !below {
                        let i = choose|i: int|
                            0 <= i < cl.len() && (#[trigger] cl[i]).var_pos == v && lit_open(
                                cl[i],
                                self.vals(),
                            );
                        assert(has_open_on(cl, self.vals(), v as int));
                        assert(next);
                    }
                }
            }
            k += 1;
        }
        proof {
            assert(vars@ =~= self.candidates(unsat_groups@, m as nat));
        }
        vars
    }

    /// The next variable to assign: see `next_decision`.
    pub fn get_next_cur(
        &self,
        unsat_groups: &BTreeSet<usize>,
        variable_unsat_groups: &SatLinkedHashSet,
    ) -> (r: CurResult)
        requires
            self.wf(),
            variable_unsat_groups.wf(),
            variable_unsat_groups.num_vars() == self.num_vars(),
            forall|k: usize| unsat_groups@.contains(k) ==> k < self.num_clauses(),
        ensures
            self.next_decision(unsat_groups@, *variable_unsat_groups, r),
    {
        broadcast use group_btree_axioms;

        let n = self.connection_groups.len();
        let mut min_val: Option<usize> = None;
        let mut k: usize = 0;
        while k < n
            invariant
                k <= n,
                n == self.num_clauses(),
                self.wf(),
                forall|c: int| 0 <= c < k ==> !self.urgent(unsat_groups@, c),
                min_val is None ==> forall|c: usize| c < k ==> !unsat_groups@.contains(c),
                min_val is Some ==> {
                    &&& forall|c: int|
                        0 <= c < k && unsat_groups@.contains(c as usize) ==> open_count(
                            #[trigger] self.clause(c),
                            self.vals(),
                        ) >= min_val->0
                    &&& exists|c: int|
                        0 <= c < k && unsat_groups@.contains(c as usize) && open_count(
                            #[trigger] self.clause(c),
                            self.vals(),
                        ) == min_val->0
                },
            decreases n - k,
        {
            if unsat_groups.contains(&k) {
                let count = self.count_open(k);
                if count == 0 {
                    assert(self.urgent(unsat_groups@, k as int));
                    return CurResult {
                        set: true,
                        cur: None,
                        connections_checked: 0,
                        is_uc: false,
                        literal_sign: None,
                        antecedent: Some(k),
                    };
                }
                if count == 1 {
                    let j = self.first_open(k);
                    let l = self.connection_groups[k].connections[j];
                    assert(self.connection_groups@[k as int].connections@[j as int]
                        < self.connections@.len());
                    let c = self.connections[l];
                    assert(self.urgent(unsat_groups@, k as int));
                    assert(self.clause(k as int)[j as int] == c);
                    return CurResult {
                        set: true,
                        cur: Some(c.var_pos),
                        connections_checked: 0,
                        is_uc: true,
                        literal_sign: Some(c.val),
                        antecedent: Some(k),
                    };
                }
                let ghost prev = min_val;
                match min_val {
                    None => {
                        min_val = Some(count);
                    },
                    Some(m) => {
                        if count < m {
                            min_val = Some(count);
                        }
                    },
                }
                proof {
                    if prev is Some && min_val == prev {
                        let c = choose|c: int|
                            0 <= c < k && unsat_groups@.contains(c as usize) && open_count(
                                #[trigger] self.clause(c),
                                self.vals(),
                            ) == min_val->0;
                        assert(0 <= c < k + 1 && unsat_groups@.contains(c as usize) && open_count(
                            self.clause(c),
                            self.vals(),
                        ) == min_val->0);
                    } else {
                        assert(open_count(self.clause(k as int), self.vals()) == min_val->0);
                    }
                }
            }
            k += 1;
        }
        match min_val {
            None => {
                proof {
                    assert(!(exists|c: usize| unsat_groups@.contains(c)));
                }
                CurResult {
                    set: false,
                    cur: None,
                    connections_checked: 0,
                    is_uc: false,
                    literal_sign: None,
                    antecedent: None,
                }
            },
            Some(m) => {
                let min_groups_vars = self.min_group_vars(unsat_groups, m);
                let var_max_deg = self.get_var_max_deg(variable_unsat_groups, &min_groups_vars);
                proof {
                    let c = choose|c: int|
                        0 <= c < n && unsat_groups@.contains(c as usize) && open_count(
                            #[trigger] self.clause(c),
                            self.vals(),
                        ) == m;
                    assert(unsat_groups@.contains(c as usize));
                    assert(self.least_open(unsat_groups@, m as nat));
                    assert(!(exists|c: int| self.urgent(unsat_groups@, c)));
                }
                CurResult {
                    set: true,
                    cur: Some(var_max_deg),
                    connections_checked: 0,
                    is_uc: false,
                    literal_sign: None,
                    antecedent: None,
                }
            },
        }
    }

    /// The polarity to try first for variable `cur`: `true` exactly when,
    /// over the clauses in the set of `cur` in which no literal holds, `cur`
    /// occurs positively at least as often as negatively.
    pub fn get_lcv(&self, cur: &Variable, variable_unsat_groups: &SatLinkedHashSet) -> (b: bool)
        requires
            self.wf(),
            variable_unsat_groups.wf(),
            variable_unsat_groups.num_vars() == self.num_vars(),
            cur.pos < self.num_vars(),
            forall|i: int|
                0 <= i < variable_unsat_groups.list(cur.pos as int).len() ==> (
                #[trigger] variable_unsat_groups.list(cur.pos as int)[i]) < self.num_clauses(),
        ensures
            b == (self.lcv_score(variable_unsat_groups.list(cur.pos as int), cur.pos as int) >= 0),
    {
        let pos = cur.pos;
        let list = variable_unsat_groups.members(pos);
        let n = list.len();
        let mut up: u128 = 0;
        let mut down: u128 = 0;
        let mut i: usize = 0;
        proof {
            assert(list@.subrange(0, 0) =~= Seq::<usize>::empty());
        }
        while i < n
            invariant
                i <= n,
                n == list@.len(),
                self.wf(),
                pos < self.num_vars(),
                forall|i: int| 0 <= i < list@.len() ==> (#[trigger] list@[i]) < self.num_clauses(),
                up <= i * usize::MAX,
                down <= i * usize::MAX,
                self.lcv_score(list@.subrange(0, i as int), pos as int) == up - down,
            decreases n - i,
        {
            let k = list[i];
            proof {
                assert(list@.subrange(0, i + 1).drop_last() =~= list@.subrange(0, i as int));
                assert(list@.subrange(0, i + 1).last() == k);
                lemma_polarity_split(self.clause(k as int), pos as int);
            }
            if !self.group_satisfied(k) {
                let group = &self.connection_groups[k];
                let len = group.connections.len();
                let mut p: usize = 0;
                let mut q: usize = 0;
                let mut j: usize = 0;
                proof {
                    assert(self.clause(k as int).subrange(0, 0) =~= Seq::<
                        crate::connections::Connection,
                    >::empty());
                }
                while j < len
                    invariant
                        j <= len,
                        self.wf(),
                        k < self.num_clauses(),
                        group == &self.connection_groups@[k as int],
                        len == self.clause(k as int).len(),
                        p == positive_on(self.clause(k as int).subrange(0, j as int), pos as int),
                        q == negative_on(self.clause(k as int).subrange(0, j as int), pos as int),
                        p <= j,
                        q <= j,
                    decreases len - j,
                {
                    let l = group.connections[j];
                    assert(self.connection_groups@[k as int].connections@[j as int]
                        < self.connections@.len());
                    let c = self.connections[l];
                    proof {
                        let cl = self.clause(k as int);
                        assert(cl.subrange(0, j + 1).drop_last() =~= cl.subrange(0, j as int));
                        assert(cl.subrange(0, j + 1).last() == c);
                    }
                    if c.var_pos == pos {
                        if c.val {
                            p += 1;
                        } else {
                            q += 1;
                        }
                    }
                    j += 1;
                }
                proof {
                    assert(self.clause(k as int).subrange(0, len as int) =~= self.clause(k as int));
                }
                up = up + p as u128;
                down = down + q as u128;
            }
            i += 1;
        }
        proof {
            assert(list@.subrange(0, n as int) =~= list@);
        }
        up >= down
    }
}

} // verus!

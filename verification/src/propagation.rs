use crate::logic::clause_live;
use crate::logic::clause_true;
use crate::logic::saturated;
use crate::logic::Clause;
use crate::sat_linked_hash_set::SatLinkedHashSet;
use crate::solver::Solver;
use std::collections::BTreeSet;
use vstd::prelude::*;
use vstd::std_specs::btree::group_btree_axioms;

verus! {

/// What the check of an assignment returns: whether no clause of the
/// variable is falsified, the clauses that the assignment newly satisfies,
/// the number of literals looked at, and the falsified clause to learn
/// from, if there is one.
#[derive(Debug)]
pub struct CheckResult {
    pub check: bool,
    pub groups_sat: Vec<usize>,
    pub connections_checked: usize,
    pub min_group_index: Option<usize>,
}

/// The latest trail position, by `vai`, among the variables of the clause
/// other than `pos`; `None` when it has no other variable.
pub open spec fn latest_other(cl: Clause, pos: int, vai: Seq<usize>) -> Option<usize>
    decreases cl.len(),
{
    if cl.len() == 0 {
        None
    } else {
        let r = latest_other(cl.drop_last(), pos, vai);
        let c = cl.last();
        if c.var_pos == pos {
            r
        } else {
            match r {
                None => Some(vai[c.var_pos as int]),
                Some(x) => Some(
                    if vai[c.var_pos as int] > x {
                        vai[c.var_pos as int]
                    } else {
                        x
                    },
                ),
            }
        }
    }
}

/// `a` is an earlier position than `b`; no position at all is earlier than
/// any position.
pub open spec fn earlier(a: Option<usize>, b: Option<usize>) -> bool {
    match (a, b) {
        (None, None) => false,
        (None, Some(_)) => true,
        (Some(_), None) => false,
        (Some(x), Some(y)) => x < y,
    }
}

impl Solver {
    /// Of the clauses `ks`, in their order, those that are in `unsat` and
    /// have a literal that holds.
    pub open spec fn newly_satisfied(&self, ks: Seq<usize>, unsat: Set<usize>) -> Seq<usize>
        decreases ks.len(),
    {
        if ks.len() == 0 {
            Seq::empty()
        } else {
            let r = self.newly_satisfied(ks.drop_last(), unsat);
            if unsat.contains(ks.last()) && clause_true(
                self.clause(ks.last() as int),
                self.vals(),
            ) {
                r.push(ks.last())
            } else {
                r
            }
        }
    }

    /// The number of literals in the clauses `ks`.
    pub open spec fn literal_total(&self, ks: Seq<usize>) -> nat
        decreases ks.len(),
    {
        if ks.len() == 0 {
            0
        } else {
            self.literal_total(ks.drop_last()) + self.clause(ks.last() as int).len()
        }
    }

    /// Clause `list[i]` is the falsified clause to learn from: the first
    /// of the falsified clauses of `list` whose other variables were all
    /// assigned earliest.
    pub open spec fn earliest_conflict(
        &self,
        list: Seq<usize>,
        pos: int,
        vai: Seq<usize>,
        i: int,
    ) -> bool {
        &&& 0 <= i < list.len()
        &&& !clause_live(self.clause(list[i] as int), self.vals())
        &&& forall|o: int|
            0 <= o < list.len() && !clause_live(self.clause(#[trigger] list[o] as int), self.vals())
                ==> {
                &&& !earlier(
                    latest_other(self.clause(list[o] as int), pos, vai),
                    latest_other(self.clause(list[i] as int), pos, vai),
                )
                &&& o < i ==> earlier(
                    latest_other(self.clause(list[i] as int), pos, vai),
                    latest_other(self.clause(list[o] as int), pos, vai),
                )
            }
    }

    /// What the check of the assignment of variable `pos` owes, `list`
    /// being the clauses in the set of `pos`.
    pub open spec fn check_outcome(
        &self,
        list: Seq<usize>,
        unsat: Set<usize>,
        pos: int,
        vai: Seq<usize>,
        r: CheckResult,
    ) -> bool {
        &&& r.check == forall|i: int|
            0 <= i < list.len() ==> clause_live(self.clause(#[trigger] list[i] as int), self.vals())
        &&& r.groups_sat@ == self.newly_satisfied(list, unsat)
        &&& r.connections_checked == saturated(2 * self.literal_total(list))
        &&& r.check ==> r.min_group_index is None
        &&& !r.check ==> r.min_group_index is Some && exists|i: int|
            #![trigger list[i]]
            self.earliest_conflict(list, pos, vai, i) && list[i] == r.min_group_index->0
    }

    /// The latest trail position among the variables of clause `k` other
    /// than `pos`.
    pub fn latest_other_position(&self, k: usize, pos: usize, var_assigned_index: &Vec<usize>) -> (r:
        Option<usize>)
        requires
            self.wf(),
            k < self.num_clauses(),
            var_assigned_index@.len() == self.num_vars(),
        ensures
            r == latest_other(self.clause(k as int), pos as int, var_assigned_index@),
    {
        let group = &self.connection_groups[k];
        let n = group.connections.len();
        let mut r: Option<usize> = None;
        let mut j: usize = 0;
        proof {
            assert(self.clause(k as int).subrange(0, 0) =~= Seq::<crate::connections::Connection>::empty());
        }
        while j < n
            invariant
                j <= n,
                self.wf(),
                k < self.num_clauses(),
                var_assigned_index@.len() == self.num_vars(),
                group == &self.connection_groups@[k as int],
                n == self.clause(k as int).len(),
                r == latest_other(
                    self.clause(k as int).subrange(0, j as int),
                    pos as int,
                    var_assigned_index@,
                ),
            decreases n - j,
        {
            let l = group.connections[j];
            assert(self.connection_groups@[k as int].connections@[j as int] < self.connections@.len());
            let v = self.connections[l].var_pos;
            assert(self.connections@[l as int].var_pos < self.variables@.len());
            proof {
                let cl = self.clause(k as int);
                assert(cl.subrange(0, j + 1).drop_last() =~= cl.subrange(0, j as int));
                assert(cl.subrange(0, j + 1).last() == cl[j as int]);
            }
            if v != pos {
                let a = var_assigned_index[v];
                r = match r {
                    None => Some(a),
                    Some(x) => Some(
                        if a > x {
                            a
                        } else {
                            x
                        },
                    ),
                };
            }
            j += 1;
        }
        proof {
            assert(self.clause(k as int).subrange(0, n as int) =~= self.clause(k as int));
        }
        r
    }

    /// Checks the assignment of variable `pos` against the clauses in its
    /// set: see `check_outcome`.
    pub fn do_check(
        &self,
        unsat_groups: &BTreeSet<usize>,
        var_assigned_index: &Vec<usize>,
        pos: &usize,
        variable_unsat_groups: &SatLinkedHashSet,
    ) -> (r: CheckResult)
        requires
            self.wf(),
            variable_unsat_groups.wf(),
            variable_unsat_groups.num_vars() == self.num_vars(),
            *pos < self.num_vars(),
            var_assigned_index@.len() == self.num_vars(),
            forall|i: int|
                0 <= i < variable_unsat_groups.list(*pos as int).len() ==> (
                #[trigger] variable_unsat_groups.list(*pos as int)[i]) < self.num_clauses(),
        ensures
            self.check_outcome(
                variable_unsat_groups.list(*pos as int),
                unsat_groups@,
                *pos as int,
                var_assigned_index@,
                r,
            ),
    {
        broadcast use group_btree_axioms;

        let list = variable_unsat_groups.members(*pos);
        let n = list.len();
        let mut check = true;
        let mut connections_checked: usize = 0;
        let mut groups_sat: Vec<usize> = Vec::new();
        let mut min_group_index: Option<usize> = None;
        let mut min_key: Option<usize> = None;
        let ghost mut at: int = 0;
        let mut i: usize = 0;
        proof {
            assert(list@.subrange(0, 0) =~= Seq::<usize>::empty());
        }
        while i < n
            invariant
                i <= n,
                n == list@.len(),
                self.wf(),
                var_assigned_index@.len() == self.num_vars(),
                forall|i: int| 0 <= i < list@.len() ==> (#[trigger] list@[i]) < self.num_clauses(),
                check == forall|o: int|
                    0 <= o < i ==> clause_live(self.clause(#[trigger] list@[o] as int), self.vals()),
                groups_sat@ == self.newly_satisfied(list@.subrange(0, i as int), unsat_groups@),
                connections_checked == saturated(
                    2 * self.literal_total(list@.subrange(0, i as int)),
                ),
                check ==> min_group_index is None,
                !check ==> {
                    &&& min_group_index == Some(list@[at])
                    &&& 0 <= at < i
                    &&& !clause_live(self.clause(list@[at] as int), self.vals())
                    &&& min_key == latest_other(
                        self.clause(list@[at] as int),
                        *pos as int,
                        var_assigned_index@,
                    )
                    &&& forall|o: int|
                        0 <= o < i && !clause_live(
                            self.clause(#[trigger] list@[o] as int),
                            self.vals(),
                        ) ==> {
                            &&& !earlier(
                                latest_other(
                                    self.clause(list@[o] as int),
                                    *pos as int,
                                    var_assigned_index@,
                                ),
                                min_key,
                            )
                            &&& o < at ==> earlier(
                                min_key,
                                latest_other(
                                    self.clause(list@[o] as int),
                                    *pos as int,
                                    var_assigned_index@,
                                ),
                            )
                        }
                },
            decreases n - i,
        {
            let group_index = list[i];
            proof {
                assert(list@.subrange(0, i + 1).drop_last() =~= list@.subrange(0, i as int));
                assert(list@.subrange(0, i + 1).last() == group_index);
            }
            let len = self.connection_groups[group_index].connections.len();
            connections_checked = connections_checked.saturating_add(len).saturating_add(len);
            let or_check = self.group_live(group_index);
            let sat_check = self.group_satisfied(group_index);
            if sat_check && unsat_groups.contains(&group_index) {
                groups_sat.push(group_index);
            }
            if !or_check {
                let key = self.latest_other_position(group_index, *pos, var_assigned_index);
                let better = match min_group_index {
                    None => true,
                    Some(_) => match (key, min_key) {
                        (None, Some(_)) => true,
                        (Some(x), Some(y)) => x < y,
                        _ => false,
                    },
                };
                check = false;
                if better {
                    min_group_index = Some(group_index);
                    min_key = key;
                    proof {
                        at = i as int;
                    }
                }
            }
            i += 1;
        }
        proof {
            assert(list@.subrange(0, n as int) =~= list@);
            if !check {
                assert(self.earliest_conflict(list@, *pos as int, var_assigned_index@, at));
            }
        }
        CheckResult { check, groups_sat, connections_checked, min_group_index }
    }

    /// The newly satisfied clauses of `ks` are those of `ks` that are in
    /// `unsat` and have a literal that holds.
    pub proof fn lemma_newly_satisfied(&self, ks: Seq<usize>, unsat: Set<usize>)
        ensures
            forall|k: usize|
                (#[trigger] self.newly_satisfied(ks, unsat).contains(k)) <==> (ks.contains(k)
                    && unsat.contains(k) && clause_true(self.clause(k as int), self.vals())),
        decreases ks.len(),
    {
        let nk = self.newly_satisfied(ks, unsat);
        if ks.len() == 0 {
            assert forall|k: usize|
                (#[trigger] nk.contains(k)) <==> (ks.contains(k) && unsat.contains(k)
                    && clause_true(self.clause(k as int), self.vals())) by {
                if nk.contains(k) {
                    let i = choose|i: int| 0 <= i < nk.len() && nk[i] == k;
                }
                if ks.contains(k) {
                    let i = choose|i: int| 0 <= i < ks.len() && ks[i] == k;
                }
            }
        } else {
            let r = ks.drop_last();
            let x = ks.last();
            self.lemma_newly_satisfied(r, unsat);
            let nr = self.newly_satisfied(r, unsat);
            let keep = unsat.contains(x) && clause_true(self.clause(x as int), self.vals());
            assert(nk == if keep {
                nr.push(x)
            } else {
                nr
            });
            assert forall|k: usize|
                (#[trigger] nk.contains(k)) <==> (ks.contains(k) && unsat.contains(k)
                    && clause_true(self.clause(k as int), self.vals())) by {
                let good = unsat.contains(k) && clause_true(self.clause(k as int), self.vals());
                assert(nr.contains(k) <==> (r.contains(k) && good));
                if nk.contains(k) {
                    let i = choose|i: int| 0 <= i < nk.len() && nk[i] == k;
                    if i < nr.len() {
                        assert(nr[i] == k);
                        assert(nr.contains(k));
                        let j = choose|j: int| 0 <= j < r.len() && r[j] == k;
                        assert(ks[j] == k);
                    } else {
                        assert(k == x);
                        assert(ks[ks.len() - 1] == k);
                    }
                    assert(ks.contains(k) && good);
                }
                if ks.contains(k) && good {
                    let j = choose|j: int| 0 <= j < ks.len() && ks[j] == k;
                    if j < r.len() {
                        assert(r[j] == k);
                        assert(r.contains(k));
                        assert(nr.contains(k));
                        let i = choose|i: int| 0 <= i < nr.len() && nr[i] == k;
                        assert(nk[i] == k);
                    } else {
                        assert(k == x);
                        assert(nk[nk.len() - 1] == k);
                    }
                    assert(nk.contains(k));
                }
            }
        }
    }
}

} // verus!

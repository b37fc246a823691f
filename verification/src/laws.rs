use crate::counting::count_below;
use crate::counting::lemma_count_both_ways;
use crate::counting::lemma_count_ends;
use crate::counting::lemma_count_same;
use crate::counting::lemma_distinct_below;
use crate::counting::lemma_len_is_count;
use crate::counting::lemma_sum_same;
use crate::counting::sum_below;
use crate::learning::once_each;
use crate::logic::clause_within;
use crate::logic::clause_live;
use crate::logic::clause_true;
use crate::logic::clause_unit;
use crate::logic::lit_false;
use crate::logic::lit_open;
use crate::logic::lit_true;
use crate::logic::mentions;
use crate::logic::open_count;
use crate::logic::Clause;
use crate::logic::Values;
use crate::propagation::CheckResult;
use crate::search::Search;
use crate::solver::Solver;
use vstd::prelude::*;

verus! {

/// A clause in which exactly the literal at position `j` is unassigned
/// counts one unassigned literal.
pub proof fn lemma_one_open(cl: Clause, vals: Values, j: int)
    requires
        0 <= j < cl.len(),
        forall|t: int| 0 <= t < cl.len() ==> (lit_open(#[trigger] cl[t], vals) <==> t == j),
    ensures
        open_count(cl, vals) == 1,
    decreases cl.len(),
{
    let r = cl.drop_last();
    if j == cl.len() - 1 {
        lemma_none_open(r, vals);
        assert forall|t: int| 0 <= t < r.len() implies !lit_open(#[trigger] r[t], vals) by {
            assert(r[t] == cl[t]);
        }
    } else {
        assert forall|t: int| 0 <= t < r.len() implies (lit_open(#[trigger] r[t], vals) <==> t
            == j) by {
            assert(r[t] == cl[t]);
        }
        lemma_one_open(r, vals, j);
        assert(!lit_open(cl[cl.len() - 1], vals));
    }
}

/// A clause without an unassigned literal counts none.
pub proof fn lemma_none_open(cl: Clause, vals: Values)
    requires
        forall|t: int| 0 <= t < cl.len() ==> !lit_open(#[trigger] cl[t], vals),
    ensures
        open_count(cl, vals) == 0,
    decreases cl.len(),
{
    if cl.len() > 0 {
        let r = cl.drop_last();
        assert forall|t: int| 0 <= t < r.len() implies !lit_open(#[trigger] r[t], vals) by {
            assert(r[t] == cl[t]);
        }
        lemma_none_open(r, vals);
        assert(!lit_open(cl[cl.len() - 1], vals));
    }
}

impl Search {
    /// The values that the first `upto` entries of the trail give: those of
    /// their variables, and none for any other variable.
    pub open spec fn values_below(&self, s: &Solver, upto: int) -> Values {
        Seq::new(
            s.num_vars(),
            |v: int|
                if self.var_assigned_index@[v] < upto && self.assigned@[self.var_assigned_index@[v] as int]
                    == v {
                    s.vals()[v]
                } else {
                    None
                },
        )
    }

    /// A clause is in the global set of unsatisfied clauses exactly when
    /// it is in the set of every variable that it mentions.
    pub proof fn law_indices_agree(&self, s: &Solver, open: bool, k: int)
        requires
            self.inv(s, open),
            0 <= k < s.num_clauses(),
        ensures
            self.unsat_groups@.contains(k as usize) <==> forall|j: int|
                0 <= j < s.clause(k).len() ==> self.variable_unsat_groups.has(
                    (#[trigger] s.clause(k)[j]).var_pos as int,
                    k,
                ),
    {
        let cl = s.clause(k);
        s.lemma_clause_within(k);
        if self.unsat_groups@.contains(k as usize) {
            assert forall|j: int| 0 <= j < cl.len() implies self.variable_unsat_groups.has(
                (#[trigger] cl[j]).var_pos as int,
                k,
            ) by {
                assert(mentions(cl, cl[j].var_pos as int));
            }
        } else {
            assert(clause_true(cl, self.masked(s, open)));
            let t = choose|t: int| 0 <= t < cl.len() && lit_true(#[trigger] cl[t], self.masked(s, open));
            assert(!self.variable_unsat_groups.has(cl[t].var_pos as int, k));
        }
    }

    /// The index of positions is the inverse of the trail.
    pub proof fn law_trail_index(&self, s: &Solver, open: bool, i: int)
        requires
            self.inv(s, open),
            0 <= i < self.assigned@.len(),
        ensures
            self.var_assigned_index@[self.assigned@[i] as int] == i,
    {
    }

    /// The antecedent of a unit entry is unit under the values of the
    /// entries before it: its literal on the variable of the entry is its
    /// only unassigned literal, and none of its literals holds.
    pub proof fn law_antecedent_unit(&self, s: &Solver, open: bool, i: int)
        requires
            self.inv(s, open),
            0 <= i < self.assigned@.len(),
            self.antecedents@[i].is_uc,
        ensures
            self.antecedents@[i].antecedent is Some,
            clause_unit(
                s.clause(self.antecedents@[i].antecedent->0 as int),
                self.values_below(s, i),
            ),
            mentions(s.clause(self.antecedents@[i].antecedent->0 as int), self.assigned@[i] as int),
    {
        let a = self.antecedents@[i].antecedent->0 as int;
        let cl = s.clause(a);
        let u = self.assigned@[i] as int;
        let below = self.values_below(s, i);
        assert(self.unit_at(s, i));
        s.lemma_clause_within(a);
        assert(self.var_assigned_index@[self.assigned@[i] as int] == i);
        let j = choose|j: int| 0 <= j < cl.len() && (#[trigger] cl[j]).var_pos == u;
        assert forall|t: int| 0 <= t < cl.len() implies (lit_open(#[trigger] cl[t], below) <==> t
            == j) && !lit_true(cl[t], below) by {
            let x = cl[t].var_pos as int;
            if x != u {
                assert(lit_false(cl[t], s.vals()));
                assert(self.var_assigned_index@[x] < i);
                if open {
                    let top = self.assigned@.len() - 1;
                    assert(self.var_assigned_index@[self.assigned@[top] as int] == top);
                    assert(self.masked(s, open)[x] is Some);
                } else {
                    assert(self.masked(s, open)[x] is Some);
                }
                assert(below[x] == s.vals()[x]);
            } else {
                assert(below[x] is None);
            }
        }
        lemma_one_open(cl, below, j);
    }

    /// After a successful check of the assignment of the variable at the
    /// top, every clause that mentions that variable has a literal that is
    /// not falsified.
    pub proof fn law_check_covers(&self, s: &Solver, r: CheckResult, k: int)
        requires
            self.inv(s, true),
            s.check_outcome(
                self.variable_unsat_groups.list(self.assigned@[self.assigned@.len() - 1] as int),
                self.unsat_groups@,
                self.assigned@[self.assigned@.len() - 1] as int,
                self.var_assigned_index@,
                r,
            ),
            r.check,
            0 <= k < s.num_clauses(),
            mentions(s.clause(k), self.assigned@[self.assigned@.len() - 1] as int),
        ensures
            clause_live(s.clause(k), s.vals()),
    {
        let top = self.assigned@.len() - 1;
        let pos = self.assigned@[top] as int;
        let cl = s.clause(k);
        let list = self.variable_unsat_groups.list(pos);
        s.lemma_clause_within(k);
        if self.unsat_groups@.contains(k as usize) {
            assert(k < self.capacity);
            assert(self.variable_unsat_groups.has(pos, k));
            self.variable_unsat_groups.lemma_list_facts(pos);
            assert(self.variable_unsat_groups.capacity(pos) == self.capacity);
            assert(list.contains(k as usize));
            let i = choose|i: int| 0 <= i < list.len() && list[i] == k as usize;
            assert(clause_live(s.clause(list[i] as int), s.vals()));
        } else {
            assert(clause_true(cl, self.masked(s, true)));
            let t = choose|t: int| 0 <= t < cl.len() && lit_true(#[trigger] cl[t], self.masked(s, true));
            assert(lit_true(cl[t], s.vals()));
            assert(!lit_false(cl[t], s.vals()));
        }
    }

    /// The two indices are determined by the clauses and the settled
    /// values: two states of a search over the same clauses in which the
    /// settled variables have the same values hold the same global set and
    /// the same set for every variable. So by taking an assignment back,
    /// which restores the values, both indices are restored.
    pub proof fn law_indices_determined(
        &self,
        s: &Solver,
        open: bool,
        other: &Search,
        t: &Solver,
        other_open: bool,
    )
        requires
            self.inv(s, open),
            other.inv(t, other_open),
            s.clauses() == t.clauses(),
            s.num_vars() == t.num_vars(),
            self.masked(s, open) == other.masked(t, other_open),
            self.capacity == other.capacity,
        ensures
            self.unsat_groups@ == other.unsat_groups@,
            forall|v: int, k: int|
                0 <= v < s.num_vars() && 0 <= k < self.capacity ==> (
                #[trigger] self.variable_unsat_groups.has(v, k)
                    <==> other.variable_unsat_groups.has(v, k)),
            forall|v: int|
                0 <= v < s.num_vars() ==> (#[trigger] self.variable_unsat_groups.list(v)).to_set()
                    == other.variable_unsat_groups.list(v).to_set(),
    {
        assert(s.clauses().len() == s.num_clauses());
        assert(t.clauses().len() == t.num_clauses());
        assert forall|k: int| 0 <= k < s.num_clauses() implies #[trigger] s.clause(k) == t.clause(k) by {
            assert(s.clauses()[k] == t.clauses()[k]);
        }
        assert forall|k: usize|
            self.unsat_groups@.contains(k) <==> other.unsat_groups@.contains(k) by {
            if self.unsat_groups@.contains(k) {
                assert(s.clause(k as int) == t.clause(k as int));
            }
            if other.unsat_groups@.contains(k) {
                assert(s.clause(k as int) == t.clause(k as int));
            }
        }
        assert(self.unsat_groups@ =~= other.unsat_groups@);
        assert forall|v: int, k: int| 0 <= v < s.num_vars() && 0 <= k < self.capacity implies (
        #[trigger] self.variable_unsat_groups.has(v, k) <==> other.variable_unsat_groups.has(
            v,
            k,
        )) by {
            if k < s.num_clauses() {
                assert(s.clause(k) == t.clause(k));
            }
        }
        assert forall|v: int| 0 <= v < s.num_vars() implies (
        #[trigger] self.variable_unsat_groups.list(v)).to_set()
            == other.variable_unsat_groups.list(v).to_set() by {
            self.variable_unsat_groups.lemma_list_facts(v);
            other.variable_unsat_groups.lemma_list_facts(v);
            assert(self.variable_unsat_groups.capacity(v) == self.capacity);
            assert(other.variable_unsat_groups.capacity(v) == other.capacity);
            let a = self.variable_unsat_groups.list(v);
            let b = other.variable_unsat_groups.list(v);
            assert forall|k: usize| a.to_set().contains(k) <==> b.to_set().contains(k) by {
                if a.contains(k) {
                    let i = choose|i: int| 0 <= i < a.len() && a[i] == k;
                    assert(a[i] < self.capacity);
                    assert(self.variable_unsat_groups.has(v, k as int));
                    assert(other.variable_unsat_groups.has(v, k as int));
                    assert(b.contains(k));
                }
                if b.contains(k) {
                    let i = choose|i: int| 0 <= i < b.len() && b[i] == k;
                    assert(b[i] < other.capacity);
                    assert(other.variable_unsat_groups.has(v, k as int));
                    assert(self.variable_unsat_groups.has(v, k as int));
                    assert(a.contains(k));
                }
            }
            assert(a.to_set() =~= b.to_set());
        }
    }

    /// No clause is twice in the list of a variable.
    pub proof fn law_no_clause_twice(&self, s: &Solver, open: bool, v: int)
        requires
            self.inv(s, open),
            0 <= v < s.num_vars(),
        ensures
            self.variable_unsat_groups.list(v).no_duplicates(),
    {
        self.variable_unsat_groups.lemma_list_facts(v);
    }

    /// No unsatisfied clause has two literals on one variable.
    pub open spec fn variables_once(&self, s: &Solver) -> bool {
        forall|k: int, i: int, j: int|
            0 <= k < s.num_clauses() && self.unsat_groups@.contains(k as usize) && 0 <= i < j
                < s.clause(k).len() ==> (#[trigger] s.clause(k)[i]).var_pos != (#[trigger] s.clause(
                k,
            )[j]).var_pos
    }

    /// The lengths of the lists of all variables add up to the number of
    /// literals of all unsatisfied clauses, when no unsatisfied clause has
    /// two literals on one variable.
    pub proof fn law_list_lengths(&self, s: &Solver, open: bool)
        requires
            self.inv(s, open),
            self.variables_once(s),
        ensures
            sum_below(|v: int| self.variable_unsat_groups.list(v).len(), s.num_vars()) == sum_below(
                |k: int|
                    if self.unsat_groups@.contains(k as usize) {
                        s.clause(k).len()
                    } else {
                        0nat
                    },
                s.num_clauses(),
            ),
    {
        let n = s.num_vars();
        let m = s.num_clauses();
        let rel = |v: int, k: int| self.variable_unsat_groups.has(v, k);
        let lists = |v: int| self.variable_unsat_groups.list(v).len();
        let by_row = |v: int| count_below(|k: int| rel(v, k), m);
        let by_col = |k: int| count_below(|v: int| rel(v, k), n);
        let sizes = |k: int|
            if self.unsat_groups@.contains(k as usize) {
                s.clause(k).len()
            } else {
                0nat
            };
        assert forall|v: int| 0 <= v < n implies #[trigger] lists(v) == by_row(v) by {
            self.variable_unsat_groups.lemma_list_facts(v);
            assert(self.variable_unsat_groups.capacity(v) == self.capacity);
            let row = |k: int| rel(v, k);
            lemma_len_is_count(self.variable_unsat_groups.list(v), row, self.capacity as nat);
            assert forall|k: int| m <= k < self.capacity implies !#[trigger] row(k) by {
                assert(self.variable_unsat_groups.has(v, k) <==> (k < s.num_clauses()
                    && self.unsat_groups@.contains(k as usize) && mentions(s.clause(k), v)));
            }
            lemma_count_ends(row, m, self.capacity as nat);
            lemma_count_same(row, |k: int| rel(v, k), m);
        }
        lemma_sum_same(lists, by_row, n);
        lemma_count_both_ways(rel, n, m);
        assert forall|k: int| 0 <= k < m implies #[trigger] by_col(k) == sizes(k) by {
            let col = |v: int| rel(v, k);
            assert(k < self.capacity);
            if self.unsat_groups@.contains(k as usize) {
                let cl = s.clause(k);
                s.lemma_clause_within(k);
                let vars = Seq::new(cl.len(), |j: int| cl[j].var_pos);
                assert(vars.no_duplicates()) by {
                    assert forall|i: int, j: int|
                        0 <= i < vars.len() && 0 <= j < vars.len() && i != j implies vars[i]
                        != vars[j] by {
                        if i < j {
                            assert(cl[i].var_pos != cl[j].var_pos);
                        } else {
                            assert(cl[j].var_pos != cl[i].var_pos);
                        }
                    }
                }
                assert forall|v: int| 0 <= v < n implies (vars.contains(v as usize) <==> #[trigger] col(
                    v,
                )) by {
                    assert(self.variable_unsat_groups.has(v, k) <==> (k < s.num_clauses()
                        && self.unsat_groups@.contains(k as usize) && mentions(s.clause(k), v)));
                    if vars.contains(v as usize) {
                        let j = choose|j: int| 0 <= j < vars.len() && vars[j] == v as usize;
                        assert(cl[j].var_pos == v);
                        assert(mentions(cl, v));
                    }
                    if mentions(cl, v) {
                        let j = choose|j: int| 0 <= j < cl.len() && (#[trigger] cl[j]).var_pos == v;
                        assert(vars[j] == v as usize);
                    }
                }
                assert forall|j: int| 0 <= j < vars.len() implies (#[trigger] vars[j]) < n by {
                    assert(cl[j].var_pos < n);
                }
                lemma_len_is_count(vars, col, n);
                lemma_count_same(col, |v: int| rel(v, k), n);
            } else {
                assert forall|v: int| 0 <= v < n implies !#[trigger] col(v) by {
                    assert(self.variable_unsat_groups.has(v, k) <==> (k < s.num_clauses()
                        && self.unsat_groups@.contains(k as usize) && mentions(s.clause(k), v)));
                }
                lemma_count_ends(col, 0, n);
                lemma_count_same(col, |v: int| rel(v, k), n);
            }
        }
        lemma_sum_same(by_col, sizes, m);
        lemma_sum_same(
            |v: int| self.variable_unsat_groups.list(v).len(),
            lists,
            n,
        );
        lemma_sum_same(
            |k: int|
                if self.unsat_groups@.contains(k as usize) {
                    s.clause(k).len()
                } else {
                    0nat
                },
            sizes,
            m,
        );
        lemma_sum_same(
            |v: int| count_below(|k: int| rel(v, k), m),
            by_row,
            n,
        );
        lemma_sum_same(
            |k: int| count_below(|v: int| rel(v, k), n),
            by_col,
            m,
        );
    }
}

/// The variables of the unassigned literals of the clause, in the order
/// of the literals.
pub open spec fn open_variables(cl: Clause, vals: Values) -> Seq<usize>
    decreases cl.len(),
{
    if cl.len() == 0 {
        Seq::empty()
    } else if lit_open(cl.last(), vals) {
        open_variables(cl.drop_last(), vals).push(cl.last().var_pos)
    } else {
        open_variables(cl.drop_last(), vals)
    }
}

/// The clause has an unassigned literal on variable `v`.
pub open spec fn open_on(cl: Clause, vals: Values, v: usize) -> bool {
    exists|t: int| 0 <= t < cl.len() && lit_open(#[trigger] cl[t], vals) && cl[t].var_pos == v
}

/// The clause has as many unassigned literals as `open_variables` lists
/// variables; each of them has an unassigned literal; and none is listed
/// twice when no two literals are on one variable.
pub proof fn lemma_open_variables(cl: Clause, vals: Values)
    ensures
        open_variables(cl, vals).len() == open_count(cl, vals),
        forall|x: int|
            0 <= x < open_variables(cl, vals).len() ==> open_on(
                cl,
                vals,
                #[trigger] open_variables(cl, vals)[x],
            ),
        once_each(cl) ==> open_variables(cl, vals).no_duplicates(),
    decreases cl.len(),
{
    if cl.len() > 0 {
        let r = cl.drop_last();
        lemma_open_variables(r, vals);
        let before = open_variables(r, vals);
        let all = open_variables(cl, vals);
        assert forall|x: int| 0 <= x < all.len() implies open_on(cl, vals, #[trigger] all[x]) by {
            if x < before.len() {
                assert(open_on(r, vals, before[x]));
                let t = choose|t: int|
                    0 <= t < r.len() && lit_open(#[trigger] r[t], vals) && r[t].var_pos == before[x];
                assert(cl[t] == r[t]);
            } else {
                assert(lit_open(cl[cl.len() - 1], vals));
            }
        }
        if once_each(cl) {
            assert forall|i: int, j: int| 0 <= i < j < r.len() implies (#[trigger] r[i]).var_pos != (
            #[trigger] r[j]).var_pos by {
                assert(r[i] == cl[i]);
                assert(r[j] == cl[j]);
            }
            assert(once_each(r));
            assert forall|x: int, y: int| 0 <= x < all.len() && 0 <= y < all.len() && x != y implies all[x]
                != all[y] by {
                if x < before.len() && y < before.len() {
                    assert(before[x] != before[y]);
                } else {
                    let z = if x < before.len() {
                        x
                    } else {
                        y
                    };
                    assert(open_on(r, vals, before[z]));
                    let t = choose|t: int|
                        0 <= t < r.len() && lit_open(#[trigger] r[t], vals) && r[t].var_pos
                            == before[z];
                    assert(cl[t] == r[t]);
                    assert(cl[t].var_pos != cl[cl.len() - 1].var_pos);
                }
            }
        }
    }
}

/// A clause that is falsified, with no two literals on one variable, after
/// a backtrack that takes the entries from position `kept` on off the
/// trail and clears the values of their variables: every literal is still
/// falsified or has lost its value, and no more literals have lost their
/// value than entries were taken off. So after a backtrack by one entry
/// the clause has at most one unassigned literal.
pub proof fn law_learned_after_backtrack(
    cl: Clause,
    before: Values,
    after: Values,
    trail: Seq<usize>,
    kept: int,
)
    requires
        0 <= kept <= trail.len() <= usize::MAX,
        after.len() == before.len(),
        clause_within(cl, before.len()),
        once_each(cl),
        forall|t: int| 0 <= t < cl.len() ==> lit_false(#[trigger] cl[t], before),
        forall|v: int|
            0 <= v < before.len() ==> #[trigger] after[v] == (if exists|i: int|
                kept <= i < trail.len() && trail[i] == v {
                None
            } else {
                before[v]
            }),
    ensures
        forall|t: int|
            0 <= t < cl.len() ==> lit_false(#[trigger] cl[t], after) || lit_open(cl[t], after),
        open_count(cl, after) <= trail.len() - kept,
{
    assert forall|t: int| 0 <= t < cl.len() implies lit_false(#[trigger] cl[t], after) || lit_open(
        cl[t],
        after,
    ) by {
        assert(lit_false(cl[t], before));
        assert(after[cl[t].var_pos as int] is None || after[cl[t].var_pos as int]
            == before[cl[t].var_pos as int]);
    }
    lemma_open_variables(cl, after);
    let vars = open_variables(cl, after);
    let place = |x: int| choose|i: int| kept <= i < trail.len() && trail[i] == vars[x];
    let places = Seq::new(vars.len(), |x: int| (place(x) - kept) as usize);
    assert forall|x: int| 0 <= x < vars.len() implies kept <= place(x) < trail.len() && trail[place(
        x,
    )] == #[trigger] vars[x] by {
        assert(open_on(cl, after, vars[x]));
        let t = choose|t: int|
            0 <= t < cl.len() && lit_open(#[trigger] cl[t], after) && cl[t].var_pos == vars[x];
        assert(lit_false(cl[t], before));
        assert(after[cl[t].var_pos as int] is None);
    }
    assert(places.no_duplicates()) by {
        assert forall|x: int, y: int| 0 <= x < places.len() && 0 <= y < places.len() && x != y implies places[x]
            != places[y] by {
            assert(trail[place(x)] == vars[x]);
            assert(trail[place(y)] == vars[y]);
            assert(vars[x] != vars[y]);
            assert(places[x] == place(x) - kept);
            assert(places[y] == place(y) - kept);
        }
    }
    assert forall|x: int| 0 <= x < places.len() implies places[x] < (trail.len() - kept) as nat by {
        assert(trail[place(x)] == vars[x]);
    }
    lemma_distinct_below(places, (trail.len() - kept) as nat);
}

} // verus!

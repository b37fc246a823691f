use crate::connections::Connection;
use crate::connections::ConnectionGroup;
use crate::logic::clause_live;
use crate::logic::clause_true;
use crate::logic::clause_within;
use crate::logic::lit_false;
use crate::logic::lit_true;
use crate::logic::mentions;
use crate::logic::model_satisfies;
use crate::logic::Clause;
use crate::logic::Values;
use crate::variable::Variable;
use vstd::prelude::*;

verus! {

/// How a search ended, with its counters.
#[derive(Copy, Clone, Debug, PartialEq, Eq, Structural)]
pub struct SolveResult {
    /// A satisfying assignment was found; the solver's variables hold it.
    pub sat: bool,
    pub connections_checked: u64,
    pub num_backtracks: u64,
}

/// The variables, the pool of literals, the clauses over it, and for each
/// variable the clauses that mention it.
#[derive(Debug)]
pub struct Solver {
    pub variables: Vec<Variable>,
    pub connection_groups: Vec<ConnectionGroup>,
    pub connections: Vec<Connection>,
    pub variable_connections: Vec<Vec<usize>>,
    pub backtracks: usize,
    pub connections_checked: usize,
}

impl Default for Solver {
    fn default() -> (s: Self)
        ensures
            s.wf(),
            s.num_vars() == 0,
            s.num_clauses() == 0,
    {
        Solver::new()
    }
}

impl Solver {
    /// The number of variables.
    pub open spec fn num_vars(&self) -> nat {
        self.variables@.len()
    }

    /// The number of clauses.
    pub open spec fn num_clauses(&self) -> nat {
        self.connection_groups@.len()
    }

    /// The present value of every variable.
    pub open spec fn vals(&self) -> Values {
        Seq::new(self.variables@.len(), |v: int| self.variables@[v].value)
    }

    /// The name of every variable.
    pub open spec fn names(&self) -> Seq<Seq<char>> {
        Seq::new(self.variables@.len(), |v: int| self.variables@[v].name@)
    }

    /// The literals of clause `k`, in the order in which they were given.
    pub open spec fn clause(&self, k: int) -> Clause {
        Seq::new(
            self.connection_groups@[k].connections@.len(),
            |j: int| self.connections@[self.connection_groups@[k].connections@[j] as int],
        )
    }

    /// All clauses.
    pub open spec fn clauses(&self) -> Seq<Clause> {
        Seq::new(self.connection_groups@.len(), |k: int| self.clause(k))
    }

    /// The clauses that mention variable `v`, as listed for it.
    pub open spec fn occurrences(&self, v: int) -> Seq<usize> {
        self.variable_connections@[v]@
    }

    /// The indices are in range, the variables know their index and have
    /// distinct names, and the occurrence lists name, once each, exactly
    /// the clauses that mention the variable.
    pub open spec fn wf(&self) -> bool {
        &&& self.variable_connections@.len() == self.variables@.len()
        &&& forall|l: int|
            0 <= l < self.connections@.len() ==> (#[trigger] self.connections@[l]).var_pos
                < self.variables@.len()
        &&& forall|k: int, j: int|
            0 <= k < self.connection_groups@.len() && 0 <= j
                < self.connection_groups@[k].connections@.len() ==> (
            #[trigger] self.connection_groups@[k].connections@[j]) < self.connections@.len()
        &&& forall|v: int|
            0 <= v < self.variables@.len() ==> (#[trigger] self.variables@[v]).pos == v
        &&& forall|v: int, w: int|
            0 <= v < w < self.variables@.len() ==> (#[trigger] self.variables@[v]).name@ != (
            #[trigger] self.variables@[w]).name@
        &&& forall|v: int|
            0 <= v < self.variables@.len() ==> (#[trigger] self.occurrences(v)).no_duplicates()
        &&& forall|v: int, i: int|
            0 <= v < self.variables@.len() && 0 <= i < self.occurrences(v).len() ==> {
                &&& (#[trigger] self.occurrences(v)[i]) < self.connection_groups@.len()
                &&& mentions(self.clause(self.occurrences(v)[i] as int), v)
            }
        &&& forall|k: int, v: int|
            0 <= k < self.connection_groups@.len() && 0 <= v < self.variables@.len()
                && #[trigger] mentions(self.clause(k), v) ==> self.occurrences(v).contains(
                k as usize,
            )
    }

    /// The solver `t` has the variables of this one, under their names, and
    /// its clauses, under their indices, before any further ones.
    pub open spec fn extended_by(&self, t: &Solver) -> bool {
        &&& t.num_vars() == self.num_vars()
        &&& t.names() == self.names()
        &&& self.num_clauses() <= t.num_clauses()
        &&& forall|k: int| 0 <= k < self.num_clauses() ==> #[trigger] t.clause(k) == self.clause(k)
    }

    /// The total assignment `m`, one value per variable, satisfies the
    /// first `upto` clauses.
    pub open spec fn satisfied_by(&self, m: Seq<bool>, upto: nat) -> bool {
        &&& m.len() == self.num_vars()
        &&& forall|k: int| 0 <= k < upto ==> model_satisfies(m, #[trigger] self.clause(k))
    }

    /// The total assignment `m` satisfies every clause.
    pub open spec fn is_model(&self, m: Seq<bool>) -> bool {
        self.satisfied_by(m, self.num_clauses())
    }

    /// The values of the variables as a total assignment, an unassigned
    /// variable counting as `true`.
    pub open spec fn completed(&self) -> Seq<bool> {
        Seq::new(self.variables@.len(), |v: int| self.variables@[v].value != Some(false))
    }

    /// When every clause has a literal that holds, the values of the
    /// variables, completed, are a model.
    pub proof fn lemma_values_model(&self)
        requires
            self.wf(),
            forall|k: int|
                0 <= k < self.num_clauses() ==> clause_true(#[trigger] self.clause(k), self.vals()),
        ensures
            self.is_model(self.completed()),
    {
        let m = self.completed();
        assert forall|k: int| 0 <= k < self.num_clauses() implies model_satisfies(
            m,
            #[trigger] self.clause(k),
        ) by {
            let cl = self.clause(k);
            self.lemma_clause_within(k);
            let t = choose|t: int| 0 <= t < cl.len() && lit_true(#[trigger] cl[t], self.vals());
            assert(m[cl[t].var_pos as int] == cl[t].val);
        }
    }

    /// Every clause names only variables of the solver.
    pub proof fn lemma_clause_within(&self, k: int)
        requires
            self.wf(),
            0 <= k < self.num_clauses(),
        ensures
            clause_within(self.clause(k), self.num_vars()),
            self.vals().len() == self.num_vars(),
    {
        assert forall|j: int| 0 <= j < self.clause(k).len() implies (#[trigger] self.clause(
            k,
        )[j]).var_pos < self.num_vars() by {
            let l = self.connection_groups@[k].connections@[j];
            assert(l < self.connections@.len());
            assert(self.connections@[l as int].var_pos < self.variables@.len());
        }
    }

    /// A solver without variables and clauses.
    pub fn new() -> (s: Self)
        ensures
            s.wf(),
            s.num_vars() == 0,
            s.num_clauses() == 0,
            s.connections@.len() == 0,
            s.backtracks == 0,
            s.connections_checked == 0,
    {
        Solver {
            variables: Vec::new(),
            connection_groups: Vec::new(),
            connections: Vec::new(),
            variable_connections: Vec::new(),
            backtracks: 0,
            connections_checked: 0,
        }
    }

    /// The index of the variable called `name`, which is added, unassigned,
    /// behind the others when no variable has that name yet.
    pub fn add_variable(&mut self, name: String) -> (r: Option<usize>)
        requires
            old(self).wf(),
        ensures
            final(self).wf(),
            r is Some,
            r->0 < final(self).num_vars(),
            final(self).names()[r->0 as int] == name@,
            old(self).names().contains(name@) ==> *final(self) == *old(self),
            !old(self).names().contains(name@) ==> {
                &&& r->0 == old(self).num_vars()
                &&& final(self).names() == old(self).names().push(name@)
                &&& final(self).vals() == old(self).vals().push(None)
                &&& final(self).occurrences(r->0 as int) == Seq::<usize>::empty()
            },
            final(self).num_vars() >= old(self).num_vars(),
            final(self).names().subrange(0, old(self).num_vars() as int) == old(self).names(),
            final(self).vals().subrange(0, old(self).num_vars() as int) == old(self).vals(),
            final(self).connections == old(self).connections,
            final(self).connection_groups == old(self).connection_groups,
            final(self).backtracks == old(self).backtracks,
            final(self).connections_checked == old(self).connections_checked,
    {
        let n = self.variables.len();
        let mut i: usize = 0;
        while i < n
            invariant
                i <= n,
                n == self.variables@.len(),
                *self == *old(self),
                old(self).wf(),
                forall|j: int| 0 <= j < i ==> self.variables@[j].name@ != name@,
            decreases n - i,
        {
            if self.variables[i].name == name {
                proof {
                    assert(self.names()[i as int] == name@);
                    assert(self.names().subrange(0, n as int) =~= self.names());
                    assert(self.vals().subrange(0, n as int) =~= self.vals());
                }
                return Some(i);
            }
            i += 1;
        }
        proof {
            if old(self).names().contains(name@) {
                let j = choose|j: int|
                    0 <= j < old(self).names().len() && old(self).names()[j] == name@;
                assert(self.variables@[j].name@ != name@);
            }
        }
        let mut new_var = Variable::new(name);
        new_var.pos = n;
        self.variables.push(new_var);
        self.variable_connections.push(Vec::new());
        proof {
            assert(final(self).names() =~= old(self).names().push(name@));
            assert(final(self).vals() =~= old(self).vals().push(None));
            assert(final(self).names().subrange(0, n as int) =~= old(self).names());
            assert(final(self).vals().subrange(0, n as int) =~= old(self).vals());
            assert forall|k: int| 0 <= k < self.connection_groups@.len() implies #[trigger] self.clause(k)
                == old(self).clause(k) by {
                assert(self.clause(k) =~= old(self).clause(k));
            }
            assert forall|v: int| 0 <= v < n implies #[trigger] self.occurrences(v) == old(
                self,
            ).occurrences(v) by {}
            assert forall|v: int, w: int| 0 <= v < w < self.variables@.len() implies (
            #[trigger] self.variables@[v]).name@ != (#[trigger] self.variables@[w]).name@ by {
                if w < n {
                    assert(old(self).variables@[v].name@ != old(self).variables@[w].name@);
                }
            }
            assert forall|v: int, i: int|
                0 <= v < self.variables@.len() && 0 <= i < self.occurrences(v).len() implies {
                &&& (#[trigger] self.occurrences(v)[i]) < self.connection_groups@.len()
                &&& mentions(self.clause(self.occurrences(v)[i] as int), v)
            } by {
                assert(v < n);
                assert(self.occurrences(v) == old(self).occurrences(v));
                let k = old(self).occurrences(v)[i];
                assert(mentions(old(self).clause(k as int), v));
                assert(self.clause(k as int) == old(self).clause(k as int));
            }
            assert forall|k: int, v: int|
                0 <= k < self.connection_groups@.len() && 0 <= v < self.variables@.len()
                    && #[trigger] mentions(self.clause(k), v) implies self.occurrences(v).contains(
                k as usize,
            ) by {
                assert(self.clause(k) == old(self).clause(k));
                let j = choose|j: int|
                    0 <= j < self.clause(k).len() && (#[trigger] self.clause(k)[j]).var_pos == v;
                old(self).lemma_clause_within(k);
                assert(old(self).clause(k)[j].var_pos < n);
                assert(self.occurrences(v) == old(self).occurrences(v));
            }
        }
        Some(n)
    }

    /// Whether one of the first `j` of `literals` is on variable `v`.
    pub open spec fn named_among(literals: Seq<Connection>, j: int, v: int) -> bool {
        exists|i: int| 0 <= i < j && (#[trigger] literals[i]).var_pos == v
    }

    /// Appends a clause with the given literals, in their order, and returns
    /// its index.
    pub fn add_connection_group(&mut self, literals: &Vec<Connection>) -> (k: usize)
        requires
            old(self).wf(),
            clause_within(literals@, old(self).num_vars()),
        ensures
            final(self).wf(),
            k == old(self).num_clauses(),
            final(self).num_clauses() == old(self).num_clauses() + 1,
            final(self).clause(k as int) == literals@,
            forall|i: int|
                0 <= i < old(self).num_clauses() ==> #[trigger] final(self).clause(i) == old(
                    self,
                ).clause(i),
            final(self).variables == old(self).variables,
            final(self).backtracks == old(self).backtracks,
            final(self).connections_checked == old(self).connections_checked,
            forall|v: int|
                0 <= v < old(self).num_vars() ==> #[trigger] final(self).occurrences(v) == (
                if mentions(literals@, v) {
                    old(self).occurrences(v).push(k)
                } else {
                    old(self).occurrences(v)
                }),
    {
        let k = self.connection_groups.len();
        let ghost base = self.connections@.len();
        let mut con_group = ConnectionGroup::new();
        let n = literals.len();
        let mut j: usize = 0;
        while j < n
            invariant
                j <= n,
                n == literals@.len(),
                k == old(self).connection_groups@.len(),
                base == old(self).connections@.len(),
                old(self).wf(),
                clause_within(literals@, old(self).num_vars()),
                self.variables == old(self).variables,
                self.connection_groups == old(self).connection_groups,
                self.backtracks == old(self).backtracks,
                self.connections_checked == old(self).connections_checked,
                self.variable_connections@.len() == old(self).variable_connections@.len(),
                self.connections@ == old(self).connections@ + literals@.subrange(0, j as int),
                con_group.connections@.len() == j,
                forall|i: int| 0 <= i < j ==> (#[trigger] con_group.connections@[i]) == base + i,
                forall|v: int|
                    0 <= v < old(self).num_vars() ==> #[trigger] self.occurrences(v) == (
                    if Self::named_among(literals@, j as int, v) {
                        old(self).occurrences(v).push(k)
                    } else {
                        old(self).occurrences(v)
                    }),
            decreases n - j,
        {
            let ghost start = *self;
            let connection = literals[j];
            let var_pos = connection.var_pos;
            assert(literals@[j as int].var_pos < old(self).num_vars());
            let ghost o = old(self).occurrences(var_pos as int);
            let ghost named = Self::named_among(literals@, j as int, var_pos as int);
            assert(self.occurrences(var_pos as int) == (if named {
                o.push(k)
            } else {
                o
            }));
            self.connections.push(connection);
            let ghost before = *self;
            let occ_len = self.variable_connections[var_pos].len();
            if occ_len == 0 || self.variable_connections[var_pos][occ_len - 1] != k {
                proof {
                    if named {
                        assert(o.push(k)[o.len() as int] == k);
                    }
                }
                self.variable_connections[var_pos].push(k);
            } else {
                proof {
                    if !named {
                        assert(o[occ_len - 1] < k);
                    }
                }
            }
            let idx = self.connections.len() - 1;
            con_group.connections.push(idx);
            proof {
                assert(self.connections@ =~= old(self).connections@ + literals@.subrange(
                    0,
                    j + 1,
                ));
                assert forall|v: int| 0 <= v < old(self).num_vars() implies #[trigger] self.occurrences(
                    v,
                ) == (if Self::named_among(literals@, j + 1, v) {
                    old(self).occurrences(v).push(k)
                } else {
                    old(self).occurrences(v)
                }) by {
                    assert(start.occurrences(v) == (if Self::named_among(literals@, j as int, v) {
                        old(self).occurrences(v).push(k)
                    } else {
                        old(self).occurrences(v)
                    }));
                    if v == var_pos {
                        assert(Self::named_among(literals@, j + 1, v));
                    } else {
                        assert(self.occurrences(v) == start.occurrences(v));
                        if Self::named_among(literals@, j + 1, v) {
                            let i = choose|i: int|
                                0 <= i < j + 1 && (#[trigger] literals@[i]).var_pos == v;
                            assert(i < j);
                        }
                        if Self::named_among(literals@, j as int, v) {
                            let i = choose|i: int|
                                0 <= i < j && (#[trigger] literals@[i]).var_pos == v;
                        }
                    }
                }
            }
            j += 1;
        }
        let ghost filled = *self;
        self.connection_groups.push(con_group);
        proof {
            assert forall|v: int| 0 <= v < old(self).num_vars() implies #[trigger] self.occurrences(v)
                == (if mentions(literals@, v) {
                old(self).occurrences(v).push(k)
            } else {
                old(self).occurrences(v)
            }) by {
                assert(self.occurrences(v) == filled.occurrences(v));
                if Self::named_among(literals@, n as int, v) {
                    let i = choose|i: int| 0 <= i < n && (#[trigger] literals@[i]).var_pos == v;
                }
                if mentions(literals@, v) {
                    let i = choose|i: int|
                        0 <= i < literals@.len() && (#[trigger] literals@[i]).var_pos == v;
                }
            }
            assert(literals@.subrange(0, n as int) =~= literals@);
            assert(self.clause(k as int) =~= literals@);
            assert forall|i: int| 0 <= i < old(self).num_clauses() implies #[trigger] self.clause(i)
                == old(self).clause(i) by {
                assert forall|j: int| 0 <= j < old(self).clause(i).len() implies self.clause(i)[j]
                    == old(self).clause(i)[j] by {
                    assert(old(self).connection_groups@[i].connections@[j] < base);
                }
                assert(self.clause(i) =~= old(self).clause(i));
            }
            assert forall|v: int| 0 <= v < old(self).num_vars() implies (Self::named_among(
                literals@,
                n as int,
                v,
            ) <==> mentions(literals@, v)) by {
                if Self::named_among(literals@, n as int, v) {
                    let i = choose|i: int| 0 <= i < n && (#[trigger] literals@[i]).var_pos == v;
                }
                if mentions(literals@, v) {
                    let i = choose|i: int|
                        0 <= i < literals@.len() && (#[trigger] literals@[i]).var_pos == v;
                }
            }
            assert forall|v: int| 0 <= v < self.variables@.len() implies (
            #[trigger] self.occurrences(v)).no_duplicates() by {
                let o = old(self).occurrences(v);
                assert(o.no_duplicates());
                if mentions(literals@, v) {
                    assert forall|a: int, b: int|
                        0 <= a < o.len() + 1 && 0 <= b < o.len() + 1 && a != b implies o.push(k)[a]
                        != o.push(k)[b] by {
                        if a < o.len() {
                            assert(o[a] < k);
                        }
                        if b < o.len() {
                            assert(o[b] < k);
                        }
                    }
                }
            }
            assert forall|v: int, i: int|
                0 <= v < self.variables@.len() && 0 <= i < self.occurrences(v).len() implies {
                &&& (#[trigger] self.occurrences(v)[i]) < self.connection_groups@.len()
                &&& mentions(self.clause(self.occurrences(v)[i] as int), v)
            } by {
                let o = old(self).occurrences(v);
                if i < o.len() {
                    assert(o[i] < k);
                    assert(mentions(old(self).clause(o[i] as int), v));
                    assert(self.clause(o[i] as int) == old(self).clause(o[i] as int));
                }
            }
            assert forall|c: int, v: int|
                0 <= c < self.connection_groups@.len() && 0 <= v < self.variables@.len()
                    && #[trigger] mentions(self.clause(c), v) implies self.occurrences(v).contains(
                c as usize,
            ) by {
                let o = old(self).occurrences(v);
                if c < k {
                    assert(self.clause(c) == old(self).clause(c));
                    assert(o.contains(c as usize));
                    let i = choose|i: int| 0 <= i < o.len() && o[i] == c as usize;
                    assert(self.occurrences(v)[i] == c as usize);
                } else {
                    assert(self.occurrences(v)[o.len() as int] == k);
                }
            }
            assert forall|c: int, j: int|
                0 <= c < self.connection_groups@.len() && 0 <= j
                    < self.connection_groups@[c].connections@.len() implies (
            #[trigger] self.connection_groups@[c].connections@[j]) < self.connections@.len() by {
                if c < k {
                    assert(old(self).connection_groups@[c].connections@[j] < base);
                }
            }
            assert forall|l: int| 0 <= l < self.connections@.len() implies (
            #[trigger] self.connections@[l]).var_pos < self.variables@.len() by {
                if l < base {
                    assert(old(self).connections@[l].var_pos < old(self).variables@.len());
                } else {
                    assert(self.connections@[l] == literals@[l - base]);
                }
            }
        }
        k
    }

    /// Whether literal `connection` is not falsified: `Some(true)` when its
    /// variable is unassigned or has the literal's value, `Some(false)` when
    /// it has the other value, `None` when no such literal or variable
    /// exists.
    pub fn check_connection(&self, connection: usize) -> (r: Option<bool>)
        ensures
            r is Some <==> (connection < self.connections@.len()
                && self.connections@[connection as int].var_pos < self.variables@.len()),
            r is Some ==> r->0 == !lit_false(self.connections@[connection as int], self.vals()),
    {
        if connection >= self.connections.len() {
            return None;
        }
        let c = self.connections[connection];
        if c.var_pos >= self.variables.len() {
            return None;
        }
        match self.variables[c.var_pos].value {
            None => Some(true),
            Some(b) => Some(b == c.val),
        }
    }

    /// Whether literal `connection` holds: `Some(true)` when its variable
    /// has the literal's value, `Some(false)` when it is unassigned or has
    /// the other value, `None` when no such literal or variable exists.
    pub fn check_connection_not_null(&self, connection: usize) -> (r: Option<bool>)
        ensures
            r is Some <==> (connection < self.connections@.len()
                && self.connections@[connection as int].var_pos < self.variables@.len()),
            r is Some ==> r->0 == lit_true(self.connections@[connection as int], self.vals()),
    {
        if connection >= self.connections.len() {
            return None;
        }
        let c = self.connections[connection];
        if c.var_pos >= self.variables.len() {
            return None;
        }
        match self.variables[c.var_pos].value {
            None => Some(false),
            Some(b) => Some(b == c.val),
        }
    }

    /// Whether clause `k` has a literal that holds.
    pub fn group_satisfied(&self, k: usize) -> (b: bool)
        requires
            self.wf(),
            k < self.num_clauses(),
        ensures
            b == clause_true(self.clause(k as int), self.vals()),
    {
        let group = &self.connection_groups[k];
        let n = group.connections.len();
        let mut j: usize = 0;
        while j < n
            invariant
                j <= n,
                self.wf(),
                k < self.num_clauses(),
                group == &self.connection_groups@[k as int],
                n == self.clause(k as int).len(),
                forall|i: int| 0 <= i < j ==> !lit_true(#[trigger] self.clause(k as int)[i], self.vals()),
            decreases n - j,
        {
            let r = self.check_connection_not_null(group.connections[j]);
            assert(self.connection_groups@[k as int].connections@[j as int] < self.connections@.len());
            match r {
                Some(true) => {
                    assert(lit_true(self.clause(k as int)[j as int], self.vals()));
                    return true;
                },
                _ => {},
            }
            j += 1;
        }
        false
    }

    /// Whether clause `k` has a literal that is not falsified.
    pub fn group_live(&self, k: usize) -> (b: bool)
        requires
            self.wf(),
            k < self.num_clauses(),
        ensures
            b == clause_live(self.clause(k as int), self.vals()),
    {
        let group = &self.connection_groups[k];
        let n = group.connections.len();
        let mut j: usize = 0;
        while j < n
            invariant
                j <= n,
                self.wf(),
                k < self.num_clauses(),
                group == &self.connection_groups@[k as int],
                n == self.clause(k as int).len(),
                forall|i: int| 0 <= i < j ==> lit_false(#[trigger] self.clause(k as int)[i], self.vals()),
            decreases n - j,
        {
            let r = self.check_connection(group.connections[j]);
            assert(self.connection_groups@[k as int].connections@[j as int] < self.connections@.len());
            match r {
                Some(true) => {
                    assert(!lit_false(self.clause(k as int)[j as int], self.vals()));
                    return true;
                },
                _ => {},
            }
            j += 1;
        }
        false
    }

    /// Gives every unassigned variable the value `true`.
    pub fn default_unassigned(&mut self)
        requires
            old(self).wf(),
        ensures
            final(self).wf(),
            final(self).num_vars() == old(self).num_vars(),
            final(self).names() == old(self).names(),
            final(self).connection_groups == old(self).connection_groups,
            final(self).connections == old(self).connections,
            final(self).variable_connections == old(self).variable_connections,
            final(self).backtracks == old(self).backtracks,
            final(self).connections_checked == old(self).connections_checked,
            forall|v: int|
                0 <= v < old(self).num_vars() ==> #[trigger] final(self).vals()[v] == Some(
                    match old(self).vals()[v] {
                        Some(x) => x,
                        None => true,
                    },
                ),
    {
        let n = self.variables.len();
        let mut i: usize = 0;
        while i < n
            invariant
                i <= n,
                n == old(self).variables@.len(),
                self.variables@.len() == n,
                old(self).wf(),
                self.connection_groups == old(self).connection_groups,
                self.connections == old(self).connections,
                self.variable_connections == old(self).variable_connections,
                self.backtracks == old(self).backtracks,
                self.connections_checked == old(self).connections_checked,
                forall|v: int|
                    0 <= v < n ==> (#[trigger] self.variables@[v]).name == old(
                        self,
                    ).variables@[v].name && self.variables@[v].pos == old(self).variables@[v].pos,
                forall|v: int|
                    0 <= v < i ==> (#[trigger] self.variables@[v]).value == Some(
                        match old(self).variables@[v].value {
                            Some(x) => x,
                            None => true,
                        },
                    ),
                forall|v: int|
                    i <= v < n ==> (#[trigger] self.variables@[v]).value == old(
                        self,
                    ).variables@[v].value,
            decreases n - i,
        {
            if self.variables[i].value.is_none() {
                self.variables[i].value = Some(true);
            }
            i += 1;
        }
        proof {
            assert(self.names() =~= old(self).names());
            old(self).lemma_same_formula(*self);
        }
    }

    /// A solver with the same clauses, occurrence lists, names and indices
    /// is well formed too, whatever the values.
    pub proof fn lemma_same_formula(&self, other: Solver)
        requires
            self.wf(),
            other.connection_groups == self.connection_groups,
            other.connections == self.connections,
            other.variable_connections == self.variable_connections,
            other.variables@.len() == self.variables@.len(),
            forall|v: int|
                0 <= v < self.variables@.len() ==> (#[trigger] other.variables@[v]).name@
                    == self.variables@[v].name@ && other.variables@[v].pos
                    == self.variables@[v].pos,
        ensures
            other.wf(),
            forall|k: int| 0 <= k < self.num_clauses() ==> #[trigger] other.clause(k) == self.clause(k),
    {
        assert forall|k: int| 0 <= k < self.connection_groups@.len() implies #[trigger] other.clause(k)
            == self.clause(k) by {
            assert(other.clause(k) =~= self.clause(k));
        }
        assert forall|v: int, w: int| 0 <= v < w < other.variables@.len() implies (
        #[trigger] other.variables@[v]).name@ != (#[trigger] other.variables@[w]).name@ by {
            assert(self.variables@[v].name@ != self.variables@[w].name@);
        }
        assert forall|v: int| 0 <= v < other.variables@.len() implies (
        #[trigger] other.variables@[v]).pos == v by {
            assert(self.variables@[v].pos == v);
        }
        assert forall|v: int| 0 <= v < other.variables@.len() implies #[trigger] other.occurrences(v)
            == self.occurrences(v) by {}
        assert forall|v: int| 0 <= v < other.variables@.len() implies (
        #[trigger] other.occurrences(v)).no_duplicates() by {
            assert(self.occurrences(v).no_duplicates());
        }
        assert forall|v: int, i: int|
            0 <= v < other.variables@.len() && 0 <= i < other.occurrences(v).len() implies {
            &&& (#[trigger] other.occurrences(v)[i]) < other.connection_groups@.len()
            &&& mentions(other.clause(other.occurrences(v)[i] as int), v)
        } by {
            let k = self.occurrences(v)[i];
            assert(mentions(self.clause(k as int), v));
            assert(other.clause(k as int) == self.clause(k as int));
        }
        assert forall|k: int, v: int|
            0 <= k < other.connection_groups@.len() && 0 <= v < other.variables@.len()
                && #[trigger] mentions(other.clause(k), v) implies other.occurrences(v).contains(
            k as usize,
        ) by {
            assert(other.clause(k) == self.clause(k));
            assert(mentions(self.clause(k), v));
            assert(other.occurrences(v) == self.occurrences(v));
        }
    }

    /// Whether every clause has a literal that holds.
    pub fn all_satisfied(&self) -> (b: bool)
        requires
            self.wf(),
        ensures
            b == forall|k: int|
                0 <= k < self.num_clauses() ==> clause_true(#[trigger] self.clause(k), self.vals()),
    {
        let m = self.connection_groups.len();
        let mut k: usize = 0;
        while k < m
            invariant
                k <= m,
                m == self.connection_groups@.len(),
                self.wf(),
                forall|c: int| 0 <= c < k ==> clause_true(#[trigger] self.clause(c), self.vals()),
            decreases m - k,
        {
            if !self.group_satisfied(k) {
                return false;
            }
            k += 1;
        }
        true
    }

    /// Gives every unassigned variable the value `true`, then tells whether
    /// every clause has a literal that holds.
    pub fn final_check(&mut self) -> (b: bool)
        requires
            old(self).wf(),
        ensures
            final(self).wf(),
            final(self).num_vars() == old(self).num_vars(),
            final(self).names() == old(self).names(),
            final(self).connection_groups == old(self).connection_groups,
            final(self).connections == old(self).connections,
            final(self).variable_connections == old(self).variable_connections,
            final(self).backtracks == old(self).backtracks,
            final(self).connections_checked == old(self).connections_checked,
            forall|v: int|
                0 <= v < old(self).num_vars() ==> #[trigger] final(self).vals()[v] == Some(
                    match old(self).vals()[v] {
                        Some(x) => x,
                        None => true,
                    },
                ),
            b == forall|k: int|
                0 <= k < final(self).num_clauses() ==> clause_true(
                    #[trigger] final(self).clause(k),
                    final(self).vals(),
                ),
    {
        self.default_unassigned();
        self.all_satisfied()
    }

    /// The polarity of the first literal of clause `k` on variable `pos`.
    pub fn literal_on(&self, k: usize, pos: usize) -> (r: Option<bool>)
        requires
            self.wf(),
            k < self.num_clauses(),
        ensures
            r is Some <==> mentions(self.clause(k as int), pos as int),
            r is Some ==> exists|j: int|
                0 <= j < self.clause(k as int).len() && (#[trigger] self.clause(k as int)[j]).var_pos
                    == pos && self.clause(k as int)[j].val == r->0 && forall|i: int|
                    0 <= i < j ==> (#[trigger] self.clause(k as int)[i]).var_pos != pos,
    {
        let group = &self.connection_groups[k];
        let n = group.connections.len();
        let mut j: usize = 0;
        while j < n
            invariant
                j <= n,
                self.wf(),
                k < self.num_clauses(),
                group == &self.connection_groups@[k as int],
                n == self.clause(k as int).len(),
                forall|i: int| 0 <= i < j ==> (#[trigger] self.clause(k as int)[i]).var_pos != pos,
            decreases n - j,
        {
            let l = group.connections[j];
            assert(self.connection_groups@[k as int].connections@[j as int] < self.connections@.len());
            let c = self.connections[l];
            if c.var_pos == pos {
                assert(self.clause(k as int)[j as int] == c);
                return Some(c.val);
            }
            j += 1;
        }
        None
    }
}

} // verus!

use crate::antecedent::Antecedent;
use crate::connections::Connection;
use crate::connections::ConnectionGroup;
use crate::logic::lit_false;
use crate::logic::lit_true;
use crate::logic::model_satisfies;
use crate::logic::Clause;
use crate::logic::Values;
use crate::sat_linked_hash_set::NIL;
use std::collections::BTreeSet;
use vstd::prelude::*;
use vstd::std_specs::btree::group_btree_axioms;

verus! {

/// The literals of clause `k` of `groups` over the pool `connections`.
pub open spec fn clause_of(
    groups: Seq<ConnectionGroup>,
    connections: Seq<Connection>,
    k: int,
) -> Clause {
    Seq::new(groups[k].connections@.len(), |j: int| connections[groups[k].connections@[j] as int])
}

/// Under `vals` the clause forces variable `u`: it has one literal on `u`,
/// which holds, and every other literal is falsified. With `u` no variable
/// (`-1`) it says that every literal is falsified.
pub open spec fn forces(cl: Clause, vals: Values, u: int) -> bool {
    &&& forall|t: int|
        0 <= t < cl.len() ==> if (#[trigger] cl[t]).var_pos == u {
            lit_true(cl[t], vals)
        } else {
            lit_false(cl[t], vals)
        }
    &&& forall|t1: int, t2: int|
        0 <= t1 < cl.len() && 0 <= t2 < cl.len() && (#[trigger] cl[t1]).var_pos == u && (
        #[trigger] cl[t2]).var_pos == u ==> t1 == t2
}

/// Under `vals` clause `ant_k` is falsified, and the antecedent of every
/// unit entry of the trail forces the variable of that entry.
pub open spec fn conflict_state(
    assigned: Seq<usize>,
    antecedents: Seq<Antecedent>,
    groups: Seq<ConnectionGroup>,
    connections: Seq<Connection>,
    ant_k: int,
    vals: Values,
) -> bool {
    &&& forces(clause_of(groups, connections, ant_k), vals, -1)
    &&& forall|p: int|
        0 <= p < assigned.len() && (#[trigger] antecedents[p]).is_uc ==> forces(
            clause_of(groups, connections, antecedents[p].antecedent->0 as int),
            vals,
            assigned[p] as int,
        )
}

/// The learned set, one literal per variable (`NIL` for none), is
/// consistent with the pool.
pub open spec fn keyed(lit_of: Seq<usize>, connections: Seq<Connection>) -> bool {
    forall|v: int|
        0 <= v < lit_of.len() && (#[trigger] lit_of[v]) != NIL ==> lit_of[v] < connections.len()
            && connections[lit_of[v] as int].var_pos == v
}

/// Every literal of the learned set is falsified under `vals`.
pub open spec fn learned_false(lit_of: Seq<usize>, connections: Seq<Connection>, vals: Values) -> bool {
    forall|v: int|
        0 <= v < lit_of.len() && (#[trigger] lit_of[v]) != NIL ==> lit_false(
            connections[lit_of[v] as int],
            vals,
        )
}

/// What the inputs of the analysis must satisfy: the indices are in range,
/// the trail is not empty, and every unit entry has its antecedent.
pub open spec fn analysis_inputs(
    assigned: Seq<usize>,
    ant_k: usize,
    antecedents: Seq<Antecedent>,
    var_assigned_index: Seq<usize>,
    groups: Seq<ConnectionGroup>,
    connections: Seq<Connection>,
) -> bool {
    &&& 0 < assigned.len() <= antecedents.len()
    &&& forall|p: int| 0 <= p < assigned.len() ==> (#[trigger] assigned[p]) < var_assigned_index.len()
    &&& forall|v: int|
        0 <= v < var_assigned_index.len() ==> (#[trigger] var_assigned_index[v]) < antecedents.len()
    &&& forall|l: int|
        0 <= l < connections.len() ==> (#[trigger] connections[l]).var_pos < var_assigned_index.len()
    &&& forall|k: int, j: int|
        0 <= k < groups.len() && 0 <= j < groups[k].connections@.len() ==> (
        #[trigger] groups[k].connections@[j]) < connections.len()
    &&& ant_k < groups.len()
    &&& forall|p: int|
        0 <= p < assigned.len() && (#[trigger] antecedents[p]).is_uc ==> antecedents[p].antecedent
            is Some && antecedents[p].antecedent->0 < groups.len()
}

/// The clause learned from a conflict, as the set of its literals.
#[derive(Debug)]
pub struct ImplicationGraph {
    pub learned: BTreeSet<usize>,
}

/// The total assignment `m` makes the literal true.
pub open spec fn lit_holds(c: Connection, m: Seq<bool>) -> bool {
    m[c.var_pos as int] == c.val
}

/// The total assignment `m` makes a literal of the learned set true.
pub open spec fn holds_some(lit_of: Seq<usize>, connections: Seq<Connection>, m: Seq<bool>) -> bool {
    exists|v: int|
        0 <= v < lit_of.len() && (#[trigger] lit_of[v]) != NIL && lit_holds(
            connections[lit_of[v] as int],
            m,
        )
}

/// The total assignment `m` makes true a literal whose index is in
/// `learned`.
pub open spec fn set_holds(learned: Set<usize>, connections: Seq<Connection>, m: Seq<bool>) -> bool {
    exists|l: usize| #[trigger] learned.contains(l) && lit_holds(connections[l as int], m)
}

/// The total assignment `m` satisfies clause `ant_k` and the antecedent of
/// every unit entry of the trail.
pub open spec fn premises_hold(
    assigned: Seq<usize>,
    antecedents: Seq<Antecedent>,
    groups: Seq<ConnectionGroup>,
    connections: Seq<Connection>,
    ant_k: int,
    m: Seq<bool>,
) -> bool {
    &&& model_satisfies(m, clause_of(groups, connections, ant_k))
    &&& forall|p: int|
        0 <= p < assigned.len() && (#[trigger] antecedents[p]).is_uc ==> model_satisfies(
            m,
            clause_of(groups, connections, antecedents[p].antecedent->0 as int),
        )
}

/// Every total assignment that satisfies the premises makes a literal of
/// the learned set true.
pub open spec fn follows(
    lit_of: Seq<usize>,
    assigned: Seq<usize>,
    antecedents: Seq<Antecedent>,
    groups: Seq<ConnectionGroup>,
    connections: Seq<Connection>,
    ant_k: int,
) -> bool {
    forall|m: Seq<bool>| #[trigger]
        premises_hold(assigned, antecedents, groups, connections, ant_k, m) ==> holds_some(
            lit_of,
            connections,
            m,
        )
}

/// What the resolution with a clause needs of the values `vals`: the
/// learned set is falsified, the clause forces `u`, and the set has a
/// literal on `u`.
pub open spec fn resolvable(
    lit_of: Seq<usize>,
    connections: Seq<Connection>,
    cl: Clause,
    u: int,
    vals: Values,
) -> bool {
    &&& learned_false(lit_of, connections, vals)
    &&& forces(cl, vals, u)
    &&& 0 <= u < lit_of.len() ==> lit_of[u] != NIL
}

/// How far the resolution of `old` with the clause `cl` has got after its
/// first `j` literals: the set is still falsified; its literal on `u` is
/// in place until the literal of `cl` on `u` comes; its literals on other
/// variables stay; and the literals of `cl` on other variables that came
/// are in the set.
pub open spec fn resolved_upto(
    old: Seq<usize>,
    cur: Seq<usize>,
    connections: Seq<Connection>,
    cl: Clause,
    u: int,
    j: int,
    vals: Values,
) -> bool {
    &&& learned_false(cur, connections, vals)
    &&& (0 <= u < cur.len() && forall|t: int| 0 <= t < j ==> (#[trigger] cl[t]).var_pos != u)
        ==> cur[u] == old[u]
    &&& forall|w: int| 0 <= w < old.len() && w != u && (#[trigger] old[w]) != NIL ==> cur[w] == old[w]
    &&& forall|t: int|
        0 <= t < j && (#[trigger] cl[t]).var_pos != u ==> cur[cl[t].var_pos as int] != NIL
            && connections[cur[cl[t].var_pos as int] as int].val == cl[t].val
}

/// Resolution is sound: an assignment that makes a literal of the set
/// true and satisfies the clause makes a literal of the resolvent true.
/// Without a pivot (`u < 0`) either of the two is enough.
pub proof fn lemma_resolution(
    old: Seq<usize>,
    cur: Seq<usize>,
    connections: Seq<Connection>,
    cl: Clause,
    u: int,
    vals: Values,
    m: Seq<bool>,
)
    requires
        old.len() == cur.len(),
        keyed(old, connections),
        keyed(cur, connections),
        resolvable(old, connections, cl, u, vals),
        resolved_upto(old, cur, connections, cl, u, cl.len() as int, vals),
        forall|t: int| 0 <= t < cl.len() ==> (#[trigger] cl[t]).var_pos < old.len(),
        u >= 0 ==> holds_some(old, connections, m) && model_satisfies(m, cl),
        u < 0 ==> holds_some(old, connections, m) || model_satisfies(m, cl),
    ensures
        holds_some(cur, connections, m),
{
    if holds_some(old, connections, m) {
        let w = choose|w: int|
            0 <= w < old.len() && (#[trigger] old[w]) != NIL && lit_holds(
                connections[old[w] as int],
                m,
            );
        if w != u {
            assert(cur[w] == old[w]);
            assert(cur[w] != NIL && lit_holds(connections[cur[w] as int], m));
        } else {
            let t = choose|t: int|
                0 <= t < cl.len() && m[(#[trigger] cl[t]).var_pos as int] == cl[t].val;
            let held = connections[old[u] as int];
            assert(lit_false(held, vals));
            if cl[t].var_pos == u {
                assert(lit_true(cl[t], vals));
                assert(false);
            }
            let x = cl[t].var_pos as int;
            assert(cur[x] != NIL && lit_holds(connections[cur[x] as int], m));
        }
    } else {
        let t = choose|t: int|
            0 <= t < cl.len() && m[(#[trigger] cl[t]).var_pos as int] == cl[t].val;
        let x = cl[t].var_pos as int;
        assert(cur[x] != NIL && lit_holds(connections[cur[x] as int], m));
    }
}

/// The state of the analysis: for each variable the literal of the learned
/// set on it (`NIL` for none), and whether it is on the frontier.
pub struct Analysis {
    pub lit_of: Seq<usize>,
    pub frontier: Seq<bool>,
}

/// The analysis after the literal with index `l` met the learned set: a
/// literal on a variable that the set lacks joins it, and the frontier;
/// one that the set holds with the same polarity changes nothing; one that
/// it holds with the other polarity is taken out of both.
pub open spec fn met(a: Analysis, connections: Seq<Connection>, l: usize) -> Analysis {
    let v = connections[l as int].var_pos as int;
    let held = a.lit_of[v];
    if held == NIL {
        Analysis { lit_of: a.lit_of.update(v, l), frontier: a.frontier.update(v, true) }
    } else if connections[held as int].val != connections[l as int].val {
        Analysis { lit_of: a.lit_of.update(v, NIL), frontier: a.frontier.update(v, false) }
    } else {
        a
    }
}

/// The analysis after the first `j` of the literals `lits` met the learned
/// set, one after the other.
pub open spec fn resolved_with(
    a: Analysis,
    connections: Seq<Connection>,
    lits: Seq<usize>,
    j: nat,
) -> Analysis
    decreases j,
{
    if j == 0 {
        a
    } else {
        met(resolved_with(a, connections, lits, (j - 1) as nat), connections, lits[j - 1])
    }
}

/// The number of variables below `upto` on which the learned set has a
/// literal and that were assigned at decision level `d`.
pub open spec fn level_count(
    lit_of: Seq<usize>,
    var_assigned_index: Seq<usize>,
    antecedents: Seq<Antecedent>,
    d: usize,
    upto: nat,
) -> nat
    decreases upto,
{
    if upto == 0 {
        0
    } else {
        level_count(lit_of, var_assigned_index, antecedents, d, (upto - 1) as nat) + (if lit_of[upto
            - 1] != NIL && antecedents[var_assigned_index[upto - 1] as int].d == d {
            1nat
        } else {
            0nat
        })
    }
}

/// The analysis after the walk down the trail from position `p`: an entry
/// whose variable is on the frontier leaves the frontier, and if it is a
/// unit entry the learned set is resolved with its antecedent; the walk
/// ends there when at most one literal of the set is left at level `d`.
pub open spec fn walked(
    a: Analysis,
    assigned: Seq<usize>,
    antecedents: Seq<Antecedent>,
    var_assigned_index: Seq<usize>,
    groups: Seq<ConnectionGroup>,
    connections: Seq<Connection>,
    d: usize,
    p: nat,
) -> Analysis
    decreases p,
{
    if p == 0 {
        a
    } else {
        let var = assigned[p - 1] as int;
        let rest = (p - 1) as nat;
        if !a.frontier[var] {
            walked(a, assigned, antecedents, var_assigned_index, groups, connections, d, rest)
        } else {
            let b = Analysis { frontier: a.frontier.update(var, false), ..a };
            if !antecedents[p - 1].is_uc {
                walked(b, assigned, antecedents, var_assigned_index, groups, connections, d, rest)
            } else {
                let reason = groups[antecedents[p - 1].antecedent->0 as int].connections@;
                let c = resolved_with(b, connections, reason, reason.len());
                if level_count(c.lit_of, var_assigned_index, antecedents, d, c.lit_of.len()) <= 1 {
                    c
                } else {
                    walked(c, assigned, antecedents, var_assigned_index, groups, connections, d, rest)
                }
            }
        }
    }
}

/// The analysis of the conflict at clause `ant_k`: the learned set starts
/// from the literals of `ant_k`, and the trail is walked from its top.
pub open spec fn analysed(
    assigned: Seq<usize>,
    ant_k: usize,
    antecedents: Seq<Antecedent>,
    var_assigned_index: Seq<usize>,
    groups: Seq<ConnectionGroup>,
    connections: Seq<Connection>,
) -> Analysis {
    let n = var_assigned_index.len();
    let none = Analysis { lit_of: Seq::new(n, |v: int| NIL), frontier: Seq::new(n, |v: int| false) };
    let conflict = groups[ant_k as int].connections@;
    walked(
        resolved_with(none, connections, conflict, conflict.len()),
        assigned,
        antecedents,
        var_assigned_index,
        groups,
        connections,
        antecedents[assigned.len() - 1].d,
        assigned.len(),
    )
}

/// The literals of the learned set.
pub open spec fn learned_of(lit_of: Seq<usize>) -> Set<usize> {
    Set::new(|l: usize| l != NIL && exists|v: int| 0 <= v < lit_of.len() && #[trigger] lit_of[v] == l)
}

/// Resolves the learned set with clause `k`: see `met`.
fn absorb(
    lit_of: &mut Vec<usize>,
    frontier: &mut Vec<bool>,
    k: usize,
    groups: &Vec<ConnectionGroup>,
    connections: &Vec<Connection>,
    Ghost(u): Ghost<int>,
)
    requires
        k < groups@.len(),
        old(lit_of)@.len() == old(frontier)@.len(),
        keyed(old(lit_of)@, connections@),
        forall|v: int| 0 <= v < old(frontier)@.len() && old(frontier)@[v] ==> old(lit_of)@[v] != NIL,
        forall|l: int|
            0 <= l < connections@.len() ==> (#[trigger] connections@[l]).var_pos < old(lit_of)@.len(),
        forall|j: int|
            0 <= j < groups@[k as int].connections@.len() ==> (
            #[trigger] groups@[k as int].connections@[j]) < connections@.len(),
    ensures
        final(lit_of)@.len() == old(lit_of)@.len(),
        final(frontier)@.len() == old(frontier)@.len(),
        keyed(final(lit_of)@, connections@),
        (Analysis { lit_of: final(lit_of)@, frontier: final(frontier)@ }) == resolved_with(
            (Analysis { lit_of: old(lit_of)@, frontier: old(frontier)@ }),
            connections@,
            groups@[k as int].connections@,
            groups@[k as int].connections@.len(),
        ),
        forall|v: int|
            0 <= v < final(frontier)@.len() && final(frontier)@[v] ==> final(lit_of)@[v] != NIL,
        forall|vals: Values|
            resolvable(
                old(lit_of)@,
                connections@,
                clause_of(groups@, connections@, k as int),
                u,
                vals,
            ) ==> #[trigger] resolved_upto(
                old(lit_of)@,
                final(lit_of)@,
                connections@,
                clause_of(groups@, connections@, k as int),
                u,
                clause_of(groups@, connections@, k as int).len() as int,
                vals,
            ),
{
    let group = &groups[k];
    let n = group.connections.len();
    let ghost cl = clause_of(groups@, connections@, k as int);
    let ghost start = lit_of@;
    let mut j: usize = 0;
    while j < n
        invariant
            j <= n,
            k < groups@.len(),
            group == &groups@[k as int],
            n == cl.len(),
            cl == clause_of(groups@, connections@, k as int),
            start == old(lit_of)@,
            lit_of@.len() == start.len(),
            frontier@.len() == lit_of@.len(),
            keyed(lit_of@, connections@),
            (Analysis { lit_of: lit_of@, frontier: frontier@ }) == resolved_with(
                (Analysis { lit_of: old(lit_of)@, frontier: old(frontier)@ }),
                connections@,
                groups@[k as int].connections@,
                j as nat,
            ),
            forall|v: int| 0 <= v < frontier@.len() && frontier@[v] ==> lit_of@[v] != NIL,
            forall|l: int|
                0 <= l < connections@.len() ==> (#[trigger] connections@[l]).var_pos < lit_of@.len(),
            forall|j: int|
                0 <= j < groups@[k as int].connections@.len() ==> (
                #[trigger] groups@[k as int].connections@[j]) < connections@.len(),
            forall|vals: Values|
                resolvable(start, connections@, cl, u, vals) ==> #[trigger] resolved_upto(
                    start,
                    lit_of@,
                    connections@,
                    cl,
                    u,
                    j as int,
                    vals,
                ),
        decreases n - j,
    {
        let l = group.connections[j];
        assert(groups@[k as int].connections@[j as int] < connections@.len());
        let c = connections[l];
        assert(connections@[l as int].var_pos < lit_of@.len());
        assert(l < connections.len());
        let v = c.var_pos;
        let ghost before = lit_of@;
        let ghost fbefore = frontier@;
        let held = lit_of[v];
        if held == NIL {
            lit_of[v] = l;
            frontier[v] = true;
        } else {
            assert(held < connections@.len());
            if connections[held].val != c.val {
                lit_of[v] = NIL;
                frontier[v] = false;
            }
        }
        proof {
            let was = resolved_with(
                (Analysis { lit_of: old(lit_of)@, frontier: old(frontier)@ }),
                connections@,
                groups@[k as int].connections@,
                j as nat,
            );
            let now = met(was, connections@, l);
            assert(now.lit_of =~= lit_of@);
            assert(now.frontier =~= frontier@);
        }
        proof {
            assert(cl[j as int] == c);
            let after = lit_of@;
            assert forall|vals: Values|
                resolvable(start, connections@, cl, u, vals) implies #[trigger] resolved_upto(
                start,
                after,
                connections@,
                cl,
                u,
                j + 1,
                vals,
            ) by {
                assert(resolved_upto(start, before, connections@, cl, u, j as int, vals));
                assert(learned_false(before, connections@, vals));
                if v == u {
                    if forall|t: int| 0 <= t < j ==> (#[trigger] cl[t]).var_pos != u {
                        assert(before[u] == start[u]);
                        assert(held != NIL);
                        assert(lit_false(connections@[held as int], vals));
                        assert(lit_true(cl[j as int], vals));
                        assert(after[v as int] == NIL);
                    } else {
                        let t = choose|t: int| 0 <= t < j && (#[trigger] cl[t]).var_pos == u;
                        assert(cl[j as int].var_pos == u);
                        assert(false);
                    }
                } else {
                    assert(lit_false(cl[j as int], vals));
                    if held != NIL {
                        assert(lit_false(connections@[held as int], vals));
                        assert(after[v as int] == held);
                    } else {
                        if start[v as int] != NIL {
                            assert(before[v as int] == start[v as int]);
                        }
                    }
                }
                assert forall|w: int| 0 <= w < after.len() && (#[trigger] after[w])
                    != NIL implies lit_false(connections@[after[w] as int], vals) by {
                    if w != v {
                        assert(before[w] != NIL);
                    }
                }
                assert forall|w: int| 0 <= w < start.len() && w != u && (#[trigger] start[w])
                    != NIL implies after[w] == start[w] by {
                    assert(before[w] == start[w]);
                }
                assert forall|t: int| 0 <= t < j + 1 && (#[trigger] cl[t]).var_pos != u implies after[cl[t].var_pos as int]
                    != NIL && connections@[after[cl[t].var_pos as int] as int].val == cl[t].val by {
                    let x = cl[t].var_pos as int;
                    if t < j {
                        assert(before[x] != NIL && connections@[before[x] as int].val == cl[t].val);
                        if x == v {
                            assert(lit_false(cl[t], vals));
                            assert(lit_false(connections@[before[x] as int], vals));
                        }
                    }
                }
                if 0 <= u < after.len() && forall|t: int|
                    0 <= t < j + 1 ==> (#[trigger] cl[t]).var_pos != u {
                    assert(cl[j as int].var_pos != u);
                    assert(forall|t: int| 0 <= t < j ==> (#[trigger] cl[t]).var_pos != u);
                    assert(before[u] == start[u]);
                }
            }
        }
        j += 1;
    }
}

impl ImplicationGraph {
    /// Learns a clause from the falsified clause `ant_k`: starting from its
    /// literals, the trail is walked from its top down, and at each unit
    /// entry whose variable is still on the frontier the set is resolved
    /// with the antecedent of that entry. The walk ends early once at most
    /// one literal of the set is at the decision level of the top of the
    /// trail.
    ///
    /// The set holds one literal per variable. Whenever the values are such
    /// that `ant_k` is falsified and every antecedent forces its variable,
    /// every literal of the set is falsified, and every total assignment
    /// that satisfies `ant_k` and the antecedents makes a literal of the set
    /// true.
    pub fn new(
        assigned: &Vec<usize>,
        ant_k: &usize,
        antecedents: &Vec<Antecedent>,
        var_assigned_index: &Vec<usize>,
        groups: &Vec<ConnectionGroup>,
        connections: &Vec<Connection>,
    ) -> (g: Self)
        requires
            analysis_inputs(
                assigned@,
                *ant_k,
                antecedents@,
                var_assigned_index@,
                groups@,
                connections@,
            ),
        ensures
            g.learned@ == learned_of(
                analysed(
                    assigned@,
                    *ant_k,
                    antecedents@,
                    var_assigned_index@,
                    groups@,
                    connections@,
                ).lit_of,
            ),
            forall|l: usize| g.learned@.contains(l) ==> l < connections@.len(),
            forall|l1: usize, l2: usize|
                g.learned@.contains(l1) && g.learned@.contains(l2) && connections@[l1 as int].var_pos
                    == connections@[l2 as int].var_pos ==> l1 == l2,
            forall|vals: Values| #[trigger]
                conflict_state(assigned@, antecedents@, groups@, connections@, *ant_k as int, vals)
                    ==> forall|l: usize|
                    g.learned@.contains(l) ==> lit_false(#[trigger] connections@[l as int], vals),
            forall|vals: Values, m: Seq<bool>|
                #![trigger conflict_state(assigned@, antecedents@, groups@, connections@, *ant_k as int, vals), premises_hold(assigned@, antecedents@, groups@, connections@, *ant_k as int, m)]
                conflict_state(assigned@, antecedents@, groups@, connections@, *ant_k as int, vals)
                    && premises_hold(
                    assigned@,
                    antecedents@,
                    groups@,
                    connections@,
                    *ant_k as int,
                    m,
                ) ==> set_holds(g.learned@, connections@, m),
    {
        broadcast use group_btree_axioms;

        let n = var_assigned_index.len();
        let mut lit_of: Vec<usize> = Vec::new();
        let mut frontier: Vec<bool> = Vec::new();
        let mut v: usize = 0;
        while v < n
            invariant
                v <= n,
                lit_of@.len() == v,
                frontier@.len() == v,
                forall|w: int| 0 <= w < v ==> lit_of@[w] == NIL && !frontier@[w],
            decreases n - v,
        {
            lit_of.push(NIL);
            frontier.push(false);
            v += 1;
        }
        let ghost empty = lit_of@;
        let ghost conflict = clause_of(groups@, connections@, *ant_k as int);
        let ghost goal = analysed(
            assigned@,
            *ant_k,
            antecedents@,
            var_assigned_index@,
            groups@,
            connections@,
        );
        proof {
            assert(lit_of@ =~= Seq::new(n as nat, |v: int| NIL));
            assert(frontier@ =~= Seq::new(n as nat, |v: int| false));
        }
        absorb(&mut lit_of, &mut frontier, *ant_k, groups, connections, Ghost(-1));
        proof {
            let first = lit_of@;
            assert forall|vals: Values| #[trigger]
                conflict_state(
                    assigned@,
                    antecedents@,
                    groups@,
                    connections@,
                    *ant_k as int,
                    vals,
                ) implies learned_false(first, connections@, vals) && follows(
                first,
                assigned@,
                antecedents@,
                groups@,
                connections@,
                *ant_k as int,
            ) by {
                assert(learned_false(empty, connections@, vals));
                assert(resolvable(empty, connections@, conflict, -1, vals));
                assert(resolved_upto(
                    empty,
                    first,
                    connections@,
                    conflict,
                    -1,
                    conflict.len() as int,
                    vals,
                ));
                assert forall|m: Seq<bool>| #[trigger]
                    premises_hold(
                        assigned@,
                        antecedents@,
                        groups@,
                        connections@,
                        *ant_k as int,
                        m,
                    ) implies holds_some(first, connections@, m) by {
                    assert forall|t: int| 0 <= t < conflict.len() implies (
                    #[trigger] conflict[t]).var_pos < empty.len() by {
                        assert(groups@[*ant_k as int].connections@[t] < connections@.len());
                    }
                    lemma_resolution(empty, first, connections@, conflict, -1, vals, m);
                }
            }
        }
        let top = assigned.len() - 1;
        let d = antecedents[top].d;
        let mut p: usize = assigned.len();
        while p > 0
            invariant_except_break
                goal == walked(
                    (Analysis { lit_of: lit_of@, frontier: frontier@ }),
                    assigned@,
                    antecedents@,
                    var_assigned_index@,
                    groups@,
                    connections@,
                    d,
                    p as nat,
                ),
            invariant
                p <= assigned@.len(),
                n == var_assigned_index@.len(),
                d == antecedents@[assigned@.len() - 1].d,
                analysis_inputs(
                    assigned@,
                    *ant_k,
                    antecedents@,
                    var_assigned_index@,
                    groups@,
                    connections@,
                ),
                lit_of@.len() == n,
                frontier@.len() == n,
                keyed(lit_of@, connections@),
                forall|v: int| 0 <= v < frontier@.len() && frontier@[v] ==> lit_of@[v] != NIL,
                forall|vals: Values| #[trigger]
                    conflict_state(
                        assigned@,
                        antecedents@,
                        groups@,
                        connections@,
                        *ant_k as int,
                        vals,
                    ) ==> learned_false(lit_of@, connections@, vals) && follows(
                        lit_of@,
                        assigned@,
                        antecedents@,
                        groups@,
                        connections@,
                        *ant_k as int,
                    ),
            ensures
                goal.lit_of == lit_of@,
            decreases p,
        {
            p -= 1;
            let var = assigned[p];
            if frontier[var] {
                frontier[var] = false;
                let entry = antecedents[p];
                if entry.is_uc {
                    let a = match entry.antecedent {
                        Some(a) => a,
                        None => 0,
                    };
                    let ghost before = lit_of@;
                    let ghost reason = clause_of(groups@, connections@, a as int);
                    absorb(&mut lit_of, &mut frontier, a, groups, connections, Ghost(var as int));
                    proof {
                        let after = lit_of@;
                        assert forall|vals: Values| #[trigger]
                            conflict_state(
                                assigned@,
                                antecedents@,
                                groups@,
                                connections@,
                                *ant_k as int,
                                vals,
                            ) implies learned_false(after, connections@, vals) && follows(
                            after,
                            assigned@,
                            antecedents@,
                            groups@,
                            connections@,
                            *ant_k as int,
                        ) by {
                            assert(learned_false(before, connections@, vals));
                            assert(follows(
                                before,
                                assigned@,
                                antecedents@,
                                groups@,
                                connections@,
                                *ant_k as int,
                            ));
                            assert(antecedents@[p as int].is_uc);
                            assert(forces(reason, vals, var as int));
                            assert(resolvable(before, connections@, reason, var as int, vals));
                            assert(resolved_upto(
                                before,
                                after,
                                connections@,
                                reason,
                                var as int,
                                reason.len() as int,
                                vals,
                            ));
                            assert forall|m: Seq<bool>| #[trigger]
                                premises_hold(
                                    assigned@,
                                    antecedents@,
                                    groups@,
                                    connections@,
                                    *ant_k as int,
                                    m,
                                ) implies holds_some(after, connections@, m) by {
                                assert(holds_some(before, connections@, m));
                                assert(model_satisfies(m, reason));
                                assert forall|t: int| 0 <= t < reason.len() implies (
                                #[trigger] reason[t]).var_pos < before.len() by {
                                    assert(groups@[a as int].connections@[t] < connections@.len());
                                }
                                lemma_resolution(
                                    before,
                                    after,
                                    connections@,
                                    reason,
                                    var as int,
                                    vals,
                                    m,
                                );
                            }
                        }
                    }
                    if Self::at_level(&lit_of, var_assigned_index, antecedents, d) <= 1 {
                        break ;
                    }
                }
            }
        }
        let mut learned: BTreeSet<usize> = BTreeSet::new();
        let mut v: usize = 0;
        while v < n
            invariant
                v <= n,
                lit_of@.len() == n,
                keyed(lit_of@, connections@),
                forall|l: usize|
                    learned@.contains(l) <==> exists|w: int| 0 <= w < v && #[trigger] lit_of@[w] == l && l != NIL,
            decreases n - v,
        {
            let ghost before = learned@;
            if lit_of[v] != NIL {
                learned.insert(lit_of[v]);
            }
            proof {
                assert forall|l: usize|
                    learned@.contains(l) <==> exists|w: int|
                        0 <= w < v + 1 && #[trigger] lit_of@[w] == l && l != NIL by {
                    if before.contains(l) {
                        let w = choose|w: int| 0 <= w < v && #[trigger] lit_of@[w] == l && l != NIL;
                        assert(0 <= w < v + 1 && lit_of@[w] == l);
                    }
                    if exists|w: int| 0 <= w < v + 1 && #[trigger] lit_of@[w] == l && l != NIL {
                        let w = choose|w: int|
                            0 <= w < v + 1 && #[trigger] lit_of@[w] == l && l != NIL;
                        if w < v {
                            assert(before.contains(l));
                        }
                    }
                }
            }
            v += 1;
        }
        proof {
            assert(learned@ =~= learned_of(lit_of@)) by {
                assert forall|l: usize| learned@.contains(l) <==> learned_of(lit_of@).contains(
                    l,
                ) by {
                    if learned@.contains(l) {
                        let w = choose|w: int| 0 <= w < n && #[trigger] lit_of@[w] == l && l != NIL;
                        assert(0 <= w < lit_of@.len() && lit_of@[w] == l);
                    }
                    if learned_of(lit_of@).contains(l) {
                        let w = choose|w: int| 0 <= w < lit_of@.len() && #[trigger] lit_of@[w] == l;
                        assert(0 <= w < n && lit_of@[w] == l && l != NIL);
                    }
                }
            }
            assert forall|l: usize| learned@.contains(l) implies l < connections@.len() by {
                let w = choose|w: int| 0 <= w < n && #[trigger] lit_of@[w] == l && l != NIL;
            }
            assert forall|l1: usize, l2: usize|
                learned@.contains(l1) && learned@.contains(l2) && connections@[l1 as int].var_pos
                    == connections@[l2 as int].var_pos implies l1 == l2 by {
                let w1 = choose|w: int| 0 <= w < n && #[trigger] lit_of@[w] == l1 && l1 != NIL;
                let w2 = choose|w: int| 0 <= w < n && #[trigger] lit_of@[w] == l2 && l2 != NIL;
            }
            assert forall|vals: Values| #[trigger]
                conflict_state(
                    assigned@,
                    antecedents@,
                    groups@,
                    connections@,
                    *ant_k as int,
                    vals,
                ) implies forall|l: usize|
                learned@.contains(l) ==> lit_false(#[trigger] connections@[l as int], vals) by {
                assert(learned_false(lit_of@, connections@, vals));
                assert forall|l: usize| learned@.contains(l) implies lit_false(
                    #[trigger] connections@[l as int],
                    vals,
                ) by {
                    let w = choose|w: int| 0 <= w < n && #[trigger] lit_of@[w] == l && l != NIL;
                }
            }
            assert forall|vals: Values, m: Seq<bool>|
                #![trigger conflict_state(assigned@, antecedents@, groups@, connections@, *ant_k as int, vals), premises_hold(assigned@, antecedents@, groups@, connections@, *ant_k as int, m)]
                conflict_state(assigned@, antecedents@, groups@, connections@, *ant_k as int, vals)
                    && premises_hold(
                    assigned@,
                    antecedents@,
                    groups@,
                    connections@,
                    *ant_k as int,
                    m,
                ) implies set_holds(learned@, connections@, m) by {
                assert(follows(
                    lit_of@,
                    assigned@,
                    antecedents@,
                    groups@,
                    connections@,
                    *ant_k as int,
                ));
                assert(holds_some(lit_of@, connections@, m));
                let w = choose|w: int|
                    0 <= w < lit_of@.len() && (#[trigger] lit_of@[w]) != NIL && lit_holds(
                        connections@[lit_of@[w] as int],
                        m,
                    );
                let l = lit_of@[w];
                assert(learned@.contains(l) && lit_holds(connections@[l as int], m));
            }
        }
        ImplicationGraph { learned }
    }

    /// The number of literals of the learned set whose variable was
    /// assigned at decision level `d`, counted up to two.
    fn at_level(
        lit_of: &Vec<usize>,
        var_assigned_index: &Vec<usize>,
        antecedents: &Vec<Antecedent>,
        d: usize,
    ) -> (count: usize)
        requires
            lit_of@.len() == var_assigned_index@.len(),
            forall|v: int|
                0 <= v < var_assigned_index@.len() ==> (#[trigger] var_assigned_index@[v])
                    < antecedents@.len(),
        ensures
            count == (if level_count(
                lit_of@,
                var_assigned_index@,
                antecedents@,
                d,
                lit_of@.len(),
            ) >= 2 {
                2nat
            } else {
                level_count(lit_of@, var_assigned_index@, antecedents@, d, lit_of@.len())
            }),
    {
        let n = lit_of.len();
        let mut count: usize = 0;
        let mut v: usize = 0;
        while v < n
            invariant
                v <= n,
                n == lit_of@.len(),
                lit_of@.len() == var_assigned_index@.len(),
                count <= 2,
                count == (if level_count(lit_of@, var_assigned_index@, antecedents@, d, v as nat)
                    >= 2 {
                    2nat
                } else {
                    level_count(lit_of@, var_assigned_index@, antecedents@, d, v as nat)
                }),
                forall|v: int|
                    0 <= v < var_assigned_index@.len() ==> (#[trigger] var_assigned_index@[v])
                        < antecedents@.len(),
            decreases n - v,
        {
            if lit_of[v] != NIL && count < 2 {
                let index = var_assigned_index[v];
                if antecedents[index].d == d {
                    count += 1;
                }
            }
            v += 1;
        }
        count
    }
}

} // verus!

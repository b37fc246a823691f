use crate::meaning::{
    holds, holds_all, holds_any, law_unique_literals_keep_meaning, lemma_holds_joined,
    lemma_holds_pushed, lemma_tautology_holds,
};
use crate::propositional::{
    and_group, clashing, copy_all, or_group, plain_group, repeats, tautology, unique_literals,
    views, with_unique_literals, Formula, Operator, PropositionalConnection,
};
use vstd::prelude::*;

verus! {

/// A clause as the list of its literals.
pub type Literals = Seq<Formula>;

/// The variable of the formula as a literal, with the other sign if `flip`
/// says so.
pub open spec fn literal_of(f: Formula, flip: bool) -> Formula {
    Formula {
        operator: Operator::NONE,
        is_negated: f.is_negated != flip,
        variable: f.variable,
        variables: Seq::empty(),
    }
}

/// For each clause of `b`, the clause `head` with that clause behind it.
pub open spec fn each_after(head: Literals, b: Seq<Literals>) -> Seq<Literals>
    decreases b.len(),
{
    if b.len() == 0 {
        Seq::empty()
    } else {
        each_after(head, b.drop_last()).push(head + b.last())
    }
}

/// For each clause of `a` and each clause of `b`, the two one behind the
/// other: the clauses of `a` in turn, and for each those of `b` in turn.
pub open spec fn crossed(a: Seq<Literals>, b: Seq<Literals>) -> Seq<Literals>
    decreases a.len(),
{
    if a.len() == 0 {
        Seq::empty()
    } else {
        crossed(a.drop_last(), b) + each_after(a.last(), b)
    }
}

/// The clauses that say what the formula says, or, with `flip`, what its
/// negation says. A variable is one clause of one literal. A group that
/// stands as a conjunction (a conjunction that is not negated, or a negated
/// disjunction) has the clauses of its members; one that stands as a
/// disjunction has a clause for each choice of one clause from each member.
pub open spec fn clauses_of(f: Formula, flip: bool) -> Seq<Literals>
    decreases f, 1nat,
{
    if f.variable is Some {
        seq![seq![literal_of(f, flip)]]
    } else {
        let negative = f.is_negated != flip;
        if (f.operator == Operator::AND) != negative {
            joined_clauses(f.variables, negative)
        } else {
            crossed_clauses(f.variables, negative)
        }
    }
}

/// The clauses of all of the formulas, one list behind the other.
pub open spec fn joined_clauses(kids: Seq<Formula>, flip: bool) -> Seq<Literals>
    decreases kids, 0nat,
{
    if kids.len() == 0 {
        Seq::empty()
    } else {
        joined_clauses(kids.drop_last(), flip) + clauses_of(kids.last(), flip)
    }
}

/// A clause for each choice of one clause from each of the formulas.
pub open spec fn crossed_clauses(kids: Seq<Formula>, flip: bool) -> Seq<Literals>
    decreases kids, 0nat,
{
    if kids.len() == 0 {
        seq![Seq::empty()]
    } else {
        crossed(crossed_clauses(kids.drop_last(), flip), clauses_of(kids.last(), flip))
    }
}

/// Each clause as a disjunction.
pub open spec fn disjunctions(cs: Seq<Literals>) -> Seq<Formula>
    decreases cs.len(),
{
    if cs.len() == 0 {
        Seq::empty()
    } else {
        disjunctions(cs.drop_last()).push(or_group(cs.last()))
    }
}

/// The disjunctions freed of repeated variables, without those that are
/// tautologies then.
pub open spec fn tidy(ds: Seq<Formula>) -> Seq<Formula>
    decreases ds.len(),
{
    if ds.len() == 0 {
        Seq::empty()
    } else if tautology(with_unique_literals(ds.last())) {
        tidy(ds.drop_last())
    } else {
        tidy(ds.drop_last()).push(with_unique_literals(ds.last()))
    }
}

/// The conjunction of the tidy clauses of the formula.
pub open spec fn completed(f: Formula) -> Formula {
    and_group(tidy(disjunctions(clauses_of(f, false))))
}

/// The formula is a variable, with or without a negation sign.
pub open spec fn is_literal(f: Formula) -> bool {
    f.variable is Some && f.variables.len() == 0
}

/// The formula is a clause: a disjunction, not negated, of literals on
/// different variables.
pub open spec fn is_clause(f: Formula) -> bool {
    &&& plain_group(f, Operator::OR)
    &&& forall|i: int| 0 <= i < f.variables.len() ==> is_literal(#[trigger] f.variables[i])
    &&& forall|i: int, j: int|
        0 <= i < j < f.variables.len() ==> (#[trigger] f.variables[i]).variable != (
        #[trigger] f.variables[j]).variable
}

/// The formula is in conjunctive normal form: a conjunction, not negated,
/// of clauses.
pub open spec fn in_cnf(f: Formula) -> bool {
    plain_group(f, Operator::AND) && forall|k: int|
        0 <= k < f.variables.len() ==> is_clause(#[trigger] f.variables[k])
}

/// Every formula of the list is a literal.
pub open spec fn all_literals(c: Literals) -> bool {
    forall|i: int| 0 <= i < c.len() ==> is_literal(#[trigger] c[i])
}

/// Every clause of the list holds literals only.
pub open spec fn literals_only(cs: Seq<Literals>) -> bool {
    forall|k: int| 0 <= k < cs.len() ==> all_literals(#[trigger] cs[k])
}

/// The disjunctions of a list with one clause more at its end.
pub proof fn lemma_disjunctions_pushed(cs: Seq<Literals>, c: Literals)
    ensures
        disjunctions(cs.push(c)) == disjunctions(cs).push(or_group(c)),
{
    assert(cs.push(c).drop_last() =~= cs);
}

/// The disjunctions stand at the places of their clauses.
pub proof fn lemma_disjunctions(cs: Seq<Literals>)
    ensures
        disjunctions(cs).len() == cs.len(),
        forall|k: int| 0 <= k < cs.len() ==> #[trigger] disjunctions(cs)[k] == or_group(cs[k]),
    decreases cs.len(),
{
    if cs.len() > 0 {
        lemma_disjunctions(cs.drop_last());
        assert forall|k: int| 0 <= k < cs.len() implies #[trigger] disjunctions(cs)[k] == or_group(
            cs[k],
        ) by {
            if k < cs.len() - 1 {
                assert(cs.drop_last()[k] == cs[k]);
            }
        }
    }
}

/// The disjunctions of two lists of clauses, one behind the other, all
/// hold exactly when those of both lists do.
pub proof fn lemma_disjunctions_joined(
    a: Seq<Literals>,
    b: Seq<Literals>,
    val: spec_fn(Seq<char>) -> bool,
)
    ensures
        disjunctions(a + b) == disjunctions(a) + disjunctions(b),
        holds_all(disjunctions(a + b), val) == (holds_all(disjunctions(a), val) && holds_all(
            disjunctions(b),
            val,
        )),
    decreases b.len(),
{
    if b.len() == 0 {
        assert(a + b =~= a);
        assert(disjunctions(a) + disjunctions(b) =~= disjunctions(a));
    } else {
        lemma_disjunctions_joined(a, b.drop_last(), val);
        assert(a + b =~= (a + b.drop_last()).push(b.last()));
        lemma_disjunctions_pushed(a + b.drop_last(), b.last());
        assert(disjunctions(a + b) =~= disjunctions(a) + disjunctions(b));
    }
    lemma_holds_joined(disjunctions(a), disjunctions(b), val);
}

/// The clauses made of `head` and each clause of `b` all hold exactly
/// when a literal of `head` holds or all clauses of `b` do.
pub proof fn lemma_each_after(head: Literals, b: Seq<Literals>, val: spec_fn(Seq<char>) -> bool)
    ensures
        each_after(head, b).len() == b.len(),
        holds_all(disjunctions(each_after(head, b)), val) == (holds_any(head, val) || holds_all(
            disjunctions(b),
            val,
        )),
        all_literals(head) && literals_only(b) ==> literals_only(each_after(head, b)),
    decreases b.len(),
{
    if b.len() > 0 {
        let rest = b.drop_last();
        lemma_each_after(head, rest, val);
        lemma_disjunctions_pushed(each_after(head, rest), head + b.last());
        lemma_holds_pushed(disjunctions(each_after(head, rest)), or_group(head + b.last()), val);
        lemma_holds_joined(head, b.last(), val);
        assert(b =~= rest.push(b.last()));
        lemma_disjunctions_pushed(rest, b.last());
        lemma_holds_pushed(disjunctions(rest), or_group(b.last()), val);
        if all_literals(head) && literals_only(b) {
            assert forall|k: int| 0 <= k < rest.len() implies all_literals(#[trigger] rest[k]) by {
                assert(rest[k] == b[k]);
            }
            assert(all_literals(b[b.len() - 1]));
            let made = each_after(head, b);
            assert forall|k: int| 0 <= k < made.len() implies all_literals(#[trigger] made[k]) by {
                if k < rest.len() {
                    assert(made[k] == each_after(head, rest)[k]);
                } else {
                    let c = head + b.last();
                    assert forall|i: int| 0 <= i < c.len() implies is_literal(#[trigger] c[i]) by {
                        if i < head.len() {
                            assert(c[i] == head[i]);
                        } else {
                            assert(c[i] == b.last()[i - head.len()]);
                        }
                    }
                }
            }
        }
    }
}

/// The clauses made of each clause of `a` and each clause of `b` all hold
/// exactly when all clauses of `a` or all clauses of `b` do.
pub proof fn lemma_crossed(a: Seq<Literals>, b: Seq<Literals>, val: spec_fn(Seq<char>) -> bool)
    ensures
        holds_all(disjunctions(crossed(a, b)), val) == (holds_all(disjunctions(a), val)
            || holds_all(disjunctions(b), val)),
        literals_only(a) && literals_only(b) ==> literals_only(crossed(a, b)),
    decreases a.len(),
{
    if a.len() > 0 {
        let rest = a.drop_last();
        lemma_crossed(rest, b, val);
        lemma_each_after(a.last(), b, val);
        lemma_disjunctions_joined(crossed(rest, b), each_after(a.last(), b), val);
        assert(a =~= rest.push(a.last()));
        lemma_disjunctions_pushed(rest, a.last());
        lemma_holds_pushed(disjunctions(rest), or_group(a.last()), val);
        if literals_only(a) && literals_only(b) {
            assert forall|k: int| 0 <= k < rest.len() implies all_literals(#[trigger] rest[k]) by {
                assert(rest[k] == a[k]);
            }
            assert(all_literals(a[a.len() - 1]));
            let first = crossed(rest, b);
            let second = each_after(a.last(), b);
            assert forall|k: int| 0 <= k < (first + second).len() implies all_literals(
                #[trigger] (first + second)[k],
            ) by {
                if k < first.len() {
                    assert((first + second)[k] == first[k]);
                } else {
                    assert((first + second)[k] == second[k - first.len()]);
                }
            }
        }
    }
}

/// The clauses of a formula all hold exactly when the formula does, or,
/// with `flip`, when it does not; and they hold literals only.
pub proof fn lemma_clauses_of(f: Formula, flip: bool, val: spec_fn(Seq<char>) -> bool)
    ensures
        holds_all(disjunctions(clauses_of(f, flip)), val) == (holds(f, val) != flip),
        literals_only(clauses_of(f, flip)),
    decreases f, 1nat,
{
    if f.variable is Some {
        let l = literal_of(f, flip);
        let c = seq![l];
        let cs = seq![c];
        assert(cs =~= Seq::<Literals>::empty().push(c));
        lemma_disjunctions_pushed(Seq::<Literals>::empty(), c);
        lemma_holds_pushed(Seq::<Formula>::empty(), or_group(c), val);
        assert(c =~= Seq::<Formula>::empty().push(l));
        lemma_holds_pushed(Seq::<Formula>::empty(), l, val);
        assert(is_literal(l));
        assert(all_literals(cs[0]));
    } else {
        let negative = f.is_negated != flip;
        lemma_joined_clauses(f.variables, negative, val);
        lemma_crossed_clauses(f.variables, negative, val);
    }
}

/// The clauses of all of the formulas all hold exactly when all of the
/// formulas do, or, with `flip`, when none does.
pub proof fn lemma_joined_clauses(kids: Seq<Formula>, flip: bool, val: spec_fn(Seq<char>) -> bool)
    ensures
        holds_all(disjunctions(joined_clauses(kids, flip)), val) == (if flip {
            !holds_any(kids, val)
        } else {
            holds_all(kids, val)
        }),
        literals_only(joined_clauses(kids, flip)),
    decreases kids, 0nat,
{
    if kids.len() > 0 {
        lemma_joined_clauses(kids.drop_last(), flip, val);
        lemma_clauses_of(kids.last(), flip, val);
        let first = joined_clauses(kids.drop_last(), flip);
        let second = clauses_of(kids.last(), flip);
        lemma_disjunctions_joined(first, second, val);
        assert forall|k: int| 0 <= k < (first + second).len() implies all_literals(
            #[trigger] (first + second)[k],
        ) by {
            if k < first.len() {
                assert((first + second)[k] == first[k]);
            } else {
                assert((first + second)[k] == second[k - first.len()]);
            }
        }
    }
}

/// The clauses for each choice of one clause from each of the formulas
/// all hold exactly when one of the formulas holds, or, with `flip`, when
/// not all of them do.
pub proof fn lemma_crossed_clauses(kids: Seq<Formula>, flip: bool, val: spec_fn(Seq<char>) -> bool)
    ensures
        holds_all(disjunctions(crossed_clauses(kids, flip)), val) == (if flip {
            !holds_all(kids, val)
        } else {
            holds_any(kids, val)
        }),
        literals_only(crossed_clauses(kids, flip)),
    decreases kids, 0nat,
{
    if kids.len() > 0 {
        lemma_crossed_clauses(kids.drop_last(), flip, val);
        lemma_clauses_of(kids.last(), flip, val);
        lemma_crossed(crossed_clauses(kids.drop_last(), flip), clauses_of(kids.last(), flip), val);
    } else {
        let none = Seq::<Formula>::empty();
        let cs = seq![none];
        assert(cs =~= Seq::<Literals>::empty().push(none));
        lemma_disjunctions_pushed(Seq::<Literals>::empty(), none);
        lemma_holds_pushed(Seq::<Formula>::empty(), or_group(none), val);
        assert(all_literals(cs[0]));
    }
}

/// The literals that are left of a clause hold no literal twice.
pub proof fn lemma_unique_once(c: Literals)
    requires
        all_literals(c),
    ensures
        all_literals(unique_literals(c)),
        forall|i: int, j: int|
            0 <= i < j < unique_literals(c).len() ==> !((#[trigger] unique_literals(c)[i]).variable
                == (#[trigger] unique_literals(c)[j]).variable && unique_literals(c)[i].is_negated
                == unique_literals(c)[j].is_negated),
    decreases c.len(),
{
    if c.len() > 0 {
        let rest = c.drop_last();
        let x = c.last();
        assert forall|i: int| 0 <= i < rest.len() implies is_literal(#[trigger] rest[i]) by {
            assert(rest[i] == c[i]);
        }
        lemma_unique_once(rest);
        assert(is_literal(c[c.len() - 1]));
        if !repeats(rest, x) {
            let other = |g: Formula| !(g.variable == x.variable && g.is_negated == x.is_negated);
            assert forall|i: int| 0 <= i < rest.len() implies other(#[trigger] rest[i]) by {}
            law_unique_literals_keep_meaning(rest, |n: Seq<char>| true, other);
            let before = unique_literals(rest);
            let all = before.push(x);
            assert forall|i: int| 0 <= i < all.len() implies is_literal(#[trigger] all[i]) by {
                if i < before.len() {
                    assert(all[i] == before[i]);
                }
            }
            assert forall|i: int, j: int| 0 <= i < j < all.len() implies !((#[trigger] all[i]).variable
                == (#[trigger] all[j]).variable && all[i].is_negated == all[j].is_negated) by {
                if j < before.len() {
                    assert(all[i] == before[i] && all[j] == before[j]);
                } else {
                    assert(other(before[i]));
                }
            }
        }
    }
}

/// The tidy disjunctions all hold exactly when all of the disjunctions
/// do; and made from disjunctions of literals, not negated, they are
/// clauses.
pub proof fn lemma_tidy(ds: Seq<Formula>, val: spec_fn(Seq<char>) -> bool)
    ensures
        holds_all(tidy(ds), val) == holds_all(ds, val),
        (forall|k: int|
            0 <= k < ds.len() ==> plain_group(#[trigger] ds[k], Operator::OR) && all_literals(
                ds[k].variables,
            )) ==> forall|k: int| 0 <= k < tidy(ds).len() ==> is_clause(#[trigger] tidy(ds)[k]),
    decreases ds.len(),
{
    if ds.len() > 0 {
        let rest = ds.drop_last();
        let d = ds.last();
        let u = with_unique_literals(d);
        lemma_tidy(rest, val);
        law_unique_literals_keep_meaning(d.variables, val, |g: Formula| true);
        assert(holds(u, val) == holds(d, val));
        if tautology(u) {
            lemma_tautology_holds(u, val);
        } else {
            lemma_holds_pushed(tidy(rest), u, val);
        }
        if forall|k: int|
            0 <= k < ds.len() ==> plain_group(#[trigger] ds[k], Operator::OR) && all_literals(
                ds[k].variables,
            ) {
            assert forall|k: int| 0 <= k < rest.len() implies plain_group(
                #[trigger] rest[k],
                Operator::OR,
            ) && all_literals(rest[k].variables) by {
                assert(rest[k] == ds[k]);
            }
            assert(plain_group(ds[ds.len() - 1], Operator::OR));
            if !tautology(u) {
                lemma_unique_once(d.variables);
                let lits = u.variables;
                assert forall|i: int, j: int| 0 <= i < j < lits.len() implies (#[trigger] lits[i]).variable
                    != (#[trigger] lits[j]).variable by {
                    assert(is_literal(lits[i]));
                    assert(!clashing(lits));
                }
                assert(is_clause(u));
                let all = tidy(rest).push(u);
                assert forall|k: int| 0 <= k < all.len() implies is_clause(#[trigger] all[k]) by {
                    if k < tidy(rest).len() {
                        assert(all[k] == tidy(rest)[k]);
                    }
                }
            }
        }
    }
}

/// The conjunction of the tidy clauses of a formula is in conjunctive
/// normal form and holds under the same values as the formula.
pub proof fn law_completed_keeps_meaning(f: Formula, val: spec_fn(Seq<char>) -> bool)
    ensures
        in_cnf(completed(f)),
        holds(completed(f), val) == holds(f, val),
{
    let cs = clauses_of(f, false);
    lemma_clauses_of(f, false, val);
    lemma_disjunctions(cs);
    lemma_tidy(disjunctions(cs), val);
    assert forall|k: int| 0 <= k < disjunctions(cs).len() implies plain_group(
        #[trigger] disjunctions(cs)[k],
        Operator::OR,
    ) && all_literals(disjunctions(cs)[k].variables) by {
        assert(all_literals(cs[k]));
    }
}

/// The views of the clauses of a list.
pub open spec fn clause_views(v: Seq<Vec<PropositionalConnection>>) -> Seq<Literals> {
    Seq::new(v.len(), |k: int| views(v[k]@))
}

/// The literals of `a` and behind them those of `b`.
fn literals_joined(a: &Vec<PropositionalConnection>, b: &Vec<PropositionalConnection>) -> (r: Vec<
    PropositionalConnection,
>)
    ensures
        views(r@) == views(a@) + views(b@),
{
    let mut r = copy_all(a);
    let n = b.len();
    let mut i: usize = 0;
    proof {
        assert(views(r@) =~= views(a@) + views(b@).subrange(0, 0));
    }
    while i < n
        invariant
            i <= n,
            n == b@.len(),
            views(r@) == views(a@) + views(b@).subrange(0, i as int),
        decreases n - i,
    {
        let ghost was = views(r@);
        r.push(b[i].duplicate());
        proof {
            assert(views(r@) =~= was.push(b@[i as int]@));
            assert(views(r@) =~= views(a@) + views(b@).subrange(0, i + 1));
        }
        i += 1;
    }
    proof {
        assert(views(b@).subrange(0, n as int) =~= views(b@));
    }
    r
}

/// The clauses of `b` put behind those of `out`.
fn add_clauses(out: &mut Vec<Vec<PropositionalConnection>>, b: &Vec<Vec<PropositionalConnection>>)
    ensures
        clause_views(final(out)@) == clause_views(old(out)@) + clause_views(b@),
{
    let n = b.len();
    let mut i: usize = 0;
    proof {
        assert(clause_views(out@) =~= clause_views(old(out)@) + clause_views(b@).subrange(0, 0));
    }
    while i < n
        invariant
            i <= n,
            n == b@.len(),
            clause_views(out@) == clause_views(old(out)@) + clause_views(b@).subrange(0, i as int),
        decreases n - i,
    {
        let ghost was = clause_views(out@);
        let c = copy_all(&b[i]);
        out.push(c);
        proof {
            assert(clause_views(out@) =~= was.push(views(b@[i as int]@)));
            assert(clause_views(out@) =~= clause_views(old(out)@) + clause_views(b@).subrange(
                0,
                i + 1,
            ));
        }
        i += 1;
    }
    proof {
        assert(clause_views(b@).subrange(0, n as int) =~= clause_views(b@));
    }
}

/// For each clause of `b`, the clause `head` with that clause behind it,
/// put behind the clauses of `out`.
fn add_each_after(
    out: &mut Vec<Vec<PropositionalConnection>>,
    head: &Vec<PropositionalConnection>,
    b: &Vec<Vec<PropositionalConnection>>,
)
    ensures
        clause_views(final(out)@) == clause_views(old(out)@) + each_after(
            views(head@),
            clause_views(b@),
        ),
{
    let n = b.len();
    let mut i: usize = 0;
    let ghost all = clause_views(b@);
    proof {
        assert(all.subrange(0, 0) =~= Seq::<Literals>::empty());
        assert(clause_views(out@) =~= clause_views(old(out)@) + each_after(
            views(head@),
            all.subrange(0, 0),
        ));
    }
    while i < n
        invariant
            i <= n,
            n == b@.len(),
            all == clause_views(b@),
            clause_views(out@) == clause_views(old(out)@) + each_after(
                views(head@),
                all.subrange(0, i as int),
            ),
        decreases n - i,
    {
        let ghost was = clause_views(out@);
        let c = literals_joined(head, &b[i]);
        out.push(c);
        proof {
            assert(all.subrange(0, i + 1).drop_last() =~= all.subrange(0, i as int));
            assert(all.subrange(0, i + 1).last() == views(b@[i as int]@));
            assert(clause_views(out@) =~= was.push(views(head@) + views(b@[i as int]@)));
            assert(clause_views(out@) =~= clause_views(old(out)@) + each_after(
                views(head@),
                all.subrange(0, i + 1),
            ));
        }
        i += 1;
    }
    proof {
        assert(all.subrange(0, n as int) =~= all);
    }
}

/// For each clause of `a` and each clause of `b`, the two one behind the
/// other.
fn cross(a: &Vec<Vec<PropositionalConnection>>, b: &Vec<Vec<PropositionalConnection>>) -> (r: Vec<
    Vec<PropositionalConnection>,
>)
    ensures
        clause_views(r@) == crossed(clause_views(a@), clause_views(b@)),
{
    let mut r: Vec<Vec<PropositionalConnection>> = Vec::new();
    let n = a.len();
    let mut i: usize = 0;
    let ghost all = clause_views(a@);
    proof {
        assert(all.subrange(0, 0) =~= Seq::<Literals>::empty());
        assert(clause_views(r@) =~= Seq::<Literals>::empty());
    }
    while i < n
        invariant
            i <= n,
            n == a@.len(),
            all == clause_views(a@),
            clause_views(r@) == crossed(all.subrange(0, i as int), clause_views(b@)),
        decreases n - i,
    {
        proof {
            assert(all.subrange(0, i + 1).drop_last() =~= all.subrange(0, i as int));
            assert(all.subrange(0, i + 1).last() == views(a@[i as int]@));
        }
        add_each_after(&mut r, &a[i], b);
        i += 1;
    }
    proof {
        assert(all.subrange(0, n as int) =~= all);
    }
    r
}

impl PropositionalConnection {
    /// The clauses that say what the formula says, or, with `flip`, what
    /// its negation says: see `clauses_of`.
    pub fn clauses(&self, flip: bool) -> (r: Vec<Vec<PropositionalConnection>>)
        ensures
            clause_views(r@) == clauses_of(self@, flip),
        decreases self,
    {
        let mut out: Vec<Vec<PropositionalConnection>> = Vec::new();
        match &self.variable {
            Some(name) => {
                let literal = PropositionalConnection {
                    operator: Operator::NONE,
                    is_negated: self.is_negated != flip,
                    variable: Some(name.clone()),
                    variables: Vec::new(),
                };
                proof {
                    assert(literal@.variables =~= Seq::<Formula>::empty());
                    assert(literal@ == literal_of(self@, flip));
                }
                let mut clause: Vec<PropositionalConnection> = Vec::new();
                clause.push(literal);
                out.push(clause);
                proof {
                    assert(views(clause@) =~= seq![literal_of(self@, flip)]);
                    assert(clause_views(out@) =~= seq![seq![literal_of(self@, flip)]]);
                }
                return out;
            },
            None => {},
        }
        let negative = self.is_negated != flip;
        let conjunctive = (self.operator == Operator::AND) != negative;
        let n = self.variables.len();
        let ghost kids = self@.variables;
        if !conjunctive {
            out.push(Vec::new());
        }
        proof {
            assert(kids.subrange(0, 0) =~= Seq::<Formula>::empty());
            if conjunctive {
                assert(clause_views(out@) =~= Seq::<Literals>::empty());
            } else {
                assert(views(out@[0]@) =~= Seq::<Formula>::empty());
                assert(clause_views(out@) =~= seq![Seq::<Formula>::empty()]);
            }
        }
        let mut i: usize = 0;
        while i < n
            invariant
                i <= n,
                n == self.variables@.len(),
                kids == self@.variables,
                kids.len() == n,
                clause_views(out@) == (if conjunctive {
                    joined_clauses(kids.subrange(0, i as int), negative)
                } else {
                    crossed_clauses(kids.subrange(0, i as int), negative)
                }),
            decreases n - i,
        {
            proof {
                assert(kids[i as int] == self.variables@[i as int]@);
                assert(kids.subrange(0, i + 1).drop_last() =~= kids.subrange(0, i as int));
                assert(kids.subrange(0, i + 1).last() == kids[i as int]);
            }
            let part = self.variables[i].clauses(negative);
            if conjunctive {
                add_clauses(&mut out, &part);
            } else {
                out = cross(&out, &part);
            }
            i += 1;
        }
        proof {
            assert(kids.subrange(0, n as int) =~= kids);
        }
        out
    }

    /// Makes the formula the conjunction of its tidy clauses: see
    /// `completed`. The result is in conjunctive normal form and holds
    /// under the same values as the formula.
    pub fn complete(&mut self)
        ensures
            final(self)@ == completed(old(self)@),
            in_cnf(final(self)@),
            forall|val: spec_fn(Seq<char>) -> bool| #[trigger]
                holds(final(self)@, val) == holds(old(self)@, val),
    {
        let cs = self.clauses(false);
        let ghost all = disjunctions(clause_views(cs@));
        let mut groups: Vec<PropositionalConnection> = Vec::new();
        let n = cs.len();
        let mut k: usize = 0;
        proof {
            lemma_disjunctions(clause_views(cs@));
            assert(all.subrange(0, 0) =~= Seq::<Formula>::empty());
            assert(views(groups@) =~= Seq::<Formula>::empty());
        }
        while k < n
            invariant
                k <= n,
                n == cs@.len(),
                all == disjunctions(clause_views(cs@)),
                all.len() == n,
                forall|j: int| 0 <= j < n ==> all[j] == or_group(views(cs@[j]@)),
                views(groups@) == tidy(all.subrange(0, k as int)),
            decreases n - k,
        {
            let mut group = PropositionalConnection {
                operator: Operator::OR,
                is_negated: false,
                variable: None,
                variables: copy_all(&cs[k]),
            };
            proof {
                assert(group@.variables =~= views(cs@[k as int]@));
                assert(group@ == all[k as int]);
                assert(all.subrange(0, k + 1).drop_last() =~= all.subrange(0, k as int));
                assert(all.subrange(0, k + 1).last() == all[k as int]);
            }
            group.drop_repeated();
            if !group.is_tautology() {
                let ghost was = views(groups@);
                let ghost added = group@;
                groups.push(group);
                proof {
                    assert(views(groups@) =~= was.push(added));
                }
            }
            k += 1;
        }
        proof {
            assert(all.subrange(0, n as int) =~= all);
        }
        self.operator = Operator::AND;
        self.is_negated = false;
        self.variable = None;
        self.variables = groups;
        proof {
            assert(self@.variables =~= tidy(all));
            assert(self@ == completed(old(self)@));
            assert forall|val: spec_fn(Seq<char>) -> bool| #[trigger]
                holds(self@, val) == holds(old(self)@, val) by {
                law_completed_keeps_meaning(old(self)@, val);
            }
            law_completed_keeps_meaning(old(self)@, |name: Seq<char>| true);
        }
    }
}

} // verus!

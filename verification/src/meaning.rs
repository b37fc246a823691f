use crate::propositional::{
    and_group, ands_last, cleaned, cleaned_all, cleaned_members, de_morgan, de_morgan_all,
    distributed, distributed_all, distributed_here, flattened, gathered, goes_before,
    lemma_cleaned_all, lemma_de_morgan_all, lemma_distributed_all, normal_form, one_round,
    or_group, or_groups, plain_group, repeats, round_changes, settled, slid_in, tautology,
    unique_literals, with_unique_literals, without_tautologies, Formula, Operator,
};
use vstd::prelude::*;

verus! {

/// The formula is built as it is meant: a variable has no members, and a
/// group is a conjunction or a disjunction of such formulas.
pub open spec fn proper(f: Formula) -> bool
    decreases f,
{
    if f.variable is Some {
        f.variables.len() == 0
    } else {
        (f.operator == Operator::AND || f.operator == Operator::OR) && forall|i: int|
            0 <= i < f.variables.len() ==> proper(#[trigger] f.variables[i])
    }
}

/// The truth value of a proper formula when the variables have the values
/// that `val` gives to their names: a conjunction holds when all of its
/// members hold, a disjunction when one does, and a negated formula when
/// the formula does not.
pub open spec fn holds(f: Formula, val: spec_fn(Seq<char>) -> bool) -> bool
    decreases f,
{
    f.is_negated != (match f.variable {
        Some(name) => val(name),
        None => if f.operator == Operator::AND {
            holds_all(f.variables, val)
        } else {
            holds_any(f.variables, val)
        },
    })
}

/// All of the formulas hold.
pub open spec fn holds_all(kids: Seq<Formula>, val: spec_fn(Seq<char>) -> bool) -> bool
    decreases kids,
{
    kids.len() == 0 || (holds_all(kids.drop_last(), val) && holds(kids.last(), val))
}

/// One of the formulas holds.
pub open spec fn holds_any(kids: Seq<Formula>, val: spec_fn(Seq<char>) -> bool) -> bool
    decreases kids,
{
    kids.len() > 0 && (holds_any(kids.drop_last(), val) || holds(kids.last(), val))
}

/// De Morgan's laws keep the meaning of a proper formula: the formula
/// that the pass makes is proper and holds under the same values; made
/// from the negated formula, it holds exactly when the formula does not.
pub proof fn law_de_morgan_keeps_meaning(f: Formula, flip: bool, val: spec_fn(Seq<char>) -> bool)
    requires
        proper(f),
    ensures
        proper(de_morgan(f, flip)),
        holds(de_morgan(f, flip), val) == (holds(f, val) != flip),
    decreases f, 1nat,
{
    let g = de_morgan(f, flip);
    let apply = f.variables.len() > 1 && (f.is_negated != flip);
    lemma_de_morgan_all(f.variables, apply);
    if f.variable is None {
        law_de_morgan_members(f.variables, apply, val);
        assert forall|i: int| 0 <= i < g.variables.len() implies proper(#[trigger] g.variables[i]) by {
            assert(proper(f.variables[i]));
            law_de_morgan_keeps_meaning(f.variables[i], apply, val);
        }
    } else {
        assert(g.variables =~= Seq::<Formula>::empty());
    }
}

/// De Morgan's laws on the members of a group: all of the turned
/// members hold exactly when all of the members do, or, for negated
/// members, when none of them does; and likewise for one of them.
pub proof fn law_de_morgan_members(kids: Seq<Formula>, flip: bool, val: spec_fn(Seq<char>) -> bool)
    requires
        forall|i: int| 0 <= i < kids.len() ==> proper(#[trigger] kids[i]),
    ensures
        holds_all(de_morgan_all(kids, flip), val) == (if flip {
            !holds_any(kids, val)
        } else {
            holds_all(kids, val)
        }),
        holds_any(de_morgan_all(kids, flip), val) == (if flip {
            !holds_all(kids, val)
        } else {
            holds_any(kids, val)
        }),
    decreases kids, 0nat,
{
    if kids.len() > 0 {
        let rest = kids.drop_last();
        assert forall|i: int| 0 <= i < rest.len() implies proper(#[trigger] rest[i]) by {
            assert(rest[i] == kids[i]);
        }
        law_de_morgan_members(rest, flip, val);
        assert(proper(kids[kids.len() - 1]));
        law_de_morgan_keeps_meaning(kids.last(), flip, val);
        let made = de_morgan_all(kids, flip);
        assert(made.drop_last() =~= de_morgan_all(rest, flip));
        assert(made.last() == de_morgan(kids.last(), flip));
    }
}

/// All of the formulas hold exactly when each of them holds.
pub proof fn lemma_holds_all(kids: Seq<Formula>, val: spec_fn(Seq<char>) -> bool)
    ensures
        holds_all(kids, val) <==> forall|i: int| 0 <= i < kids.len() ==> holds(#[trigger] kids[i], val),
    decreases kids.len(),
{
    if kids.len() > 0 {
        let rest = kids.drop_last();
        lemma_holds_all(rest, val);
        if holds_all(kids, val) {
            assert forall|i: int| 0 <= i < kids.len() implies holds(#[trigger] kids[i], val) by {
                if i < kids.len() - 1 {
                    assert(rest[i] == kids[i]);
                }
            }
        } else if holds(kids.last(), val) {
            let i = choose|i: int| 0 <= i < rest.len() && !holds(#[trigger] rest[i], val);
            assert(kids[i] == rest[i]);
        }
    }
}

/// One of the formulas holds exactly when there is one among them that
/// holds.
pub proof fn lemma_holds_any(kids: Seq<Formula>, val: spec_fn(Seq<char>) -> bool)
    ensures
        holds_any(kids, val) <==> exists|i: int| 0 <= i < kids.len() && holds(#[trigger] kids[i], val),
    decreases kids.len(),
{
    if kids.len() > 0 {
        let rest = kids.drop_last();
        lemma_holds_any(rest, val);
        if holds_any(kids, val) {
            if holds(kids.last(), val) {
                assert(holds(kids[kids.len() - 1], val));
            } else {
                let i = choose|i: int| 0 <= i < rest.len() && holds(#[trigger] rest[i], val);
                assert(kids[i] == rest[i]);
            }
        } else {
            assert forall|i: int| 0 <= i < kids.len() implies !holds(#[trigger] kids[i], val) by {
                if i < kids.len() - 1 {
                    assert(rest[i] == kids[i]);
                }
            }
        }
    }
}

/// A list with one formula more at its end: all hold when all of the list
/// and the new one do, one holds when one of the list or the new one does.
pub proof fn lemma_holds_pushed(s: Seq<Formula>, x: Formula, val: spec_fn(Seq<char>) -> bool)
    ensures
        holds_all(s.push(x), val) == (holds_all(s, val) && holds(x, val)),
        holds_any(s.push(x), val) == (holds_any(s, val) || holds(x, val)),
{
    assert(s.push(x).drop_last() =~= s);
    assert(s.push(x).last() == x);
}

/// Two lists of the same length whose formulas hold alike, place by place:
/// all of the one hold when all of the other do, and one of the one holds
/// when one of the other does.
pub proof fn lemma_lists_alike(a: Seq<Formula>, b: Seq<Formula>, val: spec_fn(Seq<char>) -> bool)
    requires
        a.len() == b.len(),
        forall|i: int| 0 <= i < a.len() ==> holds(#[trigger] a[i], val) == holds(b[i], val),
    ensures
        holds_all(a, val) == holds_all(b, val),
        holds_any(a, val) == holds_any(b, val),
    decreases a.len(),
{
    if a.len() > 0 {
        assert forall|i: int| 0 <= i < a.len() - 1 implies holds(#[trigger] a.drop_last()[i], val)
            == holds(b.drop_last()[i], val) by {
            assert(a.drop_last()[i] == a[i]);
            assert(b.drop_last()[i] == b[i]);
        }
        lemma_lists_alike(a.drop_last(), b.drop_last(), val);
        assert(holds(a[a.len() - 1], val) == holds(b[a.len() - 1], val));
    }
}

/// Sliding a formula into a list changes neither what holds of all nor
/// what holds of one of them; and what is true of every formula of the
/// list and of the new one is true of every formula afterwards.
pub proof fn lemma_slid_in_alike(
    r: Seq<Formula>,
    x: Formula,
    val: spec_fn(Seq<char>) -> bool,
    p: spec_fn(Formula) -> bool,
)
    ensures
        slid_in(r, x).len() == r.len() + 1,
        holds_all(slid_in(r, x), val) == (holds_all(r, val) && holds(x, val)),
        holds_any(slid_in(r, x), val) == (holds_any(r, val) || holds(x, val)),
        p(x) && (forall|i: int| 0 <= i < r.len() ==> p(#[trigger] r[i])) ==> forall|i: int|
            0 <= i < slid_in(r, x).len() ==> p(#[trigger] slid_in(r, x)[i]),
    decreases r.len(),
{
    if r.len() > 0 && goes_before(x, r.last()) {
        let rest = r.drop_last();
        lemma_slid_in_alike(rest, x, val, p);
        lemma_holds_pushed(slid_in(rest, x), r.last(), val);
        if p(x) && (forall|i: int| 0 <= i < r.len() ==> p(#[trigger] r[i])) {
            assert forall|i: int| 0 <= i < rest.len() implies p(#[trigger] rest[i]) by {
                assert(rest[i] == r[i]);
            }
            assert(p(r[r.len() - 1]));
        }
    } else {
        lemma_holds_pushed(r, x, val);
    }
}

/// Moving the conjunctions to the right changes neither what holds of all
/// of the formulas nor what holds of one of them; and what is true of
/// every formula of the list is true of every formula afterwards.
pub proof fn lemma_ands_last_alike(
    s: Seq<Formula>,
    val: spec_fn(Seq<char>) -> bool,
    p: spec_fn(Formula) -> bool,
)
    ensures
        ands_last(s).len() == s.len(),
        holds_all(ands_last(s), val) == holds_all(s, val),
        holds_any(ands_last(s), val) == holds_any(s, val),
        (forall|i: int| 0 <= i < s.len() ==> p(#[trigger] s[i])) ==> forall|i: int|
            0 <= i < ands_last(s).len() ==> p(#[trigger] ands_last(s)[i]),
    decreases s.len(),
{
    if s.len() > 0 {
        let rest = s.drop_last();
        lemma_ands_last_alike(rest, val, p);
        lemma_slid_in_alike(ands_last(rest), s.last(), val, p);
        if forall|i: int| 0 <= i < s.len() ==> p(#[trigger] s[i]) {
            assert forall|i: int| 0 <= i < rest.len() implies p(#[trigger] rest[i]) by {
                assert(rest[i] == s[i]);
            }
            assert(p(s[s.len() - 1]));
        }
    }
}

/// The disjunctions that distribution makes of `left` and the members of a
/// conjunction: each is proper, and all of them hold exactly when one of
/// `left` holds or all of `inner` do.
pub proof fn lemma_or_groups(left: Seq<Formula>, inner: Seq<Formula>, val: spec_fn(Seq<char>) -> bool)
    requires
        forall|i: int| 0 <= i < left.len() ==> proper(#[trigger] left[i]),
        forall|j: int| 0 <= j < inner.len() ==> proper(#[trigger] inner[j]),
    ensures
        or_groups(left, inner).len() == inner.len(),
        forall|j: int| 0 <= j < inner.len() ==> proper(#[trigger] or_groups(left, inner)[j]),
        holds_all(or_groups(left, inner), val) == (holds_any(left, val) || holds_all(inner, val)),
{
    let made = or_groups(left, inner);
    let fit = |f: Formula| proper(f);
    assert forall|j: int| 0 <= j < inner.len() implies proper(#[trigger] made[j]) && holds(
        made[j],
        val,
    ) == (holds_any(left, val) || holds(inner[j], val)) by {
        let joined = left.push(inner[j]);
        assert forall|i: int| 0 <= i < joined.len() implies fit(#[trigger] joined[i]) by {
            if i < left.len() {
                assert(joined[i] == left[i]);
            }
        }
        lemma_ands_last_alike(joined, val, fit);
        lemma_holds_pushed(left, inner[j], val);
        let members = ands_last(joined);
        assert(made[j] == or_group(members));
        assert forall|i: int| 0 <= i < members.len() implies proper(#[trigger] members[i]) by {
            assert(fit(members[i]));
        }
        assert(proper(or_group(members)));
    }
    lemma_holds_all(made, val);
    lemma_holds_all(inner, val);
    if !holds_any(left, val) && !holds_all(inner, val) {
        let j = choose|j: int| 0 <= j < inner.len() && !holds(#[trigger] inner[j], val);
        assert(!holds(made[j], val));
    }
}

/// The left-hand group that distribution gathers from the first `upto`
/// members of a disjunction: its formulas are proper, and one of them
/// holds exactly when one of those members does.
pub proof fn lemma_gathered(kids: Seq<Formula>, upto: nat, val: spec_fn(Seq<char>) -> bool)
    requires
        1 <= upto <= kids.len(),
        forall|i: int| 0 <= i < kids.len() ==> proper(#[trigger] kids[i]),
    ensures
        gathered(kids, upto).0.len() >= 1,
        forall|i: int|
            0 <= i < gathered(kids, upto).0.len() ==> proper(#[trigger] gathered(kids, upto).0[i]),
        holds_any(gathered(kids, upto).0, val) == holds_any(kids.subrange(0, upto as int), val),
    decreases upto,
{
    let fit = |f: Formula| proper(f);
    if upto <= 1 {
        assert(kids.subrange(0, 1) =~= seq![kids[0]]);
        assert(seq![kids[0]] =~= Seq::<Formula>::empty().push(kids[0]));
        lemma_holds_pushed(Seq::<Formula>::empty(), kids[0], val);
        assert(proper(kids[0]));
    } else {
        let before = (upto - 1) as nat;
        lemma_gathered(kids, before, val);
        let left = gathered(kids, before).0;
        let cur = kids[upto - 1];
        assert(proper(cur));
        assert(kids.subrange(0, upto as int) =~= kids.subrange(0, before as int).push(cur));
        lemma_holds_pushed(kids.subrange(0, before as int), cur, val);
        if plain_group(cur, Operator::AND) {
            lemma_or_groups(left, cur.variables, val);
            let groups = or_groups(left, cur.variables);
            assert forall|j: int| 0 <= j < groups.len() implies fit(#[trigger] groups[j]) by {
                assert(proper(groups[j]));
            }
            lemma_ands_last_alike(groups, val, fit);
            let sorted = ands_last(groups);
            assert forall|j: int| 0 <= j < sorted.len() implies proper(#[trigger] sorted[j]) by {
                assert(fit(sorted[j]));
            }
            let whole = and_group(sorted);
            assert(proper(whole));
            assert(seq![whole] =~= Seq::<Formula>::empty().push(whole));
            lemma_holds_pushed(Seq::<Formula>::empty(), whole, val);
            assert(holds(cur, val) == holds_all(cur.variables, val));
            assert(holds(whole, val) == holds_all(sorted, val));
            assert(gathered(kids, upto).0 == seq![whole]);
        } else {
            lemma_holds_pushed(left, cur, val);
            assert forall|i: int| 0 <= i < left.push(cur).len() implies proper(
                #[trigger] left.push(cur)[i],
            ) by {
                if i < left.len() {
                    assert(left.push(cur)[i] == left[i]);
                }
            }
        }
    }
}

/// The law of distribution at the top of a proper group keeps its
/// meaning, and leaves a proper formula.
pub proof fn lemma_distributed_here(f: Formula, val: spec_fn(Seq<char>) -> bool)
    requires
        proper(f),
        f.variable is None,
    ensures
        holds(distributed_here(f).0, val) == holds(f, val),
        proper(distributed_here(f).0),
{
    if f.operator == Operator::OR && f.variables.len() > 0 {
        let kids = f.variables;
        let fit = |g: Formula| proper(g);
        lemma_gathered(kids, kids.len(), val);
        assert(kids.subrange(0, kids.len() as int) =~= kids);
        let left = gathered(kids, kids.len()).0;
        assert forall|i: int| 0 <= i < left.len() implies fit(#[trigger] left[i]) by {
            assert(proper(left[i]));
        }
        lemma_ands_last_alike(left, val, fit);
        let sorted = ands_last(left);
        assert forall|i: int| 0 <= i < sorted.len() implies proper(#[trigger] sorted[i]) by {
            assert(fit(sorted[i]));
        }
        if sorted.len() == 1 {
            let only = sorted[0];
            let made = distributed_here(f).0;
            assert(proper(only));
            assert(sorted =~= Seq::<Formula>::empty().push(only));
            lemma_holds_pushed(Seq::<Formula>::empty(), only, val);
            assert(made == Formula { is_negated: f.is_negated != only.is_negated, ..only });
            assert(proper(made)) by {
                if only.variable is None {
                    assert forall|i: int| 0 <= i < made.variables.len() implies proper(
                        #[trigger] made.variables[i],
                    ) by {
                        assert(proper(only.variables[i]));
                    }
                }
            }
        } else {
            assert(proper(distributed_here(f).0));
        }
    }
}

/// The law of distribution keeps the meaning of a proper formula: the
/// formula that the pass makes, to whatever depth, is proper and holds
/// under the same values.
pub proof fn law_distribution_keeps_meaning(f: Formula, fuel: nat, val: spec_fn(Seq<char>) -> bool)
    requires
        proper(f),
    ensures
        proper(distributed(f, fuel)),
        holds(distributed(f, fuel), val) == holds(f, val),
    decreases fuel,
{
    if f.variable is None {
        lemma_distributed_here(f, val);
        let g = distributed_here(f).0;
        if fuel > 0 {
            let deeper = (fuel - 1) as nat;
            let made = distributed_all(g.variables, deeper);
            lemma_distributed_all(g.variables, deeper);
            if g.variable is None {
                assert forall|i: int| 0 <= i < g.variables.len() implies proper(#[trigger] made[i])
                    && holds(made[i], val) == holds(g.variables[i], val) by {
                    assert(proper(g.variables[i]));
                    law_distribution_keeps_meaning(g.variables[i], deeper, val);
                }
                lemma_lists_alike(made, g.variables, val);
            }
        }
    }
}

/// Two lists one after the other: all hold when all of both do, one holds
/// when one of either does.
pub proof fn lemma_holds_joined(a: Seq<Formula>, b: Seq<Formula>, val: spec_fn(Seq<char>) -> bool)
    ensures
        holds_all(a + b, val) == (holds_all(a, val) && holds_all(b, val)),
        holds_any(a + b, val) == (holds_any(a, val) || holds_any(b, val)),
    decreases b.len(),
{
    if b.len() == 0 {
        assert(a + b =~= a);
    } else {
        lemma_holds_joined(a, b.drop_last(), val);
        assert(a + b =~= (a + b.drop_last()).push(b.last()));
        lemma_holds_pushed(a + b.drop_last(), b.last(), val);
    }
}

/// The members of the groups under `op` in the place of those groups: all
/// of them are proper again; under a conjunction all hold when all did,
/// under a disjunction one holds when one did.
pub proof fn lemma_flattened(kids: Seq<Formula>, op: Operator, val: spec_fn(Seq<char>) -> bool)
    requires
        op == Operator::AND || op == Operator::OR,
        forall|i: int| 0 <= i < kids.len() ==> proper(#[trigger] kids[i]),
    ensures
        forall|i: int|
            0 <= i < flattened(kids, op).len() ==> proper(#[trigger] flattened(kids, op)[i]),
        op == Operator::AND ==> holds_all(flattened(kids, op), val) == holds_all(kids, val),
        op == Operator::OR ==> holds_any(flattened(kids, op), val) == holds_any(kids, val),
    decreases kids.len(),
{
    if kids.len() > 0 {
        let rest = kids.drop_last();
        let k = kids.last();
        assert forall|i: int| 0 <= i < rest.len() implies proper(#[trigger] rest[i]) by {
            assert(rest[i] == kids[i]);
        }
        lemma_flattened(rest, op, val);
        assert(proper(kids[kids.len() - 1]));
        let before = flattened(rest, op);
        if plain_group(k, op) {
            lemma_holds_joined(before, k.variables, val);
            assert(holds(k, val) == if op == Operator::AND {
                holds_all(k.variables, val)
            } else {
                holds_any(k.variables, val)
            });
            assert(flattened(kids, op) == before + k.variables);
            assert forall|i: int| 0 <= i < (before + k.variables).len() implies proper(
                #[trigger] (before + k.variables)[i],
            ) by {
                if i < before.len() {
                    assert((before + k.variables)[i] == before[i]);
                } else {
                    assert((before + k.variables)[i] == k.variables[i - before.len()]);
                }
            }
        } else {
            lemma_holds_pushed(before, k, val);
            assert(flattened(kids, op) == before.push(k));
            assert forall|i: int| 0 <= i < before.push(k).len() implies proper(
                #[trigger] before.push(k)[i],
            ) by {
                if i < before.len() {
                    assert(before.push(k)[i] == before[i]);
                }
            }
        }
        assert(holds_all(kids, val) == (holds_all(rest, val) && holds(k, val)));
        assert(holds_any(kids, val) == (holds_any(rest, val) || holds(k, val)));
    }
}

/// A tautology holds whatever the values.
pub proof fn lemma_tautology_holds(t: Formula, val: spec_fn(Seq<char>) -> bool)
    requires
        tautology(t),
    ensures
        holds(t, val),
{
    let kids = t.variables;
    let (i, j) = choose|i: int, j: int|
        0 <= i < kids.len() && 0 <= j < kids.len() && (#[trigger] kids[i]).variable is Some
            && kids[i].variable == (#[trigger] kids[j]).variable && kids[i].is_negated
            != kids[j].is_negated;
    lemma_holds_any(kids, val);
    if holds(kids[i], val) {
    } else {
        assert(holds(kids[j], val));
    }
}

/// The list without its tautologies: all of them hold when all of the
/// list did, and what is true of every formula of the list is true of
/// every formula that is left.
pub proof fn lemma_without_tautologies(
    kids: Seq<Formula>,
    val: spec_fn(Seq<char>) -> bool,
    p: spec_fn(Formula) -> bool,
)
    ensures
        holds_all(without_tautologies(kids), val) == holds_all(kids, val),
        forall|i: int|
            0 <= i < without_tautologies(kids).len() ==> !tautology(
                #[trigger] without_tautologies(kids)[i],
            ),
        (forall|i: int| 0 <= i < kids.len() ==> p(#[trigger] kids[i])) ==> forall|i: int|
            0 <= i < without_tautologies(kids).len() ==> p(#[trigger] without_tautologies(kids)[i]),
    decreases kids.len(),
{
    if kids.len() > 0 {
        let rest = kids.drop_last();
        let k = kids.last();
        lemma_without_tautologies(rest, val, p);
        let before = without_tautologies(rest);
        if tautology(k) {
            lemma_tautology_holds(k, val);
        } else {
            lemma_holds_pushed(before, k, val);
            assert forall|i: int| 0 <= i < before.push(k).len() implies !tautology(
                #[trigger] before.push(k)[i],
            ) by {
                if i < before.len() {
                    assert(before.push(k)[i] == before[i]);
                }
            }
        }
        if forall|i: int| 0 <= i < kids.len() ==> p(#[trigger] kids[i]) {
            assert forall|i: int| 0 <= i < rest.len() implies p(#[trigger] rest[i]) by {
                assert(rest[i] == kids[i]);
            }
            assert(p(kids[kids.len() - 1]));
            if !tautology(k) {
                assert forall|i: int| 0 <= i < before.push(k).len() implies p(
                    #[trigger] before.push(k)[i],
                ) by {
                    if i < before.len() {
                        assert(before.push(k)[i] == before[i]);
                    }
                }
            }
        }
    }
}

/// The clean-up at the top of a proper group keeps its meaning, and
/// leaves proper members.
pub proof fn lemma_cleaned_members(f: Formula, val: spec_fn(Seq<char>) -> bool)
    requires
        proper(f),
        f.variable is None,
    ensures
        forall|i: int|
            0 <= i < cleaned_members(f).len() ==> proper(#[trigger] cleaned_members(f)[i]),
        f.operator == Operator::AND ==> holds_all(cleaned_members(f), val) == holds_all(
            f.variables,
            val,
        ),
        f.operator == Operator::OR ==> holds_any(cleaned_members(f), val) == holds_any(
            f.variables,
            val,
        ),
{
    let fit = |g: Formula| proper(g);
    lemma_flattened(f.variables, f.operator, val);
    let flat = flattened(f.variables, f.operator);
    assert forall|i: int| 0 <= i < flat.len() implies fit(#[trigger] flat[i]) by {
        assert(proper(flat[i]));
    }
    lemma_without_tautologies(flat, val, fit);
    if f.operator == Operator::AND {
        let left = without_tautologies(flat);
        assert forall|i: int| 0 <= i < left.len() implies proper(#[trigger] left[i]) by {
            assert(fit(left[i]));
        }
    }
}

/// The clean-up keeps the meaning of a proper formula: the formula that
/// the pass makes, to whatever depth, is proper and holds under the same
/// values.
pub proof fn law_clean_up_keeps_meaning(f: Formula, fuel: nat, val: spec_fn(Seq<char>) -> bool)
    requires
        proper(f),
    ensures
        proper(cleaned(f, fuel)),
        holds(cleaned(f, fuel), val) == holds(f, val),
    decreases fuel,
{
    let members = cleaned_members(f);
    if f.variable is None {
        lemma_cleaned_members(f, val);
        if fuel > 0 {
            let deeper = (fuel - 1) as nat;
            let made = cleaned_all(members, deeper);
            lemma_cleaned_all(members, deeper);
            assert forall|i: int| 0 <= i < members.len() implies proper(#[trigger] made[i]) && holds(
                made[i],
                val,
            ) == holds(members[i], val) by {
                assert(proper(members[i]));
                law_clean_up_keeps_meaning(members[i], deeper, val);
            }
            lemma_lists_alike(made, members, val);
        }
    } else {
        assert(f.variables =~= Seq::<Formula>::empty());
        assert(flattened(f.variables, f.operator) =~= Seq::<Formula>::empty());
        assert(without_tautologies(Seq::<Formula>::empty()) =~= Seq::<Formula>::empty());
        assert(members =~= Seq::<Formula>::empty());
        if fuel > 0 {
            lemma_cleaned_all(members, (fuel - 1) as nat);
        }
    }
}

/// Dropping the variables that repeat an earlier member changes neither
/// what holds of all of the formulas nor what holds of one of them; and
/// what is true of every formula of the list is true of every formula
/// that is left.
pub proof fn law_unique_literals_keep_meaning(
    kids: Seq<Formula>,
    val: spec_fn(Seq<char>) -> bool,
    p: spec_fn(Formula) -> bool,
)
    ensures
        holds_all(unique_literals(kids), val) == holds_all(kids, val),
        holds_any(unique_literals(kids), val) == holds_any(kids, val),
        (forall|i: int| 0 <= i < kids.len() ==> p(#[trigger] kids[i])) ==> forall|i: int|
            0 <= i < unique_literals(kids).len() ==> p(#[trigger] unique_literals(kids)[i]),
    decreases kids.len(),
{
    if kids.len() > 0 {
        let rest = kids.drop_last();
        let x = kids.last();
        law_unique_literals_keep_meaning(rest, val, p);
        let before = unique_literals(rest);
        if repeats(rest, x) {
            let i = choose|i: int|
                0 <= i < rest.len() && (#[trigger] rest[i]).variable == x.variable
                    && rest[i].is_negated == x.is_negated;
            assert(holds(rest[i], val) == holds(x, val));
            lemma_holds_all(rest, val);
            lemma_holds_any(rest, val);
        } else {
            lemma_holds_pushed(before, x, val);
        }
        if forall|i: int| 0 <= i < kids.len() ==> p(#[trigger] kids[i]) {
            assert forall|i: int| 0 <= i < rest.len() implies p(#[trigger] rest[i]) by {
                assert(rest[i] == kids[i]);
            }
            assert(p(kids[kids.len() - 1]));
            if !repeats(rest, x) {
                assert forall|i: int| 0 <= i < before.push(x).len() implies p(
                    #[trigger] before.push(x)[i],
                ) by {
                    if i < before.len() {
                        assert(before.push(x)[i] == before[i]);
                    }
                }
            }
        }
    }
}

/// A formula whose members are freed of repeated variables holds under
/// the same values as before.
pub proof fn law_unique_members_keep_meaning(f: Formula, val: spec_fn(Seq<char>) -> bool)
    ensures
        holds(with_unique_literals(f), val) == holds(f, val),
{
    law_unique_literals_keep_meaning(f.variables, val, |g: Formula| true);
}

/// A round of the three passes keeps the meaning of a proper formula and
/// leaves a proper formula.
pub proof fn law_round_keeps_meaning(f: Formula, val: spec_fn(Seq<char>) -> bool)
    requires
        proper(f),
    ensures
        proper(one_round(f)),
        holds(one_round(f), val) == holds(f, val),
{
    let turned = de_morgan(f, false);
    law_de_morgan_keeps_meaning(f, false, val);
    law_distribution_keeps_meaning(turned, usize::MAX as nat, val);
    law_clean_up_keeps_meaning(distributed(turned, usize::MAX as nat), usize::MAX as nat, val);
}

/// The rounds of the three passes keep the meaning of a proper formula
/// and leave a proper formula.
pub proof fn law_rounds_keep_meaning(f: Formula, fuel: nat, val: spec_fn(Seq<char>) -> bool)
    requires
        proper(f),
    ensures
        proper(settled(f, fuel)),
        holds(settled(f, fuel), val) == holds(f, val),
    decreases fuel,
{
    if fuel > 0 {
        law_round_keeps_meaning(f, val);
        if round_changes(f) {
            law_rounds_keep_meaning(one_round(f), (fuel - 1) as nat, val);
        }
    }
}

/// The rounds of the three passes, with the members then freed of
/// repeated variables, keep the meaning of a proper formula.
pub proof fn law_normal_form_keeps_meaning(f: Formula, val: spec_fn(Seq<char>) -> bool)
    requires
        proper(f),
    ensures
        holds(normal_form(f), val) == holds(f, val),
{
    law_rounds_keep_meaning(f, usize::MAX as nat, val);
    let g = settled(f, usize::MAX as nat);
    let made = normal_form(f).variables;
    assert forall|i: int| 0 <= i < made.len() implies holds(#[trigger] made[i], val) == holds(
        g.variables[i],
        val,
    ) by {
        law_unique_members_keep_meaning(g.variables[i], val);
    }
    lemma_lists_alike(made, g.variables, val);
}

} // verus!

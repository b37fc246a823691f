use crate::clausal::completed;
use crate::clausal::in_cnf;
use crate::meaning::holds;
use crate::meaning::law_normal_form_keeps_meaning;
use crate::meaning::proper;
use vstd::prelude::*;
use vstd::string::StringExecFns;

verus! {

/// The connective of a group of formulas; `NONE` for a single variable.
#[derive(Debug, PartialEq, Eq, Clone, Copy, Structural)]
pub enum Operator {
    AND,
    OR,
    IMPLIES,
    IIF,
    NONE,
}

/// A propositional formula: a variable, or a group of formulas under a
/// connective; either may be negated.
#[derive(Debug)]
pub struct PropositionalConnection {
    pub operator: Operator,
    pub is_negated: bool,
    pub variable: Option<String>,
    pub variables: Vec<PropositionalConnection>,
}

/// A formula as a value of mathematics: the name as a sequence of
/// characters, the members of a group as a sequence of formulas.
pub struct Formula {
    pub operator: Operator,
    pub is_negated: bool,
    pub variable: Option<Seq<char>>,
    pub variables: Seq<Formula>,
}

impl PropositionalConnection {
    /// The formula as a value of mathematics.
    pub open spec fn model(&self) -> Formula
        decreases self,
    {
        Formula {
            operator: self.operator,
            is_negated: self.is_negated,
            variable: match self.variable {
                Some(s) => Some(s@),
                None => None,
            },
            variables: Seq::new(
                self.variables@.len(),
                |i: int|
                    if 0 <= i < self.variables@.len() {
                        self.variables@[i].model()
                    } else {
                        arbitrary()
                    },
            ),
        }
    }
}

impl View for PropositionalConnection {
    type V = Formula;

    open spec fn view(&self) -> Formula {
        self.model()
    }
}

impl Clone for PropositionalConnection {
    fn clone(&self) -> (r: Self)
        ensures
            r@ == self@,
    {
        self.duplicate()
    }
}

/// The views of the formulas of a list.
pub open spec fn views(v: Seq<PropositionalConnection>) -> Seq<Formula> {
    Seq::new(v.len(), |i: int| v[i]@)
}

/// The parts, with `sep` between each two of them.
pub open spec fn joined(parts: Seq<Seq<char>>, sep: Seq<char>) -> Seq<char>
    decreases parts.len(),
{
    if parts.len() == 0 {
        Seq::empty()
    } else if parts.len() == 1 {
        parts[0]
    } else {
        joined(parts.drop_last(), sep) + sep + parts.last()
    }
}

/// What stands between the members of a group when it is written out.
pub open spec fn separator(op: Operator) -> Seq<char> {
    match op {
        Operator::AND => " ∧ "@,
        Operator::OR => " ∨ "@,
        _ => Seq::empty(),
    }
}

/// The formula can be written out: no group of two or more members is an
/// implication or an equivalence.
pub open spec fn printable(f: Formula) -> bool
    decreases f,
{
    f.variable is Some || ((f.variables.len() >= 2 ==> f.operator != Operator::IMPLIES && f.operator
        != Operator::IIF) && forall|i: int|
        0 <= i < f.variables.len() ==> printable(#[trigger] f.variables[i]))
}

/// The formula written out: `¬` before a negated formula; a variable by
/// its name; a group by its members with the sign of its connective
/// between them, in brackets when it has two members or more.
pub open spec fn rendered(f: Formula) -> Seq<char>
    decreases f,
{
    (if f.is_negated {
        "¬"@
    } else {
        Seq::empty()
    }) + (match f.variable {
        Some(name) => name,
        None => (if f.variables.len() > 1 {
            "("@
        } else {
            Seq::empty()
        }) + joined(rendered_all(f.variables), separator(f.operator)) + (if f.variables.len() > 1 {
            ")"@
        } else {
            Seq::empty()
        }),
    })
}

/// Each of the formulas written out.
pub open spec fn rendered_all(kids: Seq<Formula>) -> Seq<Seq<char>>
    decreases kids,
{
    if kids.len() == 0 {
        Seq::empty()
    } else {
        rendered_all(kids.drop_last()).push(rendered(kids.last()))
    }
}

/// `rendered_all` writes out each formula at its place.
pub proof fn lemma_rendered_all(kids: Seq<Formula>)
    ensures
        rendered_all(kids).len() == kids.len(),
        forall|i: int| 0 <= i < kids.len() ==> #[trigger] rendered_all(kids)[i] == rendered(kids[i]),
    decreases kids.len(),
{
    if kids.len() > 0 {
        lemma_rendered_all(kids.drop_last());
        assert forall|i: int| 0 <= i < kids.len() implies #[trigger] rendered_all(kids)[i]
            == rendered(kids[i]) by {
            if i < kids.len() - 1 {
                assert(kids.drop_last()[i] == kids[i]);
            }
        }
    }
}

/// De Morgan's laws applied throughout the formula, which is first
/// negated if `flip` says so: a negated group of two members or more
/// becomes the group of its negated members under the other connective.
pub open spec fn de_morgan(f: Formula, flip: bool) -> Formula
    decreases f,
{
    let negative = f.is_negated != flip;
    let apply = f.variables.len() > 1 && negative;
    Formula {
        operator: if apply {
            if f.operator == Operator::AND {
                Operator::OR
            } else {
                Operator::AND
            }
        } else {
            f.operator
        },
        is_negated: if apply {
            false
        } else {
            negative
        },
        variable: f.variable,
        variables: de_morgan_all(f.variables, apply),
    }
}

/// `de_morgan` on each formula of the list.
pub open spec fn de_morgan_all(kids: Seq<Formula>, flip: bool) -> Seq<Formula>
    decreases kids,
{
    if kids.len() == 0 {
        Seq::empty()
    } else {
        de_morgan_all(kids.drop_last(), flip).push(de_morgan(kids.last(), flip))
    }
}

/// Whether `de_morgan` turns a group somewhere in the formula.
pub open spec fn de_morgan_applies(f: Formula, flip: bool) -> bool
    decreases f,
{
    let apply = f.variables.len() > 1 && (f.is_negated != flip);
    apply || de_morgan_applies_any(f.variables, apply)
}

/// Whether `de_morgan` turns a group in one of the formulas.
pub open spec fn de_morgan_applies_any(kids: Seq<Formula>, flip: bool) -> bool
    decreases kids,
{
    if kids.len() == 0 {
        false
    } else {
        de_morgan_applies_any(kids.drop_last(), flip) || de_morgan_applies(kids.last(), flip)
    }
}

/// `de_morgan_all` turns each formula at its place.
pub proof fn lemma_de_morgan_all(kids: Seq<Formula>, flip: bool)
    ensures
        de_morgan_all(kids, flip).len() == kids.len(),
        forall|i: int|
            0 <= i < kids.len() ==> #[trigger] de_morgan_all(kids, flip)[i] == de_morgan(
                kids[i],
                flip,
            ),
    decreases kids.len(),
{
    if kids.len() > 0 {
        lemma_de_morgan_all(kids.drop_last(), flip);
        assert forall|i: int| 0 <= i < kids.len() implies #[trigger] de_morgan_all(kids, flip)[i]
            == de_morgan(kids[i], flip) by {
            if i < kids.len() - 1 {
                assert(kids.drop_last()[i] == kids[i]);
            }
        }
    }
}

/// In the order that keeps conjunctions to the right, `a` goes before
/// `b`: their connectives differ and `a` is no conjunction.
pub open spec fn goes_before(a: Formula, b: Formula) -> bool {
    a.operator != b.operator && a.operator != Operator::AND
}

/// The list `r` with `x` slid in from the right, past every formula that
/// it goes before.
pub open spec fn slid_in(r: Seq<Formula>, x: Formula) -> Seq<Formula>
    decreases r.len(),
{
    if r.len() > 0 && goes_before(x, r.last()) {
        slid_in(r.drop_last(), x).push(r.last())
    } else {
        r.push(x)
    }
}

/// The list with its formulas slid in one after the other, which moves the
/// conjunctions to the right.
pub open spec fn ands_last(s: Seq<Formula>) -> Seq<Formula>
    decreases s.len(),
{
    if s.len() == 0 {
        s
    } else {
        slid_in(ands_last(s.drop_last()), s.last())
    }
}

/// Sliding `x` into `r` puts it at position `p` when it goes before every
/// formula from `p` on and not before the one in front of `p`.
pub proof fn lemma_slid_in(r: Seq<Formula>, x: Formula, p: int)
    requires
        0 <= p <= r.len(),
        forall|q: int| p <= q < r.len() ==> goes_before(x, #[trigger] r[q]),
        p > 0 ==> !goes_before(x, r[p - 1]),
    ensures
        slid_in(r, x) == r.insert(p, x),
    decreases r.len() - p,
{
    if p == r.len() {
        assert(r.push(x) =~= r.insert(p, x));
    } else {
        let d = r.drop_last();
        assert forall|q: int| p <= q < d.len() implies goes_before(x, #[trigger] d[q]) by {
            assert(d[q] == r[q]);
        }
        if p > 0 {
            assert(d[p - 1] == r[p - 1]);
        }
        lemma_slid_in(d, x, p);
        assert(d.insert(p, x).push(r.last()) =~= r.insert(p, x));
    }
}

/// A disjunction without a sign of its own.
pub open spec fn or_group(members: Seq<Formula>) -> Formula {
    Formula { operator: Operator::OR, is_negated: false, variable: None, variables: members }
}

/// A conjunction without a sign of its own.
pub open spec fn and_group(members: Seq<Formula>) -> Formula {
    Formula { operator: Operator::AND, is_negated: false, variable: None, variables: members }
}

/// For each formula of `inner`, the disjunction of `left` and that
/// formula, conjunctions to the right.
pub open spec fn or_groups(left: Seq<Formula>, inner: Seq<Formula>) -> Seq<Formula> {
    Seq::new(inner.len(), |j: int| or_group(ands_last(left.push(inner[j]))))
}

/// The formula is a group under `op` that is not negated.
pub open spec fn plain_group(f: Formula, op: Operator) -> bool {
    f.variable is None && !f.is_negated && f.operator == op
}

/// The left-hand group after the first `upto` members of a disjunction:
/// a conjunction that is not negated and does not stand first is
/// distributed over the group, and the conjunction that results is then
/// the whole group; any other member joins the group. The flag tells
/// whether a conjunction was distributed.
pub open spec fn gathered(kids: Seq<Formula>, upto: nat) -> (Seq<Formula>, bool)
    decreases upto,
{
    if upto <= 1 {
        (seq![kids[0]], false)
    } else {
        let (left, check) = gathered(kids, (upto - 1) as nat);
        let cur = kids[upto - 1];
        if plain_group(cur, Operator::AND) {
            (seq![and_group(ands_last(or_groups(left, cur.variables)))], true)
        } else {
            (left.push(cur), check)
        }
    }
}

/// The law of distribution at the top of the formula: a disjunction with
/// members becomes its left-hand group, conjunctions to the right, or,
/// when that group is a single formula, becomes that formula, with the
/// other sign if the disjunction was negated.
pub open spec fn distributed_here(f: Formula) -> (Formula, bool) {
    if f.variable is None && f.operator == Operator::OR && f.variables.len() > 0 {
        let (left, check) = gathered(f.variables, f.variables.len());
        let sorted = ands_last(left);
        if sorted.len() == 1 {
            (Formula { is_negated: f.is_negated != sorted[0].is_negated, ..sorted[0] }, check)
        } else {
            (Formula { variables: sorted, ..f }, check)
        }
    } else {
        (f, false)
    }
}

/// The law of distribution at the top of the formula and then, to the
/// depth `fuel`, in the members that this leaves.
pub open spec fn distributed(f: Formula, fuel: nat) -> Formula
    decreases fuel, 0nat,
{
    if f.variable is Some {
        f
    } else {
        let g = distributed_here(f).0;
        if fuel == 0 {
            g
        } else {
            Formula { variables: distributed_all(g.variables, (fuel - 1) as nat), ..g }
        }
    }
}

/// `distributed` on each formula of the list.
pub open spec fn distributed_all(kids: Seq<Formula>, fuel: nat) -> Seq<Formula>
    decreases fuel, kids.len(),
{
    if kids.len() == 0 {
        Seq::empty()
    } else {
        distributed_all(kids.drop_last(), fuel).push(distributed(kids.last(), fuel))
    }
}

/// Whether `distributed` distributes a conjunction somewhere.
pub open spec fn distributes(f: Formula, fuel: nat) -> bool
    decreases fuel, 0nat,
{
    if f.variable is Some {
        false
    } else {
        let (g, check) = distributed_here(f);
        if fuel == 0 {
            check
        } else {
            check || distributes_any(g.variables, (fuel - 1) as nat)
        }
    }
}

/// Whether `distributed` distributes a conjunction in one of the
/// formulas.
pub open spec fn distributes_any(kids: Seq<Formula>, fuel: nat) -> bool
    decreases fuel, kids.len(),
{
    if kids.len() == 0 {
        false
    } else {
        distributes_any(kids.drop_last(), fuel) || distributes(kids.last(), fuel)
    }
}

/// `distributed_all` distributes in each formula at its place.
pub proof fn lemma_distributed_all(kids: Seq<Formula>, fuel: nat)
    ensures
        distributed_all(kids, fuel).len() == kids.len(),
        forall|i: int|
            0 <= i < kids.len() ==> #[trigger] distributed_all(kids, fuel)[i] == distributed(
                kids[i],
                fuel,
            ),
    decreases kids.len(),
{
    if kids.len() > 0 {
        lemma_distributed_all(kids.drop_last(), fuel);
        assert forall|i: int| 0 <= i < kids.len() implies #[trigger] distributed_all(kids, fuel)[i]
            == distributed(kids[i], fuel) by {
            if i < kids.len() - 1 {
                assert(kids.drop_last()[i] == kids[i]);
            }
        }
    }
}

/// A copy of the list.
pub fn copy_all(v: &Vec<PropositionalConnection>) -> (r: Vec<PropositionalConnection>)
    ensures
        views(r@) == views(v@),
{
    let mut r: Vec<PropositionalConnection> = Vec::new();
    let n = v.len();
    let mut i: usize = 0;
    while i < n
        invariant
            i <= n,
            n == v@.len(),
            r@.len() == i,
            forall|j: int| 0 <= j < i ==> (#[trigger] r@[j])@ == v@[j]@,
        decreases n - i,
    {
        r.push(v[i].duplicate());
        i += 1;
    }
    proof {
        assert(views(r@) =~= views(v@));
    }
    r
}

/// Moves the conjunctions of the list to the right: see `ands_last`.
pub fn sort_ands_last(v: &mut Vec<PropositionalConnection>)
    ensures
        views(final(v)@) == ands_last(views(old(v)@)),
{
    let n = v.len();
    let ghost orig = views(v@);
    let mut i: usize = 0;
    proof {
        assert(orig.subrange(0, 0) =~= Seq::<Formula>::empty());
        assert(views(v@).subrange(0, 0) =~= Seq::<Formula>::empty());
    }
    while i < n
        invariant
            i <= n,
            n == v@.len(),
            orig.len() == n,
            orig == views(old(v)@),
            views(v@).subrange(0, i as int) == ands_last(orig.subrange(0, i as int)),
            views(v@).subrange(i as int, n as int) == orig.subrange(i as int, n as int),
        decreases n - i,
    {
        let ghost before = views(v@);
        let ghost r = before.subrange(0, i as int);
        let ghost x = before[i as int];
        let mut p: usize = i;
        while p > 0 && v[i].operator != v[p - 1].operator && !(v[i].operator == Operator::AND)
            invariant
                p <= i,
                i < n,
                n == v@.len(),
                before == views(v@),
                r == before.subrange(0, i as int),
                x == before[i as int],
                forall|q: int| p <= q < i ==> goes_before(x, #[trigger] r[q]),
            decreases p,
        {
            proof {
                assert(r[p - 1] == v@[p - 1]@);
                assert(x == v@[i as int]@);
            }
            p -= 1;
        }
        proof {
            assert(x == v@[i as int]@);
            if p > 0 {
                assert(r[p - 1] == v@[p - 1]@);
            }
            lemma_slid_in(r, x, p as int);
        }
        if p < i {
            let moved = v.remove(i);
            v.insert(p, moved);
        }
        proof {
            let after = views(v@);
            assert(after.subrange(0, i + 1) =~= r.insert(p as int, x));
            assert(after.subrange(i + 1, n as int) =~= before.subrange(i + 1, n as int));
            let bt = before.subrange(i as int, n as int);
            let ot = orig.subrange(i as int, n as int);
            assert(before.subrange(i + 1, n as int) =~= bt.subrange(1, n - i));
            assert(orig.subrange(i + 1, n as int) =~= ot.subrange(1, n - i));
            assert(x == orig[i as int]) by {
                assert(before.subrange(i as int, n as int)[0] == orig.subrange(i as int, n as int)[0]);
            }
            assert(orig.subrange(0, i + 1).drop_last() =~= orig.subrange(0, i as int));
            assert(orig.subrange(0, i + 1).last() == x);
        }
        i += 1;
    }
    proof {
        assert(views(v@).subrange(0, n as int) =~= views(v@));
        assert(orig.subrange(0, n as int) =~= orig);
    }
}

/// The list with the members of every group under `op` that is not
/// negated in the place of that group.
pub open spec fn flattened(kids: Seq<Formula>, op: Operator) -> Seq<Formula>
    decreases kids.len(),
{
    if kids.len() == 0 {
        Seq::empty()
    } else if plain_group(kids.last(), op) {
        flattened(kids.drop_last(), op) + kids.last().variables
    } else {
        flattened(kids.drop_last(), op).push(kids.last())
    }
}

/// One of the formulas is a group under `op` that is not negated.
pub open spec fn has_group(kids: Seq<Formula>, op: Operator) -> bool {
    exists|i: int| 0 <= i < kids.len() && plain_group(#[trigger] kids[i], op)
}

/// Two of the formulas are the same variable, once negated and once not.
pub open spec fn clashing(kids: Seq<Formula>) -> bool {
    exists|i: int, j: int|
        0 <= i < kids.len() && 0 <= j < kids.len() && (#[trigger] kids[i]).variable is Some
            && kids[i].variable == (#[trigger] kids[j]).variable && kids[i].is_negated
            != kids[j].is_negated
}

/// The formula is a disjunction that holds whatever the values: it is not
/// negated and has a variable among its members both negated and not.
pub open spec fn tautology(f: Formula) -> bool {
    plain_group(f, Operator::OR) && clashing(f.variables)
}

/// The list without its tautologies.
pub open spec fn without_tautologies(kids: Seq<Formula>) -> Seq<Formula>
    decreases kids.len(),
{
    if kids.len() == 0 {
        Seq::empty()
    } else if tautology(kids.last()) {
        without_tautologies(kids.drop_last())
    } else {
        without_tautologies(kids.drop_last()).push(kids.last())
    }
}

/// One of the formulas is a tautology.
pub open spec fn has_tautology(kids: Seq<Formula>) -> bool {
    exists|i: int| 0 <= i < kids.len() && tautology(#[trigger] kids[i])
}

/// The members of the formula after the clean-up at its top: under a
/// conjunction or a disjunction the members of groups of the same kind
/// that are not negated take the place of those groups, and a conjunction
/// then loses its tautologies. (A disjunction keeps them: it holds
/// whatever the values, as they do.)
pub open spec fn cleaned_members(f: Formula) -> Seq<Formula> {
    if f.operator == Operator::AND {
        without_tautologies(flattened(f.variables, f.operator))
    } else if f.operator == Operator::OR {
        flattened(f.variables, f.operator)
    } else {
        f.variables
    }
}

/// Whether the clean-up at the top of the formula changes something.
pub open spec fn cleans_here(f: Formula) -> bool {
    if f.operator == Operator::AND {
        has_group(f.variables, f.operator) || has_tautology(flattened(f.variables, f.operator))
    } else {
        f.operator == Operator::OR && has_group(f.variables, f.operator)
    }
}

/// The clean-up at the top of the formula and then, to the depth `fuel`,
/// in the members that this leaves.
pub open spec fn cleaned(f: Formula, fuel: nat) -> Formula
    decreases fuel, 0nat,
{
    if fuel == 0 {
        Formula { variables: cleaned_members(f), ..f }
    } else {
        Formula { variables: cleaned_all(cleaned_members(f), (fuel - 1) as nat), ..f }
    }
}

/// `cleaned` on each formula of the list.
pub open spec fn cleaned_all(kids: Seq<Formula>, fuel: nat) -> Seq<Formula>
    decreases fuel, kids.len(),
{
    if kids.len() == 0 {
        Seq::empty()
    } else {
        cleaned_all(kids.drop_last(), fuel).push(cleaned(kids.last(), fuel))
    }
}

/// Whether `cleaned` changes something somewhere.
pub open spec fn cleans(f: Formula, fuel: nat) -> bool
    decreases fuel, 0nat,
{
    if fuel == 0 {
        cleans_here(f)
    } else {
        cleans_here(f) || cleans_any(cleaned_members(f), (fuel - 1) as nat)
    }
}

/// Whether `cleaned` changes something in one of the formulas.
pub open spec fn cleans_any(kids: Seq<Formula>, fuel: nat) -> bool
    decreases fuel, kids.len(),
{
    if kids.len() == 0 {
        false
    } else {
        cleans_any(kids.drop_last(), fuel) || cleans(kids.last(), fuel)
    }
}

/// `cleaned_all` cleans each formula at its place.
pub proof fn lemma_cleaned_all(kids: Seq<Formula>, fuel: nat)
    ensures
        cleaned_all(kids, fuel).len() == kids.len(),
        forall|i: int|
            0 <= i < kids.len() ==> #[trigger] cleaned_all(kids, fuel)[i] == cleaned(kids[i], fuel),
    decreases kids.len(),
{
    if kids.len() > 0 {
        lemma_cleaned_all(kids.drop_last(), fuel);
        assert forall|i: int| 0 <= i < kids.len() implies #[trigger] cleaned_all(kids, fuel)[i]
            == cleaned(kids[i], fuel) by {
            if i < kids.len() - 1 {
                assert(kids.drop_last()[i] == kids[i]);
            }
        }
    }
}

/// The formula `x` is a variable that `prev` holds already with the same
/// sign.
pub open spec fn repeats(prev: Seq<Formula>, x: Formula) -> bool {
    x.variable is Some && exists|i: int|
        0 <= i < prev.len() && (#[trigger] prev[i]).variable == x.variable && prev[i].is_negated
            == x.is_negated
}

/// The list without the variables that repeat an earlier member.
pub open spec fn unique_literals(kids: Seq<Formula>) -> Seq<Formula>
    decreases kids.len(),
{
    if kids.len() == 0 {
        Seq::empty()
    } else if repeats(kids.drop_last(), kids.last()) {
        unique_literals(kids.drop_last())
    } else {
        unique_literals(kids.drop_last()).push(kids.last())
    }
}

/// The formula with its members freed of repeated variables.
pub open spec fn with_unique_literals(f: Formula) -> Formula {
    Formula { variables: unique_literals(f.variables), ..f }
}

/// One round of the three passes: De Morgan's laws, the law of
/// distribution, the clean-up.
pub open spec fn one_round(f: Formula) -> Formula {
    cleaned(distributed(de_morgan(f, false), usize::MAX as nat), usize::MAX as nat)
}

/// Whether one of the three passes of a round changes something.
pub open spec fn round_changes(f: Formula) -> bool {
    de_morgan_applies(f, false) || distributes(de_morgan(f, false), usize::MAX as nat) || cleans(
        distributed(de_morgan(f, false), usize::MAX as nat),
        usize::MAX as nat,
    )
}

/// Rounds of the three passes until one changes nothing, `fuel` rounds at
/// most.
pub open spec fn settled(f: Formula, fuel: nat) -> Formula
    decreases fuel,
{
    if fuel == 0 {
        f
    } else if round_changes(f) {
        settled(one_round(f), (fuel - 1) as nat)
    } else {
        one_round(f)
    }
}

/// What the rounds of the three passes make of the formula, with each
/// member then freed of repeated variables.
pub open spec fn normal_form(f: Formula) -> Formula {
    let g = settled(f, usize::MAX as nat);
    Formula { variables: Seq::new(g.variables.len(), |i: int| with_unique_literals(g.variables[i])), ..g }
}

/// For each formula of `inner`, the disjunction of the formulas of `left`
/// and that formula: see `or_groups`.
pub fn or_groups_of(left: &Vec<PropositionalConnection>, inner: &Vec<PropositionalConnection>) -> (r:
    Vec<PropositionalConnection>)
    ensures
        views(r@) == or_groups(views(left@), views(inner@)),
{
    let mut r: Vec<PropositionalConnection> = Vec::new();
    let n = inner.len();
    let mut j: usize = 0;
    while j < n
        invariant
            j <= n,
            n == inner@.len(),
            r@.len() == j,
            forall|i: int|
                0 <= i < j ==> (#[trigger] r@[i])@ == or_group(
                    ands_last(views(left@).push(inner@[i]@)),
                ),
        decreases n - j,
    {
        let mut members = copy_all(left);
        members.push(inner[j].duplicate());
        proof {
            assert(views(members@) =~= views(left@).push(inner@[j as int]@));
        }
        sort_ands_last(&mut members);
        let g = PropositionalConnection {
            operator: Operator::OR,
            is_negated: false,
            variable: None,
            variables: members,
        };
        proof {
            assert(g@.variables =~= views(members@));
        }
        r.push(g);
        j += 1;
    }
    proof {
        assert(views(r@) =~= or_groups(views(left@), views(inner@)));
    }
    r
}

impl PropositionalConnection {
    /// A formula without members: the variable `variable`, or an empty
    /// group.
    pub fn new(operator: Operator, is_negated: bool, variable: Option<String>) -> (p: Self)
        ensures
            p.operator == operator,
            p.is_negated == is_negated,
            p.variable == variable,
            p.variables@.len() == 0,
    {
        PropositionalConnection { operator, is_negated, variable, variables: Vec::new() }
    }

    /// A copy of the formula.
    pub fn duplicate(&self) -> (r: Self)
        ensures
            r@ == self@,
        decreases self,
    {
        let mut variables: Vec<PropositionalConnection> = Vec::new();
        let n = self.variables.len();
        let mut i: usize = 0;
        while i < n
            invariant
                i <= n,
                n == self.variables@.len(),
                variables@.len() == i,
                forall|j: int| 0 <= j < i ==> (#[trigger] variables@[j])@ == self.variables@[j]@,
            decreases n - i,
        {
            let c = self.variables[i].duplicate();
            variables.push(c);
            i += 1;
        }
        let variable = match &self.variable {
            Some(s) => Some(s.clone()),
            None => None,
        };
        let r = PropositionalConnection {
            operator: self.operator,
            is_negated: self.is_negated,
            variable,
            variables,
        };
        proof {
            assert(r@.variables =~= self@.variables);
        }
        r
    }

    /// The formula written out.
    pub fn print_string(&self) -> (output: String)
        requires
            printable(self@),
        ensures
            output@ == rendered(self@),
        decreases self,
    {
        let mut output = String::new();
        if self.is_negated {
            output.append("¬");
        }
        match &self.variable {
            Some(name) => {
                output.append(name.as_str());
            },
            None => {
                let n = self.variables.len();
                if n > 1 {
                    output.append("(");
                }
                let ghost head = output@;
                let ghost parts = rendered_all(self@.variables);
                let ghost sep = separator(self.operator);
                proof {
                    lemma_rendered_all(self@.variables);
                }
                let mut var: usize = 0;
                while var < n
                    invariant
                        var <= n,
                        n == self.variables@.len(),
                        self@.variable is None,
                        printable(self@),
                        parts.len() == n,
                        forall|i: int| 0 <= i < n ==> #[trigger] parts[i] == rendered(self.variables@[i]@),
                        sep == separator(self.operator),
                        output@ == head + joined(parts.subrange(0, var as int), sep) + (if 0 < var
                            < n {
                            sep
                        } else {
                            Seq::empty()
                        }),
                    decreases n - var,
                {
                    proof {
                        assert(self@.variables[var as int] == self.variables@[var as int]@);
                        assert(printable(self@.variables[var as int]));
                    }
                    let piece = self.variables[var].print_string();
                    output.append(piece.as_str());
                    if var != n - 1 {
                        match self.operator {
                            Operator::AND => {
                                output.append(" ∧ ");
                            },
                            Operator::OR => {
                                output.append(" ∨ ");
                            },
                            _ => {},
                        }
                    }
                    proof {
                        let a = parts.subrange(0, var as int);
                        let b = parts.subrange(0, var + 1);
                        assert(b.drop_last() =~= a);
                        assert(b.last() == parts[var as int]);
                        if var == 0 {
                            assert(joined(a, sep) =~= Seq::<char>::empty());
                            assert(joined(b, sep) == parts[0]);
                        }
                        assert(output@ =~= head + joined(b, sep) + (if 0 < var + 1 < n {
                            sep
                        } else {
                            Seq::empty()
                        }));
                    }
                    var += 1;
                }
                proof {
                    assert(parts.subrange(0, n as int) =~= parts);
                }
                let ghost inner = output@;
                if n > 1 {
                    output.append(")");
                }
                proof {
                    let f = self@;
                    let neg = if f.is_negated {
                        "¬"@
                    } else {
                        Seq::<char>::empty()
                    };
                    let open = if f.variables.len() > 1 {
                        "("@
                    } else {
                        Seq::<char>::empty()
                    };
                    let close = if f.variables.len() > 1 {
                        ")"@
                    } else {
                        Seq::<char>::empty()
                    };
                    assert(f.variables.len() == n);
                    assert(head =~= neg + open);
                    assert(inner =~= head + joined(parts, sep));
                    assert(output@ =~= inner + close);
                    assert(f.variable is None);
                    assert(rendered(f) == neg + (open + joined(parts, separator(f.operator))
                        + close));
                    assert(output@ =~= rendered(f));
                }
            },
        }
        proof {
            assert(output@ =~= rendered(self@));
        }
        output
    }

    /// Applies De Morgan's laws throughout the formula and tells whether a
    /// group was turned.
    pub fn demorgans(&mut self) -> (check: bool)
        ensures
            final(self)@ == de_morgan(old(self)@, false),
            check == de_morgan_applies(old(self)@, false),
    {
        self.demorgans_from(false)
    }

    /// `demorgans` on the formula, negated first if `flip` says so.
    fn demorgans_from(&mut self, flip: bool) -> (check: bool)
        ensures
            final(self)@ == de_morgan(old(self)@, flip),
            check == de_morgan_applies(old(self)@, flip),
        decreases *old(self),
    {
        if flip {
            self.is_negated = !self.is_negated;
        }
        let apply_de_morgan = self.variables.len() > 1 && self.is_negated;
        let mut check = apply_de_morgan;
        if apply_de_morgan {
            self.is_negated = false;
            self.operator = if self.operator == Operator::AND {
                Operator::OR
            } else {
                Operator::AND
            };
        }
        let n = self.variables.len();
        let ghost kids = old(self)@.variables;
        proof {
            lemma_de_morgan_all(kids, apply_de_morgan);
            assert(kids.subrange(0, 0) =~= Seq::<Formula>::empty());
        }
        let mut i: usize = 0;
        while i < n
            invariant
                i <= n,
                n == self.variables@.len(),
                n == old(self).variables@.len(),
                kids == old(self)@.variables,
                kids.len() == n,
                self.operator == de_morgan(old(self)@, flip).operator,
                self.is_negated == de_morgan(old(self)@, flip).is_negated,
                self.variable == old(self).variable,
                apply_de_morgan == (old(self)@.variables.len() > 1 && (old(self)@.is_negated
                    != flip)),
                forall|j: int| i <= j < n ==> #[trigger] self.variables@[j] == old(self).variables@[j],
                forall|j: int|
                    0 <= j < i ==> (#[trigger] self.variables@[j])@ == de_morgan(
                        kids[j],
                        apply_de_morgan,
                    ),
                check == (apply_de_morgan || de_morgan_applies_any(
                    kids.subrange(0, i as int),
                    apply_de_morgan,
                )),
            decreases n - i,
        {
            proof {
                assert(kids[i as int] == old(self).variables@[i as int]@);
                assert(kids.subrange(0, i + 1).drop_last() =~= kids.subrange(0, i as int));
                assert(kids.subrange(0, i + 1).last() == kids[i as int]);
            }
            let c = self.variables[i].demorgans_from(apply_de_morgan);
            check = check || c;
            i += 1;
        }
        proof {
            assert(kids.subrange(0, n as int) =~= kids);
            assert(self@.variables =~= de_morgan_all(kids, apply_de_morgan));
        }
        check
    }

    /// Applies the law of distribution throughout the formula and tells
    /// whether a conjunction was distributed: see `distributed`.
    pub fn distributive(&mut self) -> (check: bool)
        ensures
            final(self)@ == distributed(old(self)@, usize::MAX as nat),
            check == distributes(old(self)@, usize::MAX as nat),
    {
        self.distribute_within(usize::MAX)
    }

    /// The left-hand group of a disjunction with members: see `gathered`.
    fn gather(&self) -> (r: (Vec<PropositionalConnection>, bool))
        requires
            self.variables@.len() > 0,
        ensures
            (views(r.0@), r.1) == gathered(self@.variables, self@.variables.len()),
    {
        let n = self.variables.len();
        let ghost kids = self@.variables;
        let mut check = false;
        let mut left: Vec<PropositionalConnection> = Vec::new();
        left.push(self.variables[0].duplicate());
        proof {
            assert(views(left@) =~= seq![kids[0]]);
        }
        let mut i: usize = 1;
        while i < n
            invariant
                1 <= i <= n,
                n == self.variables@.len(),
                kids == self@.variables,
                kids.len() == n,
                (views(left@), check) == gathered(kids, i as nat),
            decreases n - i,
        {
            let cur = &self.variables[i];
            proof {
                assert(kids[i as int] == cur@);
                assert(cur@.variables =~= views(cur.variables@));
            }
            if !(cur.variable.is_none() && !cur.is_negated && cur.operator == Operator::AND) {
                let ghost before = views(left@);
                left.push(cur.duplicate());
                proof {
                    assert(views(left@) =~= before.push(cur@));
                }
            } else {
                check = true;
                let mut groups = or_groups_of(&left, &cur.variables);
                sort_ands_last(&mut groups);
                let new_and = PropositionalConnection {
                    operator: Operator::AND,
                    is_negated: false,
                    variable: None,
                    variables: groups,
                };
                proof {
                    assert(new_and@.variables =~= views(groups@));
                }
                left = Vec::new();
                left.push(new_and);
                proof {
                    assert(views(left@) =~= seq![new_and@]);
                }
            }
            i += 1;
        }
        (left, check)
    }

    /// `distributive`, to the depth `depth` below the top of the formula.
    fn distribute_within(&mut self, depth: usize) -> (check: bool)
        ensures
            final(self)@ == distributed(old(self)@, depth as nat),
            check == distributes(old(self)@, depth as nat),
        decreases depth,
    {
        let mut check = false;
        if self.variable.is_some() {
            return false;
        }
        if self.operator == Operator::OR && self.variables.len() > 0 {
            let (mut left, gathered_check) = self.gather();
            check = gathered_check;
            sort_ands_last(&mut left);
            if left.len() == 1 {
                match left.pop() {
                    Some(only) => {
                        proof {
                            assert(only@.variables =~= views(only.variables@));
                        }
                        self.operator = only.operator;
                        self.is_negated = self.is_negated != only.is_negated;
                        self.variable = only.variable;
                        self.variables = only.variables;
                    },
                    None => {},
                }
            } else {
                self.variables = left;
            }
        }
        let ghost g = distributed_here(old(self)@).0;
        proof {
            assert(self@.variables =~= g.variables);
            assert(self@ == g);
        }
        if depth > 0 {
            let n = self.variables.len();
            let ghost kids = g.variables;
            let ghost start = self.variables@;
            proof {
                lemma_distributed_all(kids, (depth - 1) as nat);
                assert(kids.subrange(0, 0) =~= Seq::<Formula>::empty());
            }
            let mut i: usize = 0;
            while i < n
                invariant
                    i <= n,
                    n == self.variables@.len(),
                    kids.len() == n,
                    kids == g.variables,
                    depth > 0,
                    self.operator == g.operator,
                    self.is_negated == g.is_negated,
                    self@.variable == g.variable,
                    forall|j: int| i <= j < n ==> (#[trigger] self.variables@[j])@ == kids[j],
                    forall|j: int|
                        0 <= j < i ==> (#[trigger] self.variables@[j])@ == distributed(
                            kids[j],
                            (depth - 1) as nat,
                        ),
                    check == (distributed_here(old(self)@).1 || distributes_any(
                        kids.subrange(0, i as int),
                        (depth - 1) as nat,
                    )),
                decreases n - i,
            {
                proof {
                    assert(kids.subrange(0, i + 1).drop_last() =~= kids.subrange(0, i as int));
                    assert(kids.subrange(0, i + 1).last() == kids[i as int]);
                }
                let c = self.variables[i].distribute_within(depth - 1);
                check = check || c;
                i += 1;
            }
            proof {
                assert(kids.subrange(0, n as int) =~= kids);
                assert(self@.variables =~= distributed_all(kids, (depth - 1) as nat));
            }
        }
        check
    }

    /// Whether the two formulas are the same variable with different
    /// signs.
    fn clashes_with(&self, other: &PropositionalConnection) -> (b: bool)
        ensures
            b == (self@.variable is Some && self@.variable == other@.variable && self@.is_negated
                != other@.is_negated),
    {
        match (&self.variable, &other.variable) {
            (Some(a), Some(b)) => *a == *b && self.is_negated != other.is_negated,
            _ => false,
        }
    }

    /// Whether the two formulas are the same variable with the same sign.
    fn same_literal(&self, other: &PropositionalConnection) -> (b: bool)
        ensures
            b == (other@.variable is Some && self@.variable == other@.variable && self@.is_negated
                == other@.is_negated),
    {
        match (&self.variable, &other.variable) {
            (Some(a), Some(b)) => *a == *b && self.is_negated == other.is_negated,
            _ => false,
        }
    }

    /// Whether the formula is a disjunction with a variable among its
    /// members both negated and not.
    pub fn is_tautology(&self) -> (b: bool)
        ensures
            b == tautology(self@),
    {
        if self.variable.is_some() || self.is_negated || self.operator != Operator::OR {
            return false;
        }
        let n = self.variables.len();
        let ghost kids = self@.variables;
        let mut i: usize = 0;
        while i < n
            invariant
                i <= n,
                n == self.variables@.len(),
                plain_group(self@, Operator::OR),
                kids == self@.variables,
                kids.len() == n,
                forall|a: int, b: int|
                    0 <= a < i && 0 <= b < n ==> !((#[trigger] kids[a]).variable is Some
                        && kids[a].variable == (#[trigger] kids[b]).variable && kids[a].is_negated
                        != kids[b].is_negated),
            decreases n - i,
        {
            let mut j: usize = 0;
            while j < n
                invariant
                    j <= n,
                    i < n,
                    n == self.variables@.len(),
                    plain_group(self@, Operator::OR),
                    kids == self@.variables,
                    kids.len() == n,
                    forall|b: int|
                        0 <= b < j ==> !(kids[i as int].variable is Some && kids[i as int].variable
                            == (#[trigger] kids[b]).variable && kids[i as int].is_negated
                            != kids[b].is_negated),
                decreases n - j,
            {
                proof {
                    assert(kids[i as int] == self.variables@[i as int]@);
                    assert(kids[j as int] == self.variables@[j as int]@);
                }
                if self.variables[i].clashes_with(&self.variables[j]) {
                    proof {
                        assert(kids[i as int].variable is Some && kids[i as int].variable
                            == kids[j as int].variable && kids[i as int].is_negated
                            != kids[j as int].is_negated);
                        assert(clashing(kids));
                    }
                    return true;
                }
                j += 1;
            }
            i += 1;
        }
        false
    }

    /// Cleans the formula up throughout and tells whether that changed
    /// something: see `cleaned`.
    pub fn clean_cnf(&mut self) -> (check: bool)
        ensures
            final(self)@ == cleaned(old(self)@, usize::MAX as nat),
            check == cleans(old(self)@, usize::MAX as nat),
    {
        self.clean_within(usize::MAX)
    }

    /// The members with those of every group under `op` in the place of
    /// that group, and whether there was such a group.
    fn flatten(&self, op: Operator) -> (r: (Vec<PropositionalConnection>, bool))
        ensures
            views(r.0@) == flattened(self@.variables, op),
            r.1 == has_group(self@.variables, op),
    {
        let n = self.variables.len();
        let ghost kids = self@.variables;
        let mut out: Vec<PropositionalConnection> = Vec::new();
        let mut found = false;
        let mut i: usize = 0;
        proof {
            assert(kids.subrange(0, 0) =~= Seq::<Formula>::empty());
            assert(views(out@) =~= Seq::<Formula>::empty());
        }
        while i < n
            invariant
                i <= n,
                n == self.variables@.len(),
                kids == self@.variables,
                kids.len() == n,
                views(out@) == flattened(kids.subrange(0, i as int), op),
                found == has_group(kids.subrange(0, i as int), op),
            decreases n - i,
        {
            let var = &self.variables[i];
            proof {
                assert(kids[i as int] == var@);
                assert(kids.subrange(0, i + 1).drop_last() =~= kids.subrange(0, i as int));
                assert(kids.subrange(0, i + 1).last() == kids[i as int]);
                let a = kids.subrange(0, i as int);
                let b = kids.subrange(0, i + 1);
                if has_group(a, op) {
                    let w = choose|w: int| 0 <= w < a.len() && plain_group(#[trigger] a[w], op);
                    assert(plain_group(b[w], op));
                }
                if has_group(b, op) && !plain_group(kids[i as int], op) {
                    let w = choose|w: int| 0 <= w < b.len() && plain_group(#[trigger] b[w], op);
                    assert(plain_group(a[w], op));
                }
                if plain_group(kids[i as int], op) {
                    assert(plain_group(b[i as int], op));
                }
            }
            if var.variable.is_none() && !var.is_negated && var.operator == op {
                found = true;
                let m = var.variables.len();
                let ghost before = views(out@);
                let mut j: usize = 0;
                while j < m
                    invariant
                        j <= m,
                        m == var.variables@.len(),
                        views(out@) == before + var@.variables.subrange(0, j as int),
                    decreases m - j,
                {
                    let ghost was = views(out@);
                    out.push(var.variables[j].duplicate());
                    proof {
                        assert(var@.variables[j as int] == var.variables@[j as int]@);
                        assert(views(out@) =~= was.push(var.variables@[j as int]@));
                        assert(views(out@) =~= before + var@.variables.subrange(0, j + 1));
                    }
                    j += 1;
                }
                proof {
                    assert(var@.variables.subrange(0, m as int) =~= var@.variables);
                }
            } else {
                let ghost was = views(out@);
                out.push(var.duplicate());
                proof {
                    assert(views(out@) =~= was.push(var@));
                }
            }
            i += 1;
        }
        proof {
            assert(kids.subrange(0, n as int) =~= kids);
        }
        (out, found)
    }

    /// `clean_cnf`, to the depth `depth` below the top of the formula.
    fn clean_within(&mut self, depth: usize) -> (check: bool)
        ensures
            final(self)@ == cleaned(old(self)@, depth as nat),
            check == cleans(old(self)@, depth as nat),
        decreases depth,
    {
        let mut check = false;
        let flat: Vec<PropositionalConnection>;
        if self.operator == Operator::AND || self.operator == Operator::OR {
            let (f, found) = self.flatten(self.operator);
            flat = f;
            check = found;
        } else {
            flat = copy_all(&self.variables);
            proof {
                assert(views(flat@) =~= self@.variables);
            }
        }
        let ghost flat_view = views(flat@);
        let n = if self.operator == Operator::AND {
            flat.len()
        } else {
            0
        };
        let mut kept: Vec<PropositionalConnection> = Vec::new();
        let mut dropped = false;
        let mut i: usize = 0;
        proof {
            assert(flat_view.subrange(0, 0) =~= Seq::<Formula>::empty());
            assert(views(kept@) =~= Seq::<Formula>::empty());
        }
        while i < n
            invariant
                i <= n,
                n <= flat@.len(),
                self.operator == Operator::AND ==> n == flat@.len(),
                *self == *old(self),
                flat_view == views(flat@),
                views(kept@) == without_tautologies(flat_view.subrange(0, i as int)),
                dropped == has_tautology(flat_view.subrange(0, i as int)),
            decreases n - i,
        {
            proof {
                let a = flat_view.subrange(0, i as int);
                let b = flat_view.subrange(0, i + 1);
                assert(b.drop_last() =~= a);
                assert(b.last() == flat@[i as int]@);
                if has_tautology(a) {
                    let w = choose|w: int| 0 <= w < a.len() && tautology(#[trigger] a[w]);
                    assert(tautology(b[w]));
                }
                if has_tautology(b) && !tautology(flat@[i as int]@) {
                    let w = choose|w: int| 0 <= w < b.len() && tautology(#[trigger] b[w]);
                    assert(tautology(a[w]));
                }
                if tautology(flat@[i as int]@) {
                    assert(tautology(b[i as int]));
                }
            }
            if flat[i].is_tautology() {
                dropped = true;
            } else {
                let ghost was = views(kept@);
                kept.push(flat[i].duplicate());
                proof {
                    assert(views(kept@) =~= was.push(flat@[i as int]@));
                }
            }
            i += 1;
        }
        if self.operator == Operator::AND {
            proof {
                assert(flat_view.subrange(0, n as int) =~= flat_view);
            }
            check = check || dropped;
            self.variables = kept;
        } else {
            self.variables = flat;
        }
        let ghost members = cleaned_members(old(self)@);
        proof {
            assert(self@.variables =~= members);
        }
        if depth > 0 {
            let n = self.variables.len();
            proof {
                lemma_cleaned_all(members, (depth - 1) as nat);
                assert(members.subrange(0, 0) =~= Seq::<Formula>::empty());
            }
            let mut i: usize = 0;
            while i < n
                invariant
                    i <= n,
                    n == self.variables@.len(),
                    members.len() == n,
                    members == cleaned_members(old(self)@),
                    depth > 0,
                    self.operator == old(self).operator,
                    self.is_negated == old(self).is_negated,
                    self.variable == old(self).variable,
                    forall|j: int| i <= j < n ==> (#[trigger] self.variables@[j])@ == members[j],
                    forall|j: int|
                        0 <= j < i ==> (#[trigger] self.variables@[j])@ == cleaned(
                            members[j],
                            (depth - 1) as nat,
                        ),
                    check == (cleans_here(old(self)@) || cleans_any(
                        members.subrange(0, i as int),
                        (depth - 1) as nat,
                    )),
                decreases n - i,
            {
                proof {
                    assert(members.subrange(0, i + 1).drop_last() =~= members.subrange(0, i as int));
                    assert(members.subrange(0, i + 1).last() == members[i as int]);
                }
                let c = self.variables[i].clean_within(depth - 1);
                check = check || c;
                i += 1;
            }
            proof {
                assert(members.subrange(0, n as int) =~= members);
                assert(self@.variables =~= cleaned_all(members, (depth - 1) as nat));
            }
        }
        check
    }

    /// Frees the members of the formula of the variables that repeat an
    /// earlier member.
    pub fn drop_repeated(&mut self)
        ensures
            final(self)@ == with_unique_literals(old(self)@),
    {
        let n = self.variables.len();
        let ghost kids = self@.variables;
        let mut kept: Vec<PropositionalConnection> = Vec::new();
        let mut j: usize = 0;
        proof {
            assert(kids.subrange(0, 0) =~= Seq::<Formula>::empty());
            assert(views(kept@) =~= Seq::<Formula>::empty());
        }
        while j < n
            invariant
                j <= n,
                n == self.variables@.len(),
                *self == *old(self),
                kids == self@.variables,
                kids.len() == n,
                views(kept@) == unique_literals(kids.subrange(0, j as int)),
            decreases n - j,
        {
            let ghost prev = kids.subrange(0, j as int);
            let mut repeated = false;
            let mut i: usize = 0;
            while i < j
                invariant
                    i <= j,
                    j < n,
                    n == self.variables@.len(),
                    kids == self@.variables,
                    kids.len() == n,
                    prev == kids.subrange(0, j as int),
                    repeated == repeats(prev.subrange(0, i as int), kids[j as int]),
                decreases j - i,
            {
                proof {
                    assert(kids[i as int] == self.variables@[i as int]@);
                    assert(kids[j as int] == self.variables@[j as int]@);
                    let a = prev.subrange(0, i as int);
                    let b = prev.subrange(0, i + 1);
                    let x = kids[j as int];
                    if repeats(a, x) {
                        let w = choose|w: int|
                            0 <= w < a.len() && (#[trigger] a[w]).variable == x.variable
                                && a[w].is_negated == x.is_negated;
                        assert(b[w].variable == x.variable && b[w].is_negated == x.is_negated);
                    }
                    if repeats(b, x) {
                        let w = choose|w: int|
                            0 <= w < b.len() && (#[trigger] b[w]).variable == x.variable
                                && b[w].is_negated == x.is_negated;
                        if w < i {
                            assert(a[w].variable == x.variable && a[w].is_negated == x.is_negated);
                        }
                    }
                    assert(b[i as int] == kids[i as int]);
                }
                if self.variables[i].same_literal(&self.variables[j]) {
                    repeated = true;
                }
                i += 1;
            }
            proof {
                assert(prev.subrange(0, j as int) =~= prev);
                assert(kids.subrange(0, j + 1).drop_last() =~= prev);
                assert(kids.subrange(0, j + 1).last() == kids[j as int]);
                assert(kids[j as int] == self.variables@[j as int]@);
            }
            if !repeated {
                let ghost was = views(kept@);
                kept.push(self.variables[j].duplicate());
                proof {
                    assert(views(kept@) =~= was.push(self.variables@[j as int]@));
                }
            }
            j += 1;
        }
        proof {
            assert(kids.subrange(0, n as int) =~= kids);
        }
        self.variables = kept;
        proof {
            assert(self@.variables =~= unique_literals(kids));
        }
    }

    /// Brings the formula into conjunctive normal form: the rounds of the
    /// three passes (see `normal_form`), and then the conjunction of the
    /// tidy clauses of what they leave (see `completed`), which changes
    /// nothing but the grouping where the rounds have left a conjunction of
    /// clauses. The result is a conjunction of clauses, and for a proper
    /// formula it holds under the same values as the formula did.
    pub fn to_cnf(&mut self)
        ensures
            final(self)@ == completed(normal_form(old(self)@)),
            in_cnf(final(self)@),
            proper(old(self)@) ==> forall|val: spec_fn(Seq<char>) -> bool| #[trigger]
                holds(final(self)@, val) == holds(old(self)@, val),
    {
        let mut check = true;
        let mut fuel: usize = usize::MAX;
        while check && fuel > 0
            invariant
                settled(old(self)@, usize::MAX as nat) == (if check {
                    settled(self@, fuel as nat)
                } else {
                    self@
                }),
            decreases fuel,
        {
            fuel -= 1;
            let a = self.demorgans();
            let b = self.distributive();
            let c = self.clean_cnf();
            check = a || b || c;
        }
        let ghost g = self@;
        let n = self.variables.len();
        let mut i: usize = 0;
        while i < n
            invariant
                i <= n,
                n == self.variables@.len(),
                g == settled(old(self)@, usize::MAX as nat),
                g.variables.len() == n,
                self.operator == g.operator,
                self.is_negated == g.is_negated,
                self@.variable == g.variable,
                forall|j: int| i <= j < n ==> (#[trigger] self.variables@[j])@ == g.variables[j],
                forall|j: int|
                    0 <= j < i ==> (#[trigger] self.variables@[j])@ == with_unique_literals(
                        g.variables[j],
                    ),
            decreases n - i,
        {
            self.variables[i].drop_repeated();
            i += 1;
        }
        proof {
            assert(self@.variables =~= normal_form(old(self)@).variables);
            assert(self@ == normal_form(old(self)@));
        }
        self.complete();
        proof {
            if proper(old(self)@) {
                assert forall|val: spec_fn(Seq<char>) -> bool| #[trigger]
                    holds(self@, val) == holds(old(self)@, val) by {
                    law_normal_form_keeps_meaning(old(self)@, val);
                    assert(holds(self@, val) == holds(normal_form(old(self)@), val));
                }
            }
        }
    }
}

} // verus!

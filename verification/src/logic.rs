use crate::connections::Connection;
use vstd::prelude::*;

verus! {

/// An assignment: for each variable `Some` value, or `None` while it is
/// unassigned.
pub type Values = Seq<Option<bool>>;

/// A clause as the sequence of its literals.
pub type Clause = Seq<Connection>;

/// The literal holds: its variable has the value that the literal asks for.
pub open spec fn lit_true(c: Connection, vals: Values) -> bool {
    vals[c.var_pos as int] == Some(c.val)
}

/// The variable of the literal is unassigned.
pub open spec fn lit_open(c: Connection, vals: Values) -> bool {
    vals[c.var_pos as int] is None
}

/// The literal is falsified: its variable has the other value.
pub open spec fn lit_false(c: Connection, vals: Values) -> bool {
    vals[c.var_pos as int] == Some(!c.val)
}

/// The clause is satisfied: one of its literals holds.
pub open spec fn clause_true(cl: Clause, vals: Values) -> bool {
    exists|j: int| 0 <= j < cl.len() && lit_true(#[trigger] cl[j], vals)
}

/// The clause is not falsified: one of its literals holds or is unassigned.
pub open spec fn clause_live(cl: Clause, vals: Values) -> bool {
    exists|j: int| 0 <= j < cl.len() && !lit_false(#[trigger] cl[j], vals)
}

/// The clause mentions variable `v`.
pub open spec fn mentions(cl: Clause, v: int) -> bool {
    exists|j: int| 0 <= j < cl.len() && (#[trigger] cl[j]).var_pos == v
}

/// The number of literals of the clause whose variable is unassigned.
pub open spec fn open_count(cl: Clause, vals: Values) -> nat
    decreases cl.len(),
{
    if cl.len() == 0 {
        0
    } else {
        open_count(cl.drop_last(), vals) + (if lit_open(cl.last(), vals) {
            1nat
        } else {
            0nat
        })
    }
}

/// `n` as a machine counter, which stays at its largest value once it is
/// reached.
pub open spec fn saturated(n: nat) -> usize {
    if n > usize::MAX {
        usize::MAX
    } else {
        n as usize
    }
}

/// Every literal of the clause names a variable below `n`.
pub open spec fn clause_within(cl: Clause, n: nat) -> bool {
    forall|j: int| 0 <= j < cl.len() ==> (#[trigger] cl[j]).var_pos < n
}

/// The clause is unit: exactly one literal is unassigned and every other
/// one is falsified.
pub open spec fn clause_unit(cl: Clause, vals: Values) -> bool {
    open_count(cl, vals) == 1 && !clause_true(cl, vals)
}

/// A total assignment, as one value per variable, satisfies the clause.
pub open spec fn model_satisfies(m: Seq<bool>, cl: Clause) -> bool {
    exists|j: int| 0 <= j < cl.len() && m[(#[trigger] cl[j]).var_pos as int] == cl[j].val
}

/// A clause none of whose literals is unassigned has no live literal
/// exactly when none holds.
pub proof fn lemma_open_count_zero(cl: Clause, vals: Values)
    requires
        clause_within(cl, vals.len()),
    ensures
        open_count(cl, vals) == 0 <==> forall|j: int|
            0 <= j < cl.len() ==> !lit_open(#[trigger] cl[j], vals),
    decreases cl.len(),
{
    if cl.len() > 0 {
        let r = cl.drop_last();
        assert forall|j: int| 0 <= j < r.len() implies (#[trigger] r[j]).var_pos < vals.len() by {
            assert(r[j] == cl[j]);
        }
        lemma_open_count_zero(r, vals);
        if open_count(cl, vals) == 0 {
            assert forall|j: int| 0 <= j < cl.len() implies !lit_open(#[trigger] cl[j], vals) by {
                if j < r.len() {
                    assert(r[j] == cl[j]);
                }
            }
        } else {
            if forall|j: int| 0 <= j < cl.len() ==> !lit_open(#[trigger] cl[j], vals) {
                assert forall|j: int| 0 <= j < r.len() implies !lit_open(#[trigger] r[j], vals) by {
                    assert(r[j] == cl[j]);
                }
                assert(!lit_open(cl[cl.len() - 1], vals));
                assert(false);
            }
        }
    }
}

} // verus!

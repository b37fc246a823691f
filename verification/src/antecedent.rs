use vstd::prelude::*;

verus! {

/// What the trail records of one position beside the variable: whether the
/// assignment was forced by a unit clause, by which clause, and the decision
/// level.
#[derive(Copy, Clone, Debug, PartialEq, Eq, Structural)]
pub struct Antecedent {
    pub is_uc: bool,
    pub antecedent: Option<usize>,
    pub d: usize,
}

impl Antecedent {
    /// The record of a decision at level 0.
    pub fn new() -> (a: Self)
        ensures
            a == (Antecedent { is_uc: false, antecedent: None, d: 0 }),
    {
        let is_uc = false;
        let antecedent = None;
        let d: usize = 0;
        Antecedent { is_uc, antecedent, d }
    }
}

} // verus!

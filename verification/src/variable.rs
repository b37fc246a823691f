use vstd::prelude::*;
use vstd::std_specs::cmp::PartialEqSpecImpl;

verus! {

/// A Boolean variable: its name as it was read, its present value (`None`
/// while unassigned) and its index in the solver.
#[derive(Debug, Eq, Hash)]
pub struct Variable {
    pub name: String,
    pub value: Option<bool>,
    pub pos: usize,
}

impl Variable {
    /// An unassigned variable that has no index yet.
    pub fn new(name: String) -> (v: Self)
        ensures
            v.name == name,
            v.value == None::<bool>,
            v.pos == usize::MAX,
    {
        Variable { name, value: None, pos: usize::MAX }
    }
}

/// Two variables are the same variable when they have the same name.
impl PartialEq for Variable {
    fn eq(&self, other: &Self) -> (b: bool) {
        self.name == other.name
    }
}

impl PartialEqSpecImpl for Variable {
    open spec fn obeys_eq_spec() -> bool {
        true
    }

    open spec fn eq_spec(&self, other: &Self) -> bool {
        self.name@ == other.name@
    }
}

} // verus!

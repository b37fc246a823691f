use vstd::prelude::*;

verus! {

/// A literal: a variable, named by its index, together with a polarity.
#[derive(Copy, Clone, Debug, PartialEq, Eq, PartialOrd, Ord, Structural)]
pub struct Connection {
    pub val: bool,
    pub var_pos: usize,
}

impl Connection {
    /// The literal on variable `pos` with polarity `val`.
    pub fn new(pos: usize, val: bool) -> (c: Self)
        ensures
            c.var_pos == pos,
            c.val == val,
    {
        Connection { val, var_pos: pos }
    }
}

/// A clause: the indices of its literals in the literal pool, in the
/// order in which they were given.
#[derive(Clone, Debug)]
pub struct ConnectionGroup {
    pub connections: Vec<usize>,
}

impl ConnectionGroup {
    /// A clause without literals.
    pub fn new() -> (g: Self)
        ensures
            g.connections@ == Seq::<usize>::empty(),
    {
        let connections: Vec<usize> = Vec::new();
        ConnectionGroup { connections }
    }
}

impl Default for ConnectionGroup {
    fn default() -> (g: Self)
        ensures
            g.connections@ == Seq::<usize>::empty(),
    {
        ConnectionGroup::new()
    }
}

} // verus!

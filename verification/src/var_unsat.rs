use deepmesa_collections::linkedlist::NodeHandle;
use deepmesa_collections::LinkedList;
use vstd::prelude::*;

verus! {

/// The linked list of the crate `deepmesa_collections`: to the verifier a
/// value without parts.
#[verifier::external_type_specification]
#[verifier::external_body]
#[verifier::reject_recursive_types(T)]
pub struct ExLinkedList<T>(deepmesa_collections::LinkedList<T>);

/// The handle by which `deepmesa_collections` names a node of a linked
/// list: to the verifier a value without parts.
#[verifier::external_type_specification]
#[verifier::external_body]
#[verifier::reject_recursive_types(T)]
pub struct ExNodeHandle<T>(deepmesa_collections::linkedlist::NodeHandle<T>);

/// The items of the list, from its head to its tail.
pub uninterp spec fn list_items(list: LinkedList<usize>) -> Seq<usize>;

/// The number of handles that the list has given out so far.
pub uninterp spec fn handles_issued(list: LinkedList<usize>) -> nat;

/// What `LinkedList::node` returns for the handle: the item of the node
/// that the handle names, or `None` for a handle that names no node of the
/// list.
pub uninterp spec fn item_at(list: LinkedList<usize>, handle: NodeHandle<usize>) -> Option<usize>;

/// Calls `LinkedList::with_capacity`, which returns a list without items
/// that has given out no handle yet. (It allocates room for `capacity`
/// nodes at once.)
#[verifier::external_body]
fn empty_list(capacity: usize) -> (list: LinkedList<usize>)
    ensures
        list_items(list) == Seq::<usize>::empty(),
        handles_issued(list) == 0,
{
    LinkedList::<usize>::with_capacity(capacity)
}

/// Calls `LinkedList::push_head`, which puts the item in front of the
/// others and returns the handle of its node. The nodes that handles named
/// before keep their handles and items. The list counts the handles that
/// it gives out in a machine number, which must not be at its largest
/// value.
#[verifier::external_body]
fn push_head(list: &mut LinkedList<usize>, item: usize) -> (handle: NodeHandle<usize>)
    requires
        handles_issued(*old(list)) < usize::MAX,
    ensures
        list_items(*final(list)) == seq![item] + list_items(*old(list)),
        handles_issued(*final(list)) == handles_issued(*old(list)) + 1,
        item_at(*final(list), handle) == Some(item),
        forall|h: NodeHandle<usize>|
            (#[trigger] item_at(*old(list), h)) is Some ==> item_at(*final(list), h) == item_at(
                *old(list),
                h,
            ),
{
    list.push_head(item)
}

/// Calls `LinkedList::node`, which returns the item of the node that the
/// handle names, if it names one of this list.
#[verifier::external_body]
fn node_item(list: &LinkedList<usize>, handle: &NodeHandle<usize>) -> (item: Option<usize>)
    ensures
        item == item_at(*list, *handle),
{
    list.node(handle).copied()
}

/// What is kept of one clause for one variable: whether the clause is
/// unsatisfied, and the handle of its node in the list of the variable, if
/// it is in that list.
#[derive(Copy, Clone)]
pub struct VarUnsatGroup {
    pub is_unsat: bool,
    pub node: Option<NodeHandle<usize>>,
}

impl VarUnsatGroup {
    /// The record of an unsatisfied clause that is in no list.
    pub fn new() -> (g: Self)
        ensures
            g.is_unsat,
            g.node is None,
    {
        VarUnsatGroup { is_unsat: true, node: None }
    }
}

/// For each variable the clauses that mention it, in a linked list, and
/// for each clause index the record of that clause.
pub struct VarUnsatGroups {
    pub var_lists: Vec<LinkedList<usize>>,
    pub var_sets: Vec<Vec<VarUnsatGroup>>,
}

impl VarUnsatGroups {
    /// The lists of the clauses of `variable_connections`, the clause that
    /// is listed last at the head, with a record for each of `capacity`
    /// clause indices: every clause counts as unsatisfied, and the clauses
    /// that are listed for a variable have the handle of their node.
    pub fn new(variable_connections: &Vec<Vec<usize>>, capacity: usize) -> (r: Self)
        requires
            forall|v: int, j: int|
                0 <= v < variable_connections@.len() && 0 <= j < variable_connections@[v]@.len()
                    ==> (#[trigger] variable_connections@[v]@[j]) < capacity,
        ensures
            r.var_lists@.len() == variable_connections@.len(),
            r.var_sets@.len() == variable_connections@.len(),
            forall|v: int|
                0 <= v < variable_connections@.len() ==> list_items(#[trigger] r.var_lists@[v])
                    == variable_connections@[v]@.reverse(),
            forall|v: int|
                0 <= v < variable_connections@.len() ==> (#[trigger] r.var_sets@[v])@.len()
                    == capacity,
            forall|v: int, g: int|
                0 <= v < variable_connections@.len() && 0 <= g < capacity ==> {
                    let record = #[trigger] r.var_sets@[v]@[g];
                    &&& record.is_unsat
                    &&& record.node is Some <==> variable_connections@[v]@.contains(g as usize)
                    &&& record.node is Some ==> item_at(r.var_lists@[v], record.node->0) == Some(
                        g as usize,
                    )
                },
    {
        let mut var_lists: Vec<LinkedList<usize>> = Vec::new();
        let mut var_sets: Vec<Vec<VarUnsatGroup>> = Vec::new();
        let n = variable_connections.len();
        let mut i: usize = 0;
        while i < n
            invariant
                i <= n,
                n == variable_connections@.len(),
                var_lists@.len() == i,
                var_sets@.len() == i,
                forall|v: int, j: int|
                    0 <= v < variable_connections@.len() && 0 <= j
                        < variable_connections@[v]@.len() ==> (
                    #[trigger] variable_connections@[v]@[j]) < capacity,
                forall|v: int|
                    0 <= v < i ==> list_items(#[trigger] var_lists@[v])
                        == variable_connections@[v]@.reverse(),
                forall|v: int| 0 <= v < i ==> (#[trigger] var_sets@[v])@.len() == capacity,
                forall|v: int, g: int|
                    0 <= v < i && 0 <= g < capacity ==> {
                        let record = #[trigger] var_sets@[v]@[g];
                        &&& record.is_unsat
                        &&& record.node is Some <==> variable_connections@[v]@.contains(g as usize)
                        &&& record.node is Some ==> item_at(var_lists@[v], record.node->0) == Some(
                            g as usize,
                        )
                    },
            decreases n - i,
        {
            let groups = &variable_connections[i];
            let (var_list, var_set) = Self::list_of(groups, capacity);
            var_lists.push(var_list);
            var_sets.push(var_set);
            i += 1;
        }
        VarUnsatGroups { var_lists, var_sets }
    }

    /// The list and the records of one variable.
    fn list_of(groups: &Vec<usize>, capacity: usize) -> (r: (LinkedList<usize>, Vec<VarUnsatGroup>))
        requires
            forall|j: int| 0 <= j < groups@.len() ==> (#[trigger] groups@[j]) < capacity,
        ensures
            list_items(r.0) == groups@.reverse(),
            r.1@.len() == capacity,
            forall|g: int|
                0 <= g < capacity ==> {
                    let record = #[trigger] r.1@[g];
                    &&& record.is_unsat
                    &&& record.node is Some <==> groups@.contains(g as usize)
                    &&& record.node is Some ==> item_at(r.0, record.node->0) == Some(g as usize)
                },
    {
        let mut var_list = empty_list(capacity);
        let mut var_set: Vec<VarUnsatGroup> = Vec::new();
        let mut k: usize = 0;
        while k < capacity
            invariant
                k <= capacity,
                var_set@.len() == k,
                forall|g: int| 0 <= g < k ==> (#[trigger] var_set@[g]).is_unsat && var_set@[g].node is None,
            decreases capacity - k,
        {
            var_set.push(VarUnsatGroup::new());
            k += 1;
        }
        let m = groups.len();
        let mut j: usize = 0;
        proof {
            assert(groups@.subrange(0, 0).reverse() =~= Seq::<usize>::empty());
        }
        while j < m
            invariant
                j <= m,
                m == groups@.len(),
                forall|t: int| 0 <= t < groups@.len() ==> (#[trigger] groups@[t]) < capacity,
                list_items(var_list) == groups@.subrange(0, j as int).reverse(),
                handles_issued(var_list) == j,
                var_set@.len() == capacity,
                forall|g: int|
                    0 <= g < capacity ==> {
                        let record = #[trigger] var_set@[g];
                        &&& record.is_unsat
                        &&& record.node is Some <==> groups@.subrange(0, j as int).contains(
                            g as usize,
                        )
                        &&& record.node is Some ==> item_at(var_list, record.node->0) == Some(
                            g as usize,
                        )
                    },
            decreases m - j,
        {
            let group = groups[j];
            let ghost before = var_list;
            let ghost records = var_set@;
            let node = push_head(&mut var_list, group);
            let mut var_unsat_group = VarUnsatGroup::new();
            var_unsat_group.node = Some(node);
            var_set[group] = var_unsat_group;
            proof {
                let a = groups@.subrange(0, j as int);
                let b = groups@.subrange(0, j + 1);
                assert(b.reverse() =~= seq![group] + a.reverse());
                assert forall|g: int| 0 <= g < capacity implies {
                    let record = #[trigger] var_set@[g];
                    &&& record.is_unsat
                    &&& record.node is Some <==> b.contains(g as usize)
                    &&& record.node is Some ==> item_at(var_list, record.node->0) == Some(g as usize)
                } by {
                    assert(b[j as int] == group);
                    if a.contains(g as usize) {
                        let t = choose|t: int| 0 <= t < a.len() && a[t] == g as usize;
                        assert(b[t] == g as usize);
                    }
                    if b.contains(g as usize) && g != group {
                        let t = choose|t: int| 0 <= t < b.len() && b[t] == g as usize;
                        assert(a[t] == g as usize);
                    }
                    if g != group {
                        let was = records[g];
                        assert(var_set@[g] == was);
                        if was.node is Some {
                            assert(item_at(before, was.node->0) == Some(g as usize));
                        }
                    }
                }
            }
            j += 1;
        }
        proof {
            assert(groups@.subrange(0, m as int) =~= groups@);
        }
        (var_list, var_set)
    }

    /// The clause whose node in the list of variable `var` the record of
    /// clause `group` names, if it names one.
    pub fn clause_at(&self, var: usize, group: usize) -> (r: Option<usize>)
        requires
            var < self.var_lists@.len(),
            var < self.var_sets@.len(),
            group < self.var_sets@[var as int]@.len(),
        ensures
            r == (match self.var_sets@[var as int]@[group as int].node {
                Some(handle) => item_at(self.var_lists@[var as int], handle),
                None => None,
            }),
    {
        match &self.var_sets[var][group].node {
            Some(handle) => node_item(&self.var_lists[var], handle),
            None => None,
        }
    }
}

} // verus!

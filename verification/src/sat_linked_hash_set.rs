use crate::counting::lemma_distinct_below;
use crate::counting::lemma_distinct_below_missing;
use vstd::prelude::*;

verus! {

/// The slot index that stands for "no slot".
pub const NIL: usize = usize::MAX;

/// One node of a per-variable list: a clause index and the slots of its
/// neighbours (`NIL` at either end).
#[derive(Copy, Clone, Debug, PartialEq, Eq, Structural)]
pub struct SatNode {
    pub val: usize,
    pub next: usize,
    pub prev: usize,
}

impl SatNode {
    /// The node with clause `val` between the slots `prev` and `next`.
    pub fn new(val: usize, next: usize, prev: usize) -> (n: Self)
        ensures
            n == (SatNode { val, next, prev }),
    {
        SatNode { val, next, prev }
    }
}

/// The arrays of a `SatLinkedHashSet` as plain sequences, one entry per
/// variable.
pub struct Links {
    pub heads: Seq<usize>,
    pub nodes: Seq<Seq<SatNode>>,
    pub slot_of: Seq<Seq<usize>>,
    pub free: Seq<Seq<usize>>,
    pub free_len: Seq<usize>,
}

impl Links {
    /// All five arrays have one entry per variable.
    pub open spec fn shaped(self) -> bool {
        &&& self.nodes.len() == self.heads.len()
        &&& self.slot_of.len() == self.heads.len()
        &&& self.free.len() == self.heads.len()
        &&& self.free_len.len() == self.heads.len()
    }

    /// The list of variable `v` is threaded through the slots `ord`, head
    /// first: the links agree with `ord`, the lookup array finds exactly the
    /// clauses in the list, and the free stack holds exactly the other slots.
    pub open spec fn threaded(self, v: int, ord: Seq<usize>) -> bool {
        let nodes = self.nodes[v];
        let slot_of = self.slot_of[v];
        let free = self.free[v];
        let nfree = self.free_len[v] as int;
        let cap = nodes.len() as int;
        &&& 0 <= v < self.heads.len()
        &&& self.shaped()
        &&& cap <= usize::MAX
        &&& slot_of.len() == cap
        &&& free.len() == cap
        &&& nfree + ord.len() == cap
        &&& ord.no_duplicates()
        &&& forall|i: int| 0 <= i < ord.len() ==> (#[trigger] ord[i]) < cap
        &&& self.heads[v] == (if ord.len() == 0 {
            NIL
        } else {
            ord[0]
        })
        &&& forall|i: int|
            0 <= i < ord.len() ==> {
                let n = #[trigger] nodes[ord[i] as int];
                &&& n.prev == (if i == 0 {
                    NIL
                } else {
                    ord[i - 1]
                })
                &&& n.next == (if i == ord.len() - 1 {
                    NIL
                } else {
                    ord[i + 1]
                })
                &&& n.val < cap
                &&& slot_of[n.val as int] == ord[i]
            }
        &&& forall|k: int|
            0 <= k < cap && (#[trigger] slot_of[k]) != NIL ==> {
                &&& slot_of[k] < cap
                &&& ord.contains(slot_of[k])
                &&& nodes[slot_of[k] as int].val == k
            }
        &&& forall|j: int| 0 <= j < nfree ==> (#[trigger] free[j]) < cap && !ord.contains(free[j])
        &&& forall|j1: int, j2: int|
            0 <= j1 < j2 < nfree ==> (#[trigger] free[j1]) != (#[trigger] free[j2])
    }

    /// The clause indices held by the slots `ord` of variable `v`, in order.
    pub open spec fn values(self, v: int, ord: Seq<usize>) -> Seq<usize> {
        Seq::new(ord.len(), |i: int| self.nodes[v][ord[i] as int].val)
    }

    /// The arrays with `h` as the head of the list of `v`.
    pub open spec fn set_head(self, v: int, h: usize) -> Links {
        Links { heads: self.heads.update(v, h), ..self }
    }

    /// The arrays with node `n` in slot `slot` of `v`.
    pub open spec fn set_node(self, v: int, slot: int, n: SatNode) -> Links {
        Links { nodes: self.nodes.update(v, self.nodes[v].update(slot, n)), ..self }
    }

    /// The arrays with `slot` recorded as the slot of clause `con` of `v`.
    pub open spec fn set_slot_of(self, v: int, con: int, slot: usize) -> Links {
        Links { slot_of: self.slot_of.update(v, self.slot_of[v].update(con, slot)), ..self }
    }

    /// The arrays with `slot` at position `j` of the free stack of `v`.
    pub open spec fn set_free(self, v: int, j: int, slot: usize) -> Links {
        Links { free: self.free.update(v, self.free[v].update(j, slot)), ..self }
    }

    /// The arrays with `n` slots on the free stack of `v`.
    pub open spec fn set_free_len(self, v: int, n: usize) -> Links {
        Links { free_len: self.free_len.update(v, n), ..self }
    }

    /// What `insert` makes of the arrays: slot `s`, taken from the top of the
    /// free stack, becomes the head of the list of `v` and holds `con`.
    pub open spec fn inserted(self, v: int, con: usize) -> Links {
        let s = self.free[v][self.free_len[v] - 1];
        let h = self.heads[v];
        let a = self.set_slot_of(v, con as int, s).set_free_len(v, (self.free_len[v] - 1) as usize);
        let b = if h != NIL {
            a.set_node(v, h as int, SatNode { prev: s, ..a.nodes[v][h as int] })
        } else {
            a
        };
        b.set_node(v, s as int, SatNode { val: con, prev: NIL, next: h }).set_head(v, s)
    }

    /// What `update_neighbors_remove` makes of the arrays: the neighbours
    /// of slot `s` are joined to each other, or to the head.
    pub open spec fn unlinked(self, v: int, s: int) -> Links {
        let n = self.nodes[v][s];
        if n.prev == NIL && n.next == NIL {
            self.set_head(v, NIL)
        } else if n.prev == NIL {
            let h = self.nodes[v][self.heads[v] as int].next;
            let a = self.set_head(v, h);
            a.set_node(v, h as int, SatNode { prev: NIL, ..a.nodes[v][h as int] })
        } else if n.next == NIL {
            self.set_node(v, n.prev as int, SatNode { next: NIL, ..self.nodes[v][n.prev as int] })
        } else {
            let a = self.set_node(
                v,
                n.prev as int,
                SatNode { next: n.next, ..self.nodes[v][n.prev as int] },
            );
            a.set_node(v, n.next as int, SatNode { prev: n.prev, ..a.nodes[v][n.next as int] })
        }
    }

    /// What `remove` makes of the arrays: the slot of `con` goes back on
    /// the free stack and out of the list.
    pub open spec fn removed(self, v: int, con: usize) -> Links {
        let s = self.slot_of[v][con as int];
        self.set_slot_of(v, con as int, NIL).set_free(v, self.free_len[v] as int, s).set_free_len(
            v,
            (self.free_len[v] + 1) as usize,
        ).unlinked(v, s as int)
    }
}

/// Taking out the clause that was put in last undoes the insertion: the
/// heads, the lookup arrays and the free stacks, with their top slot, are
/// as before, and so are the nodes of the list. (The slot that was used
/// and freed again keeps what was written there.)
pub proof fn law_inserted_then_removed(l: Links, v: int, ord: Seq<usize>, con: usize)
    requires
        l.threaded(v, ord),
        l.free_len[v] > 0,
        con < l.nodes[v].len(),
        l.slot_of[v][con as int] == NIL,
    ensures
        l.inserted(v, con).removed(v, con).heads == l.heads,
        l.inserted(v, con).removed(v, con).slot_of == l.slot_of,
        l.inserted(v, con).removed(v, con).free == l.free,
        l.inserted(v, con).removed(v, con).free_len == l.free_len,
        forall|i: int|
            0 <= i < ord.len() ==> l.inserted(v, con).removed(v, con).nodes[v][(#[trigger] ord[i]) as int]
                == l.nodes[v][ord[i] as int],
        forall|w: int|
            0 <= w < l.heads.len() && w != v ==> #[trigger] l.inserted(v, con).removed(v, con).nodes[w]
                == l.nodes[w],
{
    let s = l.free[v][l.free_len[v] - 1];
    let h = l.heads[v];
    let m = l.inserted(v, con);
    let r = m.removed(v, con);
    assert(s < l.nodes[v].len() && !ord.contains(s));
    if h != NIL {
        assert(ord[0] == h);
        assert(l.nodes[v][ord[0] as int].prev == NIL);
        assert(ord.contains(h));
    }
    assert(m.slot_of[v][con as int] == s);
    assert(m.nodes[v][s as int] == (SatNode { val: con, prev: NIL, next: h }));
    assert(m.heads[v] == s);
    assert(r.heads =~= l.heads);
    assert(r.slot_of[v] =~= l.slot_of[v]);
    assert(r.slot_of =~= l.slot_of);
    assert(r.free[v] =~= l.free[v]);
    assert(r.free =~= l.free);
    assert(r.free_len =~= l.free_len);
    assert forall|i: int| 0 <= i < ord.len() implies r.nodes[v][(#[trigger] ord[i]) as int]
        == l.nodes[v][ord[i] as int] by {
        assert(ord.contains(ord[i]));
        assert(ord[i] != s);
    }
}

/// A list whose arrays did not change is threaded as before.
pub proof fn lemma_same_list(a: Links, b: Links, w: int, ord: Seq<usize>)
    requires
        a.threaded(w, ord),
        b.shaped(),
        b.heads.len() == a.heads.len(),
        b.heads[w] == a.heads[w],
        b.nodes[w] == a.nodes[w],
        b.slot_of[w] == a.slot_of[w],
        b.free[w] == a.free[w],
        b.free_len[w] == a.free_len[w],
    ensures
        b.threaded(w, ord),
        b.values(w, ord) == a.values(w, ord),
{
    assert(b.values(w, ord) =~= a.values(w, ord));
}

/// Inserting a clause that the list of `v` lacks puts it at the head.
#[verifier::rlimit(80)]
#[verifier::spinoff_prover]
pub proof fn lemma_inserted(l: Links, v: int, ord: Seq<usize>, con: usize)
    requires
        l.threaded(v, ord),
        con < l.nodes[v].len(),
        l.slot_of[v][con as int] == NIL,
    ensures
        l.free_len[v] > 0,
        l.inserted(v, con).threaded(v, seq![l.free[v][l.free_len[v] - 1]] + ord),
        l.inserted(v, con).values(v, seq![l.free[v][l.free_len[v] - 1]] + ord) == seq![con]
            + l.values(v, ord),
        forall|w: int|
            0 <= w < l.heads.len() && w != v ==> {
                &&& l.inserted(v, con).heads[w] == l.heads[w]
                &&& l.inserted(v, con).nodes[w] == l.nodes[w]
                &&& l.inserted(v, con).slot_of[w] == l.slot_of[w]
                &&& l.inserted(v, con).free[w] == l.free[w]
                &&& l.inserted(v, con).free_len[w] == l.free_len[w]
            },
        l.inserted(v, con).shaped(),
        l.inserted(v, con).heads.len() == l.heads.len(),
        l.inserted(v, con).nodes[v].len() == l.nodes[v].len(),
{
    lemma_values_distinct(l, v, ord);
    let vals = l.values(v, ord);
    assert(!vals.contains(con));
    lemma_distinct_below_missing(vals, l.nodes[v].len(), con);
    let nfree = l.free_len[v] as int;
    let s = l.free[v][nfree - 1];
    let h = l.heads[v];
    let r = l.inserted(v, con);
    let ord2 = seq![s] + ord;
    let nodes = r.nodes[v];
    let slot_of = r.slot_of[v];
    let free = r.free[v];
    let cap = nodes.len() as int;
    assert(!ord.contains(s));
    assert(s < cap);
    assert(ord2.no_duplicates()) by {
        assert forall|i: int, j: int| 0 <= i < ord2.len() && 0 <= j < ord2.len() && i != j
            implies ord2[i] != ord2[j] by {
            if i > 0 && j > 0 {
                assert(ord[i - 1] != ord[j - 1]);
            } else if i > 0 {
                assert(ord.contains(ord[i - 1]));
            } else {
                assert(ord.contains(ord[j - 1]));
            }
        }
    }
    assert forall|i: int| 0 <= i < ord2.len() implies (#[trigger] ord2[i]) < cap by {
        if i > 0 {
            assert(ord2[i] == ord[i - 1]);
        }
    }
    assert forall|i: int| 0 <= i < ord2.len() implies {
        let n = #[trigger] nodes[ord2[i] as int];
        &&& n.prev == (if i == 0 {
            NIL
        } else {
            ord2[i - 1]
        })
        &&& n.next == (if i == ord2.len() - 1 {
            NIL
        } else {
            ord2[i + 1]
        })
        &&& n.val < cap
        &&& slot_of[n.val as int] == ord2[i]
    } by {
        if i > 0 {
            let o = l.nodes[v][ord[i - 1] as int];
            assert(ord2[i] == ord[i - 1]);
            assert(ord.contains(ord[i - 1]));
            assert(l.slot_of[v][o.val as int] == ord[i - 1]);
            assert(o.val != con);
            if i - 1 == 0 {
                assert(ord[0] == h);
            } else {
                assert(ord[i - 1] != ord[0]);
            }
        }
    }
    assert forall|k: int| 0 <= k < cap && (#[trigger] slot_of[k]) != NIL implies {
        &&& slot_of[k] < cap
        &&& ord2.contains(slot_of[k])
        &&& nodes[slot_of[k] as int].val == k
    } by {
        if k == con {
            assert(ord2[0] == s);
        } else {
            let t = l.slot_of[v][k];
            assert(t != NIL);
            let i = choose|i: int| 0 <= i < ord.len() && ord[i] == t;
            assert(ord2[i + 1] == t);
            assert(t != s);
        }
    }
    assert forall|j: int| 0 <= j < nfree - 1 implies (#[trigger] free[j]) < cap && !ord2.contains(
        free[j],
    ) by {
        assert(l.free[v][j] != l.free[v][nfree - 1]);
        if ord2.contains(free[j]) {
            let i = choose|i: int| 0 <= i < ord2.len() && ord2[i] == free[j];
            assert(i > 0);
            assert(ord.contains(ord[i - 1]));
        }
    }
    assert(r.values(v, ord2) =~= seq![con] + l.values(v, ord)) by {
        assert forall|i: int| 0 <= i < ord2.len() implies r.values(v, ord2)[i] == (seq![con]
            + l.values(v, ord))[i] by {
            if i > 0 {
                assert(ord2[i] == ord[i - 1]);
                assert(ord.contains(ord[i - 1]));
            }
        }
    }
}

/// Removing a clause that the list of `v` holds takes it out and leaves
/// the others in their order.
#[verifier::rlimit(80)]
#[verifier::spinoff_prover]
pub proof fn lemma_removed(l: Links, v: int, ord: Seq<usize>, con: usize)
    requires
        l.threaded(v, ord),
        con < l.nodes[v].len(),
        l.slot_of[v][con as int] != NIL,
    ensures
        ord.contains(l.slot_of[v][con as int]),
        l.free_len[v] < l.nodes[v].len(),
        l.removed(v, con).threaded(v, ord.remove(ord.index_of(l.slot_of[v][con as int]))),
        l.removed(v, con).values(v, ord.remove(ord.index_of(l.slot_of[v][con as int])))
            == l.values(v, ord).remove(l.values(v, ord).index_of(con)),
        l.values(v, ord).contains(con),
        l.values(v, ord).index_of(con) == ord.index_of(l.slot_of[v][con as int]),
        forall|w: int|
            0 <= w < l.heads.len() && w != v ==> {
                &&& l.removed(v, con).heads[w] == l.heads[w]
                &&& l.removed(v, con).nodes[w] == l.nodes[w]
                &&& l.removed(v, con).slot_of[w] == l.slot_of[w]
                &&& l.removed(v, con).free[w] == l.free[w]
                &&& l.removed(v, con).free_len[w] == l.free_len[w]
            },
        l.removed(v, con).shaped(),
        l.removed(v, con).heads.len() == l.heads.len(),
        l.removed(v, con).nodes[v].len() == l.nodes[v].len(),
{
    lemma_values_distinct(l, v, ord);
    let s = l.slot_of[v][con as int];
    assert(ord.contains(s));
    let p = ord.index_of(s);
    assert(0 <= p < ord.len() && ord[p] == s);
    let vals = l.values(v, ord);
    assert(l.nodes[v][ord[p] as int].val == con);
    assert(vals[p] == con);
    assert(vals.index_of(con) == p) by {
        let q = vals.index_of(con);
        assert(0 <= q < vals.len() && vals[q] == con);
    }
    let nfree = l.free_len[v] as int;
    let r = l.removed(v, con);
    let ord2 = ord.remove(p);
    let nodes = r.nodes[v];
    let slot_of = r.slot_of[v];
    let free = r.free[v];
    let cap = nodes.len() as int;
    let n = l.nodes[v][s as int];
    assert forall|i: int| 0 <= i < ord2.len() implies ord2[i] == (if i < p {
        ord[i]
    } else {
        ord[i + 1]
    }) && ord2[i] != s && ord.contains(ord2[i]) by {
        if i < p {
            assert(ord[i] != ord[p]);
        } else {
            assert(ord[i + 1] != ord[p]);
        }
    }
    assert(ord2.no_duplicates()) by {
        assert forall|i: int, j: int| 0 <= i < ord2.len() && 0 <= j < ord2.len() && i != j
            implies ord2[i] != ord2[j] by {
            let i0 = if i < p { i } else { i + 1 };
            let j0 = if j < p { j } else { j + 1 };
            assert(ord[i0] != ord[j0]);
        }
    }
    assert(n.prev == (if p == 0 {
        NIL
    } else {
        ord[p - 1]
    }));
    assert(n.next == (if p == ord.len() - 1 {
        NIL
    } else {
        ord[p + 1]
    }));
    if p > 0 {
        assert(ord[p - 1] < cap);
    }
    if p < ord.len() - 1 {
        assert(ord[p + 1] < cap);
    }
    assert(l.heads[v] == ord[0]);
    assert forall|i: int| 0 <= i < ord2.len() implies {
        let m = #[trigger] nodes[ord2[i] as int];
        &&& m.prev == (if i == 0 {
            NIL
        } else {
            ord2[i - 1]
        })
        &&& m.next == (if i == ord2.len() - 1 {
            NIL
        } else {
            ord2[i + 1]
        })
        &&& m.val < cap
        &&& slot_of[m.val as int] == ord2[i]
    } by {
        let i0 = if i < p { i } else { i + 1 };
        let o = l.nodes[v][ord[i0] as int];
        assert(ord2[i] == ord[i0]);
        assert(l.slot_of[v][o.val as int] == ord[i0]);
        assert(o.val != con);
        if p > 0 {
            assert(ord[i0] != ord[p - 1] || i0 == p - 1);
        }
        if p < ord.len() - 1 {
            assert(ord[i0] != ord[p + 1] || i0 == p + 1);
        }
        if i0 > 0 {
            assert(ord[i0 - 1] < cap);
        }
        if i0 < ord.len() - 1 {
            assert(ord[i0 + 1] < cap);
        }
    }
    assert forall|k: int| 0 <= k < cap && (#[trigger] slot_of[k]) != NIL implies {
        &&& slot_of[k] < cap
        &&& ord2.contains(slot_of[k])
        &&& nodes[slot_of[k] as int].val == k
    } by {
        assert(k != con);
        let t = l.slot_of[v][k];
        assert(t != NIL);
        let i0 = choose|i: int| 0 <= i < ord.len() && ord[i] == t;
        assert(l.nodes[v][t as int].val == k);
        assert(i0 != p);
        let i = if i0 < p { i0 } else { i0 - 1 };
        assert(ord2[i] == t);
        let o = nodes[ord2[i] as int];
    }
    assert forall|j: int| 0 <= j < nfree + 1 implies (#[trigger] free[j]) < cap && !ord2.contains(
        free[j],
    ) by {
        if j < nfree {
            assert(free[j] == l.free[v][j]);
            if ord2.contains(free[j]) {
                let i = choose|i: int| 0 <= i < ord2.len() && ord2[i] == free[j];
                assert(ord.contains(ord2[i]));
            }
        } else {
            if ord2.contains(s) {
                let i = choose|i: int| 0 <= i < ord2.len() && ord2[i] == s;
            }
        }
    }
    assert forall|j1: int, j2: int| 0 <= j1 < j2 < nfree + 1 implies (#[trigger] free[j1]) != (
    #[trigger] free[j2]) by {
        if j2 == nfree {
            assert(free[j1] == l.free[v][j1]);
        }
    }
    assert(r.values(v, ord2) =~= vals.remove(p)) by {
        assert forall|i: int| 0 <= i < ord2.len() implies r.values(v, ord2)[i] == vals.remove(
            p,
        )[i] by {
            let i0 = if i < p { i } else { i + 1 };
            assert(ord2[i] == ord[i0]);
            let m = nodes[ord2[i] as int];
        }
    }
}

/// Threaded lists hold no clause twice, and only clauses below the capacity.
pub proof fn lemma_values_distinct(l: Links, v: int, ord: Seq<usize>)
    requires
        l.threaded(v, ord),
    ensures
        l.values(v, ord).no_duplicates(),
        forall|i: int|
            0 <= i < ord.len() ==> (#[trigger] l.values(v, ord)[i]) < l.nodes[v].len(),
        forall|k: int|
            0 <= k < l.nodes[v].len() ==> (l.values(v, ord).contains(k as usize) <==> l.slot_of[v][k]
                != NIL),
        ord.len() <= l.nodes[v].len(),
{
    let vals = l.values(v, ord);
    assert forall|i: int, j: int| 0 <= i < vals.len() && 0 <= j < vals.len() && i != j implies vals[i]
        != vals[j] by {
        let ni = l.nodes[v][ord[i] as int];
        let nj = l.nodes[v][ord[j] as int];
        assert(l.slot_of[v][ni.val as int] == ord[i]);
        assert(l.slot_of[v][nj.val as int] == ord[j]);
    }
    assert forall|i: int| 0 <= i < ord.len() implies (#[trigger] vals[i]) < l.nodes[v].len() by {
        let ni = l.nodes[v][ord[i] as int];
        assert(ni.val < l.nodes[v].len());
    }
    assert forall|k: int| 0 <= k < l.nodes[v].len() implies (vals.contains(k as usize)
        <==> l.slot_of[v][k] != NIL) by {
        if l.slot_of[v][k] != NIL {
            let s = l.slot_of[v][k];
            let i = choose|i: int| 0 <= i < ord.len() && ord[i] == s;
            assert(vals[i] == k);
        }
        if vals.contains(k as usize) {
            let i = choose|i: int| 0 <= i < vals.len() && vals[i] == k as usize;
            let ni = l.nodes[v][ord[i] as int];
            assert(l.slot_of[v][ni.val as int] == ord[i]);
        }
    }
    lemma_distinct_below(ord, l.nodes[v].len());
}

/// The slots `0, 1, .., n - 1`.
pub open spec fn first_slots(n: nat) -> Seq<usize> {
    Seq::new(n, |j: int| j as usize)
}

/// A list laid out in the first slots, in order, with the other slots
/// stacked from the highest down, is threaded through the first slots.
pub proof fn lemma_fresh_list_threaded(l: Links, v: int, cons: Seq<usize>)
    requires
        0 <= v < l.heads.len(),
        l.shaped(),
        l.nodes[v].len() <= usize::MAX,
        l.slot_of[v].len() == l.nodes[v].len(),
        l.free[v].len() == l.nodes[v].len(),
        cons.len() <= l.nodes[v].len(),
        cons.no_duplicates(),
        l.free_len[v] == l.nodes[v].len() - cons.len(),
        l.heads[v] == (if cons.len() == 0 {
            NIL
        } else {
            0usize
        }),
        forall|j: int| 0 <= j < cons.len() ==> (#[trigger] cons[j]) < l.nodes[v].len(),
        forall|j: int|
            0 <= j < cons.len() ==> (#[trigger] l.nodes[v][j]) == (SatNode {
                val: cons[j],
                next: if j + 1 == cons.len() {
                    NIL
                } else {
                    (j + 1) as usize
                },
                prev: if j == 0 {
                    NIL
                } else {
                    (j - 1) as usize
                },
            }),
        forall|j: int| 0 <= j < cons.len() ==> (#[trigger] l.slot_of[v][cons[j] as int]) == j,
        forall|k: int|
            0 <= k < l.nodes[v].len() && !cons.contains(k as usize) ==> (#[trigger] l.slot_of[v][k])
                == NIL,
        forall|j: int|
            0 <= j < l.nodes[v].len() ==> (#[trigger] l.free[v][j]) == l.nodes[v].len() - j - 1,
    ensures
        l.threaded(v, first_slots(cons.len())),
{
    let ord = first_slots(cons.len());
    let nodes = l.nodes[v];
    let slot_of = l.slot_of[v];
    let free = l.free[v];
    let nfree = l.free_len[v] as int;
    let cap = nodes.len() as int;
    assert forall|i: int| 0 <= i < ord.len() implies {
        let n = #[trigger] nodes[ord[i] as int];
        &&& n.prev == (if i == 0 {
            NIL
        } else {
            ord[i - 1]
        })
        &&& n.next == (if i == ord.len() - 1 {
            NIL
        } else {
            ord[i + 1]
        })
        &&& n.val < cap
        &&& slot_of[n.val as int] == ord[i]
    } by {
        assert(nodes[i].val == cons[i]);
        assert(slot_of[cons[i] as int] == i);
    }
    assert forall|k: int| 0 <= k < cap && (#[trigger] slot_of[k]) != NIL implies {
        &&& slot_of[k] < cap
        &&& ord.contains(slot_of[k])
        &&& nodes[slot_of[k] as int].val == k
    } by {
        assert(cons.contains(k as usize));
        let j = choose|j: int| 0 <= j < cons.len() && cons[j] == k as usize;
        assert(slot_of[cons[j] as int] == j);
        assert(ord[j] == j as usize);
        assert(nodes[j].val == cons[j]);
    }
    assert forall|j: int| 0 <= j < nfree implies (#[trigger] free[j]) < cap && !ord.contains(
        free[j],
    ) by {
        if ord.contains(free[j]) {
            let i = choose|i: int| 0 <= i < ord.len() && ord[i] == free[j];
            assert(false);
        }
    }
}

/// The five arrays, each inner array taken by its view.
pub open spec fn links_from(
    heads: Seq<usize>,
    var_lists: Seq<Vec<SatNode>>,
    var_sets: Seq<Vec<usize>>,
    open_spots: Seq<Vec<usize>>,
    open_spots_len: Seq<usize>,
) -> Links {
    Links {
        heads,
        nodes: Seq::new(var_lists.len(), |v: int| var_lists[v]@),
        slot_of: Seq::new(var_sets.len(), |v: int| var_sets[v]@),
        free: Seq::new(open_spots.len(), |v: int| open_spots[v]@),
        free_len: open_spots_len,
    }
}

/// For each variable, the set of clauses that mention it and are not yet
/// satisfied: a doubly linked list threaded over a fixed array of slots, a
/// lookup array from clause index to slot, and a stack of the unused slots.
pub struct SatLinkedHashSet {
    pub heads: Vec<usize>,
    pub var_lists: Vec<Vec<SatNode>>,
    pub var_sets: Vec<Vec<usize>>,
    pub open_spots: Vec<Vec<usize>>,
    pub open_spots_len: Vec<usize>,
    /// For each variable, the slots of its list from the head on.
    pub order: Ghost<Seq<Seq<usize>>>,
}

impl SatLinkedHashSet {
    /// The five arrays as plain sequences.
    pub open spec fn links(&self) -> Links {
        links_from(
            self.heads@,
            self.var_lists@,
            self.var_sets@,
            self.open_spots@,
            self.open_spots_len@,
        )
    }

    /// The number of variables that have a set.
    pub open spec fn num_vars(&self) -> nat {
        self.heads@.len()
    }

    /// The number of slots, and of clause indices, that variable `v` has.
    pub open spec fn capacity(&self, v: int) -> nat {
        self.var_lists@[v]@.len()
    }

    /// The list of every variable is threaded through the slots that
    /// `order` names for it.
    pub open spec fn wf(&self) -> bool {
        &&& self.links().shaped()
        &&& self.order@.len() == self.num_vars()
        &&& forall|v: int|
            0 <= v < self.num_vars() ==> #[trigger] self.links().threaded(v, self.order@[v])
    }

    /// The clauses in the list of variable `v`, head first.
    pub open spec fn list(&self, v: int) -> Seq<usize> {
        self.links().values(v, self.order@[v])
    }

    /// Whether clause `con` is in the set of variable `var`.
    pub open spec fn has(&self, var: int, con: int) -> bool {
        self.var_sets@[var]@[con] != NIL
    }

    /// A well-formed set holds no clause twice in any list; membership by the
    /// lookup array and by the list agree; a list is no longer than its
    /// capacity.
    pub proof fn lemma_list_facts(&self, v: int)
        requires
            self.wf(),
            0 <= v < self.num_vars(),
        ensures
            self.list(v).no_duplicates(),
            self.list(v).len() + self.open_spots_len@[v] == self.capacity(v),
            forall|i: int|
                0 <= i < self.list(v).len() ==> (#[trigger] self.list(v)[i]) < self.capacity(v),
            forall|k: int|
                0 <= k < self.capacity(v) ==> (self.list(v).contains(k as usize) <==> self.has(
                    v,
                    k,
                )),
    {
        assert(self.links().threaded(v, self.order@[v]));
        lemma_values_distinct(self.links(), v, self.order@[v]);
    }

    /// An empty set for each of the variables of `variable_connections`,
    /// filled with the clauses listed for it, the first listed at the head.
    /// Every variable gets `capacity` slots.
    pub fn new(variable_connections: &Vec<Vec<usize>>, capacity: usize) -> (s: Self)
        requires
            forall|v: int|
                0 <= v < variable_connections@.len() ==> (
                #[trigger] variable_connections@[v])@.no_duplicates(),
            forall|v: int, j: int|
                0 <= v < variable_connections@.len() && 0 <= j < variable_connections@[v]@.len()
                    ==> (#[trigger] variable_connections@[v]@[j]) < capacity,
        ensures
            s.wf(),
            s.num_vars() == variable_connections@.len(),
            forall|v: int| 0 <= v < s.num_vars() ==> #[trigger] s.capacity(v) == capacity,
            forall|v: int| 0 <= v < s.num_vars() ==> #[trigger] s.list(v) == variable_connections@[v]@,
    {
        let mut var_lists: Vec<Vec<SatNode>> = Vec::new();
        let mut var_sets: Vec<Vec<usize>> = Vec::new();
        let mut open_spots: Vec<Vec<usize>> = Vec::new();
        let mut open_spots_len: Vec<usize> = Vec::new();
        let mut heads: Vec<usize> = Vec::new();
        let ghost mut order: Seq<Seq<usize>> = Seq::empty();
        let num_vars = variable_connections.len();
        let mut i: usize = 0;
        while i < num_vars
            invariant
                num_vars == variable_connections@.len(),
                i <= num_vars,
                var_lists@.len() == i,
                var_sets@.len() == i,
                open_spots@.len() == i,
                open_spots_len@.len() == i,
                heads@.len() == i,
                order.len() == i,
                forall|v: int|
                    0 <= v < variable_connections@.len() ==> (
                    #[trigger] variable_connections@[v])@.no_duplicates(),
                forall|v: int, j: int|
                    0 <= v < variable_connections@.len() && 0 <= j
                        < variable_connections@[v]@.len() ==> (
                    #[trigger] variable_connections@[v]@[j]) < capacity,
                forall|v: int|
                    0 <= v < i ==> #[trigger] links_from(
                        heads@,
                        var_lists@,
                        var_sets@,
                        open_spots@,
                        open_spots_len@,
                    ).threaded(v, order[v]),
                forall|v: int|
                    0 <= v < i ==> #[trigger] links_from(
                        heads@,
                        var_lists@,
                        var_sets@,
                        open_spots@,
                        open_spots_len@,
                    ).values(v, order[v]) == variable_connections@[v]@,
                forall|v: int| 0 <= v < i ==> (#[trigger] var_lists@[v])@.len() == capacity,
            decreases num_vars - i,
        {
            let cons = &variable_connections[i];
            let num_cons = cons.len();
            proof {
                lemma_distinct_below(cons@, capacity as nat);
            }
            let built = Self::new_list(cons, capacity);
            let ghost ord = first_slots(num_cons as nat);
            let ghost old_l = links_from(heads@, var_lists@, var_sets@, open_spots@, open_spots_len@);
            let ghost old_order = order;
            heads.push(if num_cons == 0 {
                NIL
            } else {
                0
            });
            var_lists.push(built.0);
            var_sets.push(built.1);
            open_spots.push(built.2);
            open_spots_len.push(capacity - num_cons);
            proof {
                order = order.push(ord);
                let l = links_from(heads@, var_lists@, var_sets@, open_spots@, open_spots_len@);
                assert forall|v: int| 0 <= v < i + 1 implies #[trigger] l.threaded(
                    v,
                    order[v],
                ) by {
                    if v < i {
                        assert(old_l.threaded(v, old_order[v]));
                        assert(l.nodes[v] == old_l.nodes[v]);
                        assert(l.slot_of[v] == old_l.slot_of[v]);
                        assert(l.free[v] == old_l.free[v]);
                    } else {
                        assert(l.nodes[v] == built.0@);
                        assert(l.slot_of[v] == built.1@);
                        assert(l.free[v] == built.2@);
                        lemma_fresh_list_threaded(l, v, cons@);
                    }
                }
                assert forall|v: int| 0 <= v < i + 1 implies #[trigger] l.values(v, order[v])
                    == variable_connections@[v]@ by {
                    if v < i {
                        assert(l.nodes[v] == old_l.nodes[v]);
                        assert(l.values(v, order[v]) =~= old_l.values(v, old_order[v]));
                    } else {
                        assert(l.nodes[v] == built.0@);
                        assert(l.values(v, ord) =~= cons@);
                    }
                }
            }
            i += 1;
        }
        let s = SatLinkedHashSet {
            heads,
            var_lists,
            var_sets,
            open_spots,
            open_spots_len,
            order: Ghost(order),
        };
        proof {
            assert forall|v: int| 0 <= v < s.num_vars() implies #[trigger] s.links().threaded(
                v,
                s.order@[v],
            ) by {
                let l = links_from(heads@, var_lists@, var_sets@, open_spots@, open_spots_len@);
                assert(l.threaded(v, order[v]));
                assert(s.links() == l);
            }
            assert forall|v: int| 0 <= v < s.num_vars() implies #[trigger] s.list(v)
                == variable_connections@[v]@ by {
                let l = links_from(heads@, var_lists@, var_sets@, open_spots@, open_spots_len@);
                assert(l.threaded(v, order[v]));
                assert(s.links() == l);
            }
            assert forall|v: int| 0 <= v < s.num_vars() implies #[trigger] s.capacity(v)
                == capacity by {
                let l = links_from(heads@, var_lists@, var_sets@, open_spots@, open_spots_len@);
                assert(l.threaded(v, order[v]));
            }
        }
        s
    }

    /// The three arrays of one variable: the clauses of `cons` in the first
    /// slots, linked in order, and the other slots on the free stack, the
    /// lowest on top.
    fn new_list(cons: &Vec<usize>, capacity: usize) -> (r: (Vec<SatNode>, Vec<usize>, Vec<usize>))
        requires
            cons@.no_duplicates(),
            cons@.len() <= capacity,
            forall|j: int| 0 <= j < cons@.len() ==> (#[trigger] cons@[j]) < capacity,
        ensures
            r.0@.len() == capacity,
            r.1@.len() == capacity,
            r.2@.len() == capacity,
            forall|j: int|
                0 <= j < cons@.len() ==> (#[trigger] r.0@[j]) == (SatNode {
                    val: cons@[j],
                    next: if j + 1 == cons@.len() {
                        NIL
                    } else {
                        (j + 1) as usize
                    },
                    prev: if j == 0 {
                        NIL
                    } else {
                        (j - 1) as usize
                    },
                }),
            forall|j: int| 0 <= j < cons@.len() ==> (#[trigger] r.1@[cons@[j] as int]) == j,
            forall|k: int|
                0 <= k < capacity && !cons@.contains(k as usize) ==> (#[trigger] r.1@[k]) == NIL,
            forall|j: int| 0 <= j < capacity ==> (#[trigger] r.2@[j]) == capacity - j - 1,
    {
        let mut var_list: Vec<SatNode> = Vec::new();
        let mut var_set: Vec<usize> = Vec::new();
        let mut var_open_spots: Vec<usize> = Vec::new();
        let mut j: usize = 0;
        while j < capacity
            invariant
                j <= capacity,
                var_list@.len() == j,
                var_set@.len() == j,
                var_open_spots@.len() == j,
                forall|k: int| 0 <= k < j ==> (#[trigger] var_set@[k]) == NIL,
                forall|k: int| 0 <= k < j ==> (#[trigger] var_open_spots@[k]) == capacity - k - 1,
            decreases capacity - j,
        {
            var_open_spots.push(capacity - j - 1);
            var_list.push(SatNode { val: NIL, next: NIL, prev: NIL });
            var_set.push(NIL);
            j += 1;
        }
        let num_cons = cons.len();
        let mut j: usize = 0;
        while j < num_cons
            invariant
                j <= num_cons,
                num_cons == cons@.len(),
                num_cons <= capacity,
                cons@.no_duplicates(),
                forall|j: int| 0 <= j < cons@.len() ==> (#[trigger] cons@[j]) < capacity,
                var_list@.len() == capacity,
                var_set@.len() == capacity,
                var_open_spots@.len() == capacity,
                forall|k: int|
                    0 <= k < capacity ==> (#[trigger] var_open_spots@[k]) == capacity - k - 1,
                forall|i: int|
                    0 <= i < j ==> (#[trigger] var_list@[i]) == (SatNode {
                        val: cons@[i],
                        next: if i + 1 == cons@.len() {
                            NIL
                        } else {
                            (i + 1) as usize
                        },
                        prev: if i == 0 {
                            NIL
                        } else {
                            (i - 1) as usize
                        },
                    }),
                forall|i: int| 0 <= i < j ==> (#[trigger] var_set@[cons@[i] as int]) == i,
                forall|k: int|
                    0 <= k < capacity && !cons@.subrange(0, j as int).contains(k as usize) ==> (
                    #[trigger] var_set@[k]) == NIL,
            decreases num_cons - j,
        {
            let group = cons[j];
            let next = if j + 1 == num_cons {
                NIL
            } else {
                j + 1
            };
            let prev = if j == 0 {
                NIL
            } else {
                j - 1
            };
            let node = SatNode::new(group, next, prev);
            let ghost before = var_set@;
            var_list[j] = node;
            var_set[group] = j;
            proof {
                assert forall|i: int| 0 <= i < j + 1 implies (#[trigger] var_set@[cons@[i] as int])
                    == i by {
                    if i < j {
                        assert(cons@[i] != cons@[j as int]);
                        assert(before[cons@[i] as int] == i);
                    }
                }
                assert forall|k: int|
                    0 <= k < capacity && !cons@.subrange(0, j + 1).contains(k as usize) implies (
                #[trigger] var_set@[k]) == NIL by {
                    assert(cons@.subrange(0, j + 1)[j as int] == cons@[j as int]);
                    assert(k != group);
                    if cons@.subrange(0, j as int).contains(k as usize) {
                        let i = choose|i: int|
                            0 <= i < j && cons@.subrange(0, j as int)[i] == k as usize;
                        assert(cons@.subrange(0, j + 1)[i] == k as usize);
                    }
                    assert(before[k] == NIL);
                }
            }
            j += 1;
        }
        proof {
            assert(cons@.subrange(0, num_cons as int) =~= cons@);
        }
        (var_list, var_set, var_open_spots)
    }

    /// Sets the `prev` link of the node in slot `previous_head`.
    pub fn update_previous_head_insert(
        &mut self,
        var: usize,
        previous_head: usize,
        spot_going_in: usize,
    )
        requires
            var < old(self).var_lists@.len(),
            previous_head < old(self).var_lists@[var as int]@.len(),
        ensures
            final(self).order == old(self).order,
            final(self).links() == old(self).links().set_node(
                var as int,
                previous_head as int,
                SatNode {
                    prev: spot_going_in,
                    ..old(self).links().nodes[var as int][previous_head as int]
                },
            ),
    {
        self.var_lists[var][previous_head].prev = spot_going_in;
        proof {
            assert(final(self).links().nodes =~~= old(self).links().set_node(
                var as int,
                previous_head as int,
                SatNode {
                    prev: spot_going_in,
                    ..old(self).links().nodes[var as int][previous_head as int]
                },
            ).nodes);
        }
    }

    /// Writes clause `con` into slot `spot_going_in` as a node without a
    /// predecessor, followed by `previous_head`.
    pub fn update_node_being_replaced(
        &mut self,
        var: usize,
        con: usize,
        spot_going_in: usize,
        previous_head: usize,
    )
        requires
            var < old(self).var_lists@.len(),
            spot_going_in < old(self).var_lists@[var as int]@.len(),
        ensures
            final(self).order == old(self).order,
            final(self).links() == old(self).links().set_node(
                var as int,
                spot_going_in as int,
                SatNode { val: con, prev: NIL, next: previous_head },
            ),
    {
        self.var_lists[var][spot_going_in].val = con;
        self.var_lists[var][spot_going_in].prev = NIL;
        self.var_lists[var][spot_going_in].next = previous_head;
        proof {
            assert(final(self).links().nodes =~~= old(self).links().set_node(
                var as int,
                spot_going_in as int,
                SatNode { val: con, prev: NIL, next: previous_head },
            ).nodes);
        }
    }

    /// Makes slot `spot_going_in` the head of the list of `var`.
    pub fn update_head_insert(&mut self, var: usize, spot_going_in: usize)
        requires
            var < old(self).heads@.len(),
        ensures
            final(self).order == old(self).order,
            final(self).links() == old(self).links().set_head(var as int, spot_going_in),
    {
        self.heads[var] = spot_going_in;
    }

    /// Records that clause `con` of variable `var` sits in slot
    /// `spot_going_in`.
    pub fn update_var_sets_insert(&mut self, var: usize, con: usize, spot_going_in: usize)
        requires
            var < old(self).var_sets@.len(),
            con < old(self).var_sets@[var as int]@.len(),
        ensures
            final(self).order == old(self).order,
            final(self).links() == old(self).links().set_slot_of(
                var as int,
                con as int,
                spot_going_in,
            ),
    {
        self.var_sets[var][con] = spot_going_in;
        proof {
            assert(final(self).links().slot_of =~~= old(self).links().set_slot_of(
                var as int,
                con as int,
                spot_going_in,
            ).slot_of);
        }
    }

    /// Puts clause `con`, which the set of `var` does not hold, at the head
    /// of the list of `var`, in the slot on top of the free stack: see
    /// `Links::inserted`.
    pub fn insert(&mut self, var: usize, con: usize)
        requires
            old(self).wf(),
            var < old(self).num_vars(),
            con < old(self).capacity(var as int),
            !old(self).has(var as int, con as int),
        ensures
            final(self).wf(),
            final(self).num_vars() == old(self).num_vars(),
            forall|w: int|
                0 <= w < final(self).num_vars() ==> #[trigger] final(self).capacity(w) == old(
                    self,
                ).capacity(w),
            final(self).links() == old(self).links().inserted(var as int, con),
            final(self).list(var as int) == seq![con] + old(self).list(var as int),
            forall|w: int|
                0 <= w < final(self).num_vars() && w != var ==> #[trigger] final(self).list(w)
                    == old(self).list(w),
            forall|w: int, k: int|
                0 <= w < final(self).num_vars() && 0 <= k < final(self).capacity(w) ==> (
                #[trigger] final(self).has(w, k) <==> (old(self).has(w, k) || (w == var && k
                    == con))),
    {
        proof {
            assert(old(self).links().threaded(var as int, old(self).order@[var as int]));
            lemma_inserted(old(self).links(), var as int, old(self).order@[var as int], con);
        }
        let previous_head = self.heads[var];
        let spot_going_in = self.open_spots[var][self.open_spots_len[var] - 1];
        self.update_var_sets_insert(var, con, spot_going_in);
        self.open_spots_len[var] -= 1;
        if previous_head != NIL {
            self.update_previous_head_insert(var, previous_head, spot_going_in);
        }
        self.update_node_being_replaced(var, con, spot_going_in, previous_head);
        self.update_head_insert(var, spot_going_in);
        proof {
            let ghost_order = old(self).order@.update(
                var as int,
                seq![spot_going_in] + old(self).order@[var as int],
            );
            self.order = Ghost(ghost_order);
        }
        proof {
            let a = old(self).links();
            let b = self.links();
            assert(b.heads =~= a.inserted(var as int, con).heads);
            assert(b.nodes =~~= a.inserted(var as int, con).nodes);
            assert(b.slot_of =~~= a.inserted(var as int, con).slot_of);
            assert(b.free =~~= a.inserted(var as int, con).free);
            assert(b.free_len =~= a.inserted(var as int, con).free_len);
            assert(b == a.inserted(var as int, con));
            assert forall|w: int| 0 <= w < self.num_vars() implies #[trigger] b.threaded(
                w,
                self.order@[w],
            ) by {
                if w != var {
                    assert(a.threaded(w, old(self).order@[w]));
                    lemma_same_list(a, b, w, self.order@[w]);
                }
            }
            assert forall|w: int| 0 <= w < self.num_vars() && w != var implies #[trigger] self.list(
                w,
            ) == old(self).list(w) by {
                assert(a.threaded(w, old(self).order@[w]));
                lemma_same_list(a, b, w, self.order@[w]);
            }
            assert forall|w: int| 0 <= w < self.num_vars() implies #[trigger] self.capacity(w)
                == old(self).capacity(w) by {
                assert(self.capacity(w) == b.nodes[w].len());
                assert(old(self).capacity(w) == a.nodes[w].len());
            }
            assert forall|w: int, k: int|
                0 <= w < self.num_vars() && 0 <= k < self.capacity(w) implies (
            #[trigger] self.has(w, k) <==> (old(self).has(w, k) || (w == var && k == con))) by {
                assert(self.has(w, k) == (b.slot_of[w][k] != NIL));
                assert(old(self).has(w, k) == (a.slot_of[w][k] != NIL));
                assert(a.threaded(w, old(self).order@[w]));
                assert(a.threaded(var as int, old(self).order@[var as int]));
            }
        }
    }

    /// Pushes slot `spot_will_be_open` onto the free stack of `var`.
    pub fn update_open_spots_remove(&mut self, var: usize, spot_will_be_open: usize)
        requires
            var < old(self).open_spots@.len(),
            var < old(self).open_spots_len@.len(),
            old(self).open_spots_len@[var as int] < old(self).open_spots@[var as int]@.len(),
        ensures
            final(self).order == old(self).order,
            final(self).links() == old(self).links().set_free(
                var as int,
                old(self).open_spots_len@[var as int] as int,
                spot_will_be_open,
            ).set_free_len(var as int, (old(self).open_spots_len@[var as int] + 1) as usize),
    {
        let top = self.open_spots_len[var];
        let cap = self.open_spots[var].len();
        assert(top < cap);
        self.open_spots[var][top] = spot_will_be_open;
        self.open_spots_len[var] = top + 1;
        proof {
            assert(final(self).links().free =~~= old(self).links().set_free(
                var as int,
                old(self).open_spots_len@[var as int] as int,
                spot_will_be_open,
            ).free);
        }
    }

    /// Leaves the list of `var` without a head.
    pub fn empty_list(&mut self, var: usize)
        requires
            var < old(self).heads@.len(),
        ensures
            final(self).order == old(self).order,
            final(self).links() == old(self).links().set_head(var as int, NIL),
    {
        self.heads[var] = NIL;
    }

    /// Makes the successor of the head the new head.
    pub fn remove_head(&mut self, var: usize)
        requires
            var < old(self).heads@.len(),
            var < old(self).var_lists@.len(),
            old(self).heads@[var as int] < old(self).var_lists@[var as int]@.len(),
            old(self).var_lists@[var as int]@[old(self).heads@[var as int] as int].next < old(
                self,
            ).var_lists@[var as int]@.len(),
        ensures
            final(self).order == old(self).order,
            final(self).links() == ({
                let l = old(self).links();
                let h = l.nodes[var as int][l.heads[var as int] as int].next;
                let a = l.set_head(var as int, h);
                a.set_node(var as int, h as int, SatNode { prev: NIL, ..a.nodes[var as int][h as int] })
            }),
    {
        let next = self.var_lists[var][self.heads[var]].next;
        self.heads[var] = next;
        self.var_lists[var][next].prev = NIL;
        proof {
            let l = old(self).links();
            let h = l.nodes[var as int][l.heads[var as int] as int].next;
            let a = l.set_head(var as int, h);
            assert(final(self).links().nodes =~~= a.set_node(
                var as int,
                h as int,
                SatNode { prev: NIL, ..a.nodes[var as int][h as int] },
            ).nodes);
        }
    }

    /// Makes the node in slot `prior_to_tail` the last of its list.
    pub fn remove_tail(&mut self, var: usize, prior_to_tail: usize)
        requires
            var < old(self).var_lists@.len(),
            prior_to_tail < old(self).var_lists@[var as int]@.len(),
        ensures
            final(self).order == old(self).order,
            final(self).links() == old(self).links().set_node(
                var as int,
                prior_to_tail as int,
                SatNode { next: NIL, ..old(self).links().nodes[var as int][prior_to_tail as int] },
            ),
    {
        self.var_lists[var][prior_to_tail].next = NIL;
        proof {
            assert(final(self).links().nodes =~~= old(self).links().set_node(
                var as int,
                prior_to_tail as int,
                SatNode { next: NIL, ..old(self).links().nodes[var as int][prior_to_tail as int] },
            ).nodes);
        }
    }

    /// Links the nodes in slots `prior_node` and `after_node` to each other.
    pub fn connect_neighbors_remove(&mut self, var: usize, prior_node: usize, after_node: usize)
        requires
            var < old(self).var_lists@.len(),
            prior_node < old(self).var_lists@[var as int]@.len(),
            after_node < old(self).var_lists@[var as int]@.len(),
        ensures
            final(self).order == old(self).order,
            final(self).links() == ({
                let l = old(self).links();
                let a = l.set_node(
                    var as int,
                    prior_node as int,
                    SatNode { next: after_node, ..l.nodes[var as int][prior_node as int] },
                );
                a.set_node(
                    var as int,
                    after_node as int,
                    SatNode { prev: prior_node, ..a.nodes[var as int][after_node as int] },
                )
            }),
    {
        self.var_lists[var][prior_node].next = after_node;
        self.var_lists[var][after_node].prev = prior_node;
        proof {
            let l = old(self).links();
            let a = l.set_node(
                var as int,
                prior_node as int,
                SatNode { next: after_node, ..l.nodes[var as int][prior_node as int] },
            );
            assert(final(self).links().nodes =~~= a.set_node(
                var as int,
                after_node as int,
                SatNode { prev: prior_node, ..a.nodes[var as int][after_node as int] },
            ).nodes);
        }
    }

    /// Takes the node in slot `spot_will_be_open` out of the chain of links:
    /// its neighbours are joined to each other, or to the head.
    pub fn update_neighbors_remove(&mut self, var: usize, spot_will_be_open: usize)
        requires
            var < old(self).heads@.len(),
            var < old(self).var_lists@.len(),
            spot_will_be_open < old(self).var_lists@[var as int]@.len(),
            ({
                let nodes = old(self).var_lists@[var as int]@;
                let n = nodes[spot_will_be_open as int];
                &&& n.prev != NIL ==> n.prev < nodes.len()
                &&& n.next != NIL ==> n.next < nodes.len()
                &&& n.prev == NIL && n.next != NIL ==> {
                    &&& old(self).heads@[var as int] < nodes.len()
                    &&& nodes[old(self).heads@[var as int] as int].next < nodes.len()
                }
            }),
        ensures
            final(self).order == old(self).order,
            final(self).links() == old(self).links().unlinked(var as int, spot_will_be_open as int),
    {
        let is_head = self.var_lists[var][spot_will_be_open].prev == NIL;
        let is_tail = self.var_lists[var][spot_will_be_open].next == NIL;
        if is_head && is_tail {
            self.empty_list(var);
        } else if is_head {
            self.remove_head(var);
        } else if is_tail {
            let prior_to_tail = self.var_lists[var][spot_will_be_open].prev;
            self.remove_tail(var, prior_to_tail);
        } else {
            let prior_node = self.var_lists[var][spot_will_be_open].prev;
            let after_node = self.var_lists[var][spot_will_be_open].next;
            self.connect_neighbors_remove(var, prior_node, after_node);
        }
    }

    /// Records that clause `con` of variable `var` sits in no slot.
    pub fn reset_node_being_removed(&mut self, var: usize, con: usize)
        requires
            var < old(self).var_sets@.len(),
            con < old(self).var_sets@[var as int]@.len(),
        ensures
            final(self).order == old(self).order,
            final(self).links() == old(self).links().set_slot_of(var as int, con as int, NIL),
    {
        self.var_sets[var][con] = NIL;
        proof {
            assert(final(self).links().slot_of =~~= old(self).links().set_slot_of(
                var as int,
                con as int,
                NIL,
            ).slot_of);
        }
    }

    /// Takes clause `con`, which the set of `var` holds, out of the list of
    /// `var`; the other clauses keep their order.
    pub fn remove(&mut self, var: usize, con: usize)
        requires
            old(self).wf(),
            var < old(self).num_vars(),
            con < old(self).capacity(var as int),
            old(self).has(var as int, con as int),
        ensures
            final(self).wf(),
            final(self).num_vars() == old(self).num_vars(),
            forall|w: int|
                0 <= w < final(self).num_vars() ==> #[trigger] final(self).capacity(w) == old(
                    self,
                ).capacity(w),
            old(self).list(var as int).contains(con),
            final(self).links() == old(self).links().removed(var as int, con),
            final(self).list(var as int) == old(self).list(var as int).remove(
                old(self).list(var as int).index_of(con),
            ),
            forall|w: int|
                0 <= w < final(self).num_vars() && w != var ==> #[trigger] final(self).list(w)
                    == old(self).list(w),
            forall|w: int, k: int|
                0 <= w < final(self).num_vars() && 0 <= k < final(self).capacity(w) ==> (
                #[trigger] final(self).has(w, k) <==> (old(self).has(w, k) && !(w == var && k
                    == con))),
    {
        proof {
            assert(old(self).links().threaded(var as int, old(self).order@[var as int]));
            lemma_removed(old(self).links(), var as int, old(self).order@[var as int], con);
        }
        let spot_will_be_open = self.var_sets[var][con];
        let ghost ord = old(self).order@[var as int];
        let ghost p = ord.index_of(spot_will_be_open);
        proof {
            assert(0 <= p < ord.len() && ord[p] == spot_will_be_open);
            let n = old(self).links().nodes[var as int][ord[p] as int];
            if p > 0 {
                assert(ord[p - 1] < old(self).capacity(var as int));
            }
            if p < ord.len() - 1 {
                assert(ord[p + 1] < old(self).capacity(var as int));
                let m = old(self).links().nodes[var as int][ord[0] as int];
                assert(ord[1] < old(self).capacity(var as int));
            }
        }
        self.reset_node_being_removed(var, con);
        self.update_open_spots_remove(var, spot_will_be_open);
        self.update_neighbors_remove(var, spot_will_be_open);
        proof {
            self.order = Ghost(old(self).order@.update(var as int, ord.remove(p)));
        }
        proof {
            let a = old(self).links();
            let b = self.links();
            assert(b == a.removed(var as int, con));
            assert forall|w: int| 0 <= w < self.num_vars() implies #[trigger] b.threaded(
                w,
                self.order@[w],
            ) by {
                if w != var {
                    assert(a.threaded(w, old(self).order@[w]));
                    lemma_same_list(a, b, w, self.order@[w]);
                }
            }
            assert forall|w: int| 0 <= w < self.num_vars() && w != var implies #[trigger] self.list(
                w,
            ) == old(self).list(w) by {
                assert(a.threaded(w, old(self).order@[w]));
                lemma_same_list(a, b, w, self.order@[w]);
            }
            assert forall|w: int| 0 <= w < self.num_vars() implies #[trigger] self.capacity(w)
                == old(self).capacity(w) by {
                assert(self.capacity(w) == b.nodes[w].len());
                assert(old(self).capacity(w) == a.nodes[w].len());
            }
            assert forall|w: int, k: int|
                0 <= w < self.num_vars() && 0 <= k < self.capacity(w) implies (
            #[trigger] self.has(w, k) <==> (old(self).has(w, k) && !(w == var && k == con))) by {
                assert(self.has(w, k) == (b.slot_of[w][k] != NIL));
                assert(old(self).has(w, k) == (a.slot_of[w][k] != NIL));
                assert(a.threaded(w, old(self).order@[w]));
            }
        }
    }

    /// Whether the set of `var` holds clause `con`.
    pub fn contains(&mut self, var: usize, con: usize) -> (b: bool)
        requires
            old(self).wf(),
            var < old(self).num_vars(),
            con < old(self).capacity(var as int),
        ensures
            *final(self) == *old(self),
            b == old(self).has(var as int, con as int),
    {
        proof {
            assert(self.links().threaded(var as int, self.order@[var as int]));
        }
        self.var_sets[var][con] != NIL
    }

    /// The number of clauses in the set of `var`.
    pub fn degree(&self, var: usize) -> (d: usize)
        requires
            self.wf(),
            var < self.num_vars(),
        ensures
            d == self.list(var as int).len(),
    {
        proof {
            self.lemma_list_facts(var as int);
        }
        self.var_lists[var].len() - self.open_spots_len[var]
    }

    /// The clauses in the set of `var`, in the order of its list.
    pub fn members(&self, var: usize) -> (r: Vec<usize>)
        requires
            self.wf(),
            var < self.num_vars(),
        ensures
            r@ == self.list(var as int),
    {
        let ghost ord = self.order@[var as int];
        let ghost l = self.links();
        proof {
            assert(l.threaded(var as int, ord));
        }
        let mut r: Vec<usize> = Vec::new();
        let mut slot = self.heads[var];
        let ghost mut i: int = 0;
        while slot != NIL
            invariant
                self.wf(),
                var < self.num_vars(),
                ord == self.order@[var as int],
                l == self.links(),
                l.threaded(var as int, ord),
                0 <= i <= ord.len(),
                slot == (if i < ord.len() {
                    ord[i]
                } else {
                    NIL
                }),
                r@ == self.list(var as int).subrange(0, i),
            decreases ord.len() - i,
        {
            proof {
                assert(ord[i] < l.nodes[var as int].len());
                let n = l.nodes[var as int][ord[i] as int];
                if i + 1 < ord.len() {
                    assert(ord[i + 1] < l.nodes[var as int].len());
                }
            }
            let node = self.var_lists[var][slot];
            r.push(node.val);
            slot = node.next;
            proof {
                assert(r@ =~= self.list(var as int).subrange(0, i + 1));
                i = i + 1;
            }
        }
        proof {
            assert(self.list(var as int).subrange(0, i) =~= self.list(var as int));
        }
        r
    }
}

} // verus!

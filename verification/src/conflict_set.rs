use crate::counting::lemma_distinct_below_missing;
use vstd::prelude::*;

verus! {

/// For each variable, the variables whose assignments took part in a
/// conflict at it: a compact list to walk, and a row of flags to test
/// membership.
#[derive(Debug)]
pub struct ConflictSet {
    pub var_list: Vec<Vec<usize>>,
    pub list_len: Vec<usize>,
    pub var_set: Vec<Vec<bool>>,
}

impl ConflictSet {
    /// The number of variables that the conflict sets are made for.
    pub open spec fn num_vars(&self) -> nat {
        self.list_len@.len()
    }

    /// Whether `w` is in the conflict set of `v`.
    pub open spec fn has(&self, v: int, w: int) -> bool {
        self.var_set@[v]@[w]
    }

    /// The conflict set of `v` in the order in which it was filled.
    pub open spec fn members(&self, v: int) -> Seq<usize> {
        self.var_list@[v]@.subrange(0, self.list_len@[v] as int)
    }

    /// The row of `v` is consistent: the list holds, once each, exactly
    /// the variables that are flagged.
    pub open spec fn row_wf(&self, v: int) -> bool {
        let n = self.num_vars();
        &&& self.var_list@[v]@.len() == n
        &&& self.var_set@[v]@.len() == n
        &&& self.list_len@[v] <= n
        &&& self.members(v).no_duplicates()
        &&& forall|i: int|
            0 <= i < self.list_len@[v] ==> (#[trigger] self.var_list@[v]@[i]) < n && self.has(
                v,
                self.var_list@[v]@[i] as int,
            )
        &&& forall|w: int|
            0 <= w < n && #[trigger] self.has(v, w) ==> self.members(v).contains(w as usize)
    }

    /// Every row is consistent, and there is a row for every variable.
    pub open spec fn wf(&self) -> bool {
        &&& self.num_vars() <= usize::MAX
        &&& self.var_list@.len() == self.num_vars()
        &&& self.var_set@.len() == self.num_vars()
        &&& forall|v: int| 0 <= v < self.num_vars() ==> #[trigger] self.row_wf(v)
    }

    /// Empty conflict sets for `num_vars` variables.
    pub fn new(num_vars: usize) -> (c: Self)
        ensures
            c.wf(),
            c.num_vars() == num_vars,
            forall|v: int, w: int| 0 <= v < num_vars && 0 <= w < num_vars ==> !c.has(v, w),
    {
        let mut var_list: Vec<Vec<usize>> = Vec::new();
        let mut list_len: Vec<usize> = Vec::new();
        let mut var_set: Vec<Vec<bool>> = Vec::new();
        let mut v: usize = 0;
        while v < num_vars
            invariant
                v <= num_vars,
                var_list@.len() == v,
                list_len@.len() == v,
                var_set@.len() == v,
                forall|u: int|
                    0 <= u < v ==> (#[trigger] var_list@[u])@.len() == num_vars && list_len@[u] == 0
                        && var_set@[u]@.len() == num_vars,
                forall|u: int, w: int|
                    0 <= u < v && 0 <= w < num_vars ==> !(#[trigger] var_set@[u]@[w]),
            decreases num_vars - v,
        {
            let mut row: Vec<usize> = Vec::new();
            let mut flags: Vec<bool> = Vec::new();
            let mut w: usize = 0;
            while w < num_vars
                invariant
                    w <= num_vars,
                    row@.len() == w,
                    flags@.len() == w,
                    forall|x: int| 0 <= x < w ==> !(#[trigger] flags@[x]),
                decreases num_vars - w,
            {
                row.push(0);
                flags.push(false);
                w += 1;
            }
            var_list.push(row);
            list_len.push(0);
            var_set.push(flags);
            v += 1;
        }
        let c = ConflictSet { var_list, list_len, var_set };
        proof {
            assert forall|v: int| 0 <= v < c.num_vars() implies #[trigger] c.row_wf(v) by {
                assert(c.var_list@[v]@.len() == num_vars);
                assert(c.members(v) =~= Seq::<usize>::empty());
            }
        }
        c
    }

    /// Whether `w` is in the conflict set of `v`.
    pub fn contains(&self, v: usize, w: usize) -> (b: bool)
        requires
            self.wf(),
            v < self.num_vars(),
            w < self.num_vars(),
        ensures
            b == self.has(v as int, w as int),
    {
        assert(self.row_wf(v as int));
        self.var_set[v][w]
    }

    /// Puts `w` into the conflict set of `v`.
    pub fn add(&mut self, v: usize, w: usize)
        requires
            old(self).wf(),
            v < old(self).num_vars(),
            w < old(self).num_vars(),
        ensures
            final(self).wf(),
            final(self).num_vars() == old(self).num_vars(),
            forall|a: int, b: int|
                0 <= a < final(self).num_vars() && 0 <= b < final(self).num_vars() ==> (
                #[trigger] final(self).has(a, b) <==> (old(self).has(a, b) || (a == v && b == w))),
    {
        assert(self.row_wf(v as int));
        if !self.var_set[v][w] {
            proof {
                let m = self.members(v as int);
                assert forall|i: int| 0 <= i < m.len() implies m[i] < self.num_vars() by {
                    assert(m[i] == self.var_list@[v as int]@[i]);
                }
                if m.contains(w) {
                    let i = choose|i: int| 0 <= i < m.len() && m[i] == w;
                    assert(self.var_list@[v as int]@[i] == w);
                }
                lemma_distinct_below_missing(m, self.num_vars(), w);
            }
            let len = self.list_len[v];
            self.var_list[v][len] = w;
            self.list_len[v] = len + 1;
            self.var_set[v][w] = true;
            proof {
                let n = self.num_vars();
                assert(self.var_list@[v as int]@ =~= old(self).var_list@[v as int]@.update(
                    len as int,
                    w,
                ));
                assert(self.var_set@[v as int]@ =~= old(self).var_set@[v as int]@.update(
                    w as int,
                    true,
                ));
                assert forall|u: int| 0 <= u < n implies #[trigger] self.row_wf(u) by {
                    assert(old(self).row_wf(u));
                    if u == v {
                        let m0 = old(self).members(u);
                        let m1 = self.members(u);
                        assert(m1 =~= m0.push(w));
                        assert forall|i: int| 0 <= i < self.list_len@[u] implies (
                        #[trigger] self.var_list@[u]@[i]) < n && self.has(
                            u,
                            self.var_list@[u]@[i] as int,
                        ) by {
                            if i < len {
                                assert(old(self).var_list@[u]@[i] < n);
                            }
                        }
                        assert forall|i: int, j: int|
                            0 <= i < m1.len() && 0 <= j < m1.len() && i != j implies m1[i]
                            != m1[j] by {
                            if i < m0.len() && j < m0.len() {
                                assert(m0[i] != m0[j]);
                            } else if i < m0.len() {
                                assert(m0[i] == old(self).var_list@[v as int]@[i]);
                            } else {
                                assert(m0[j] == old(self).var_list@[v as int]@[j]);
                            }
                        }
                        assert forall|x: int| 0 <= x < n && #[trigger] self.has(u, x) implies m1.contains(
                            x as usize,
                        ) by {
                            if x == w {
                                assert(m1[len as int] == w);
                            } else {
                                assert(old(self).has(u, x));
                                let i = choose|i: int| 0 <= i < m0.len() && m0[i] == x as usize;
                                assert(m1[i] == x as usize);
                            }
                        }
                    } else {
                        assert(self.var_list@[u] == old(self).var_list@[u]);
                        assert(self.var_set@[u] == old(self).var_set@[u]);
                        assert(self.members(u) =~= old(self).members(u));
                        assert forall|x: int| 0 <= x < n && #[trigger] self.has(u, x) implies self.members(
                            u,
                        ).contains(x as usize) by {
                            assert(old(self).has(u, x));
                        }
                    }
                }
            }
        }
    }

    /// Empties the conflict set of `v`.
    pub fn clear(&mut self, v: usize)
        requires
            old(self).wf(),
            v < old(self).num_vars(),
        ensures
            final(self).wf(),
            final(self).num_vars() == old(self).num_vars(),
            forall|a: int, b: int|
                0 <= a < final(self).num_vars() && 0 <= b < final(self).num_vars() ==> (
                #[trigger] final(self).has(a, b) <==> (old(self).has(a, b) && a != v)),
    {
        assert(self.row_wf(v as int));
        let len = self.list_len[v];
        let mut i: usize = 0;
        while i < len
            invariant
                i <= len,
                len == old(self).list_len@[v as int],
                v < old(self).num_vars(),
                old(self).wf(),
                old(self).row_wf(v as int),
                self.var_list == old(self).var_list,
                self.list_len == old(self).list_len,
                self.var_set@.len() == old(self).var_set@.len(),
                forall|u: int|
                    0 <= u < self.var_set@.len() && u != v ==> #[trigger] self.var_set@[u] == old(
                        self,
                    ).var_set@[u],
                self.var_set@[v as int]@.len() == old(self).var_set@[v as int]@.len(),
                forall|x: int|
                    0 <= x < self.num_vars() ==> (#[trigger] self.has(v as int, x) <==> (old(
                        self,
                    ).has(v as int, x) && !old(self).members(v as int).subrange(
                        0,
                        i as int,
                    ).contains(x as usize))),
            decreases len - i,
        {
            let w = self.var_list[v][i];
            assert(w < self.num_vars());
            let ghost before = *self;
            self.var_set[v][w] = false;
            proof {
                let m = old(self).members(v as int);
                assert forall|x: int| 0 <= x < self.num_vars() implies (#[trigger] self.has(
                    v as int,
                    x,
                ) <==> (old(self).has(v as int, x) && !m.subrange(0, i + 1).contains(x as usize))) by {
                    assert(m.subrange(0, i + 1)[i as int] == w);
                    if m.subrange(0, i as int).contains(x as usize) {
                        let j = choose|j: int|
                            0 <= j < i && m.subrange(0, i as int)[j] == x as usize;
                        assert(m.subrange(0, i + 1)[j] == x as usize);
                    }
                    let m1 = m.subrange(0, i + 1);
                    if m1.contains(x as usize) && x != w {
                        let j = choose|j: int| 0 <= j < m1.len() && m1[j] == x as usize;
                        assert(m.subrange(0, i as int)[j] == x as usize);
                    }
                    assert(before.has(v as int, x) <==> (old(self).has(v as int, x) && !m.subrange(
                        0,
                        i as int,
                    ).contains(x as usize)));
                }
            }
            i += 1;
        }
        let ghost mid = *self;
        self.list_len[v] = 0;
        proof {
            let n = self.num_vars();
            let m = old(self).members(v as int);
            assert(m.subrange(0, len as int) =~= m);
            assert forall|a: int, b: int| 0 <= a < n && 0 <= b < n implies (#[trigger] self.has(a, b)
                <==> (old(self).has(a, b) && a != v)) by {
                assert(old(self).row_wf(a));
                assert(self.has(a, b) == mid.has(a, b));
                if a == v {
                    assert(mid.has(v as int, b) <==> (old(self).has(v as int, b) && !m.contains(
                        b as usize,
                    )));
                    if old(self).has(a, b) {
                        assert(m.contains(b as usize));
                    }
                } else {
                    assert(mid.var_set@[a] == old(self).var_set@[a]);
                }
            }
            assert forall|u: int| 0 <= u < n implies #[trigger] self.row_wf(u) by {
                assert(old(self).row_wf(u));
                if u == v {
                    assert(self.members(u) =~= Seq::<usize>::empty());
                    assert forall|x: int| 0 <= x < n && #[trigger] self.has(u, x) implies self.members(
                        u,
                    ).contains(x as usize) by {
                        assert(!self.has(u, x));
                    }
                } else {
                    assert(self.var_set@[u] == old(self).var_set@[u]);
                    assert(self.members(u) =~= old(self).members(u));
                    assert forall|x: int| 0 <= x < n && #[trigger] self.has(u, x) implies self.members(
                        u,
                    ).contains(x as usize) by {
                        assert(old(self).has(u, x));
                    }
                }
            }
        }
    }

    /// Puts every variable of the conflict set of `from` into that of
    /// `into`.
    pub fn merge(&mut self, from: usize, into: usize)
        requires
            old(self).wf(),
            from < old(self).num_vars(),
            into < old(self).num_vars(),
        ensures
            final(self).wf(),
            final(self).num_vars() == old(self).num_vars(),
            forall|a: int, b: int|
                0 <= a < final(self).num_vars() && 0 <= b < final(self).num_vars() ==> (
                #[trigger] final(self).has(a, b) <==> (old(self).has(a, b) || (a == into && old(
                    self,
                ).has(from as int, b)))),
    {
        if from == into {
            return ;
        }
        assert(self.row_wf(from as int));
        let len = self.list_len[from];
        let mut i: usize = 0;
        while i < len
            invariant
                i <= len,
                from != into,
                from < old(self).num_vars(),
                into < old(self).num_vars(),
                old(self).wf(),
                self.wf(),
                self.num_vars() == old(self).num_vars(),
                len == old(self).list_len@[from as int],
                self.list_len@[from as int] == len,
                self.var_list@[from as int] == old(self).var_list@[from as int],
                forall|a: int, b: int|
                    0 <= a < self.num_vars() && 0 <= b < self.num_vars() ==> (#[trigger] self.has(
                        a,
                        b,
                    ) <==> (old(self).has(a, b) || (a == into && old(self).members(
                        from as int,
                    ).subrange(0, i as int).contains(b as usize)))),
            decreases len - i,
        {
            assert(old(self).row_wf(from as int));
            let w = self.var_list[from][i];
            let ghost before = *self;
            self.add_other(into, w, from);
            proof {
                let m = old(self).members(from as int);
                assert forall|a: int, b: int|
                    0 <= a < self.num_vars() && 0 <= b < self.num_vars() implies (
                #[trigger] self.has(a, b) <==> (old(self).has(a, b) || (a == into && m.subrange(
                    0,
                    i + 1,
                ).contains(b as usize)))) by {
                    assert(m.subrange(0, i + 1)[i as int] == w);
                    assert(before.has(a, b) <==> (old(self).has(a, b) || (a == into && m.subrange(
                        0,
                        i as int,
                    ).contains(b as usize))));
                    if m.subrange(0, i as int).contains(b as usize) {
                        let j = choose|j: int|
                            0 <= j < i && m.subrange(0, i as int)[j] == b as usize;
                        assert(m.subrange(0, i + 1)[j] == b as usize);
                    }
                    let m1 = m.subrange(0, i + 1);
                    if m1.contains(b as usize) && b != w {
                        let j = choose|j: int| 0 <= j < m1.len() && m1[j] == b as usize;
                        assert(m.subrange(0, i as int)[j] == b as usize);
                    }
                }
            }
            i += 1;
        }
        proof {
            let m = old(self).members(from as int);
            assert(m.subrange(0, len as int) =~= m);
            assert forall|a: int, b: int|
                0 <= a < self.num_vars() && 0 <= b < self.num_vars() implies (#[trigger] self.has(
                a,
                b,
            ) <==> (old(self).has(a, b) || (a == into && old(self).has(from as int, b)))) by {
                assert(old(self).row_wf(from as int));
                if m.contains(b as usize) {
                    let j = choose|j: int| 0 <= j < m.len() && m[j] == b as usize;
                    assert(old(self).var_list@[from as int]@[j] == b as usize);
                }
            }
        }
    }

    /// `add`, which in addition leaves the list of another variable as it
    /// is.
    fn add_other(&mut self, v: usize, w: usize, other: usize)
        requires
            old(self).wf(),
            v < old(self).num_vars(),
            w < old(self).num_vars(),
            other < old(self).num_vars(),
            other != v,
        ensures
            final(self).wf(),
            final(self).num_vars() == old(self).num_vars(),
            final(self).list_len@[other as int] == old(self).list_len@[other as int],
            final(self).var_list@[other as int] == old(self).var_list@[other as int],
            forall|a: int, b: int|
                0 <= a < final(self).num_vars() && 0 <= b < final(self).num_vars() ==> (
                #[trigger] final(self).has(a, b) <==> (old(self).has(a, b) || (a == v && b == w))),
    {
        assert(self.row_wf(v as int));
        if !self.var_set[v][w] {
            proof {
                let m = self.members(v as int);
                assert forall|i: int| 0 <= i < m.len() implies m[i] < self.num_vars() by {
                    assert(m[i] == self.var_list@[v as int]@[i]);
                }
                if m.contains(w) {
                    let i = choose|i: int| 0 <= i < m.len() && m[i] == w;
                    assert(self.var_list@[v as int]@[i] == w);
                }
                lemma_distinct_below_missing(m, self.num_vars(), w);
            }
            let len = self.list_len[v];
            self.var_list[v][len] = w;
            self.list_len[v] = len + 1;
            self.var_set[v][w] = true;
            proof {
                let n = self.num_vars();
                assert(self.var_list@[v as int]@ =~= old(self).var_list@[v as int]@.update(
                    len as int,
                    w,
                ));
                assert(self.var_set@[v as int]@ =~= old(self).var_set@[v as int]@.update(
                    w as int,
                    true,
                ));
                assert forall|u: int| 0 <= u < n implies #[trigger] self.row_wf(u) by {
                    assert(old(self).row_wf(u));
                    if u == v {
                        let m0 = old(self).members(u);
                        let m1 = self.members(u);
                        assert(m1 =~= m0.push(w));
                        assert forall|i: int| 0 <= i < self.list_len@[u] implies (
                        #[trigger] self.var_list@[u]@[i]) < n && self.has(
                            u,
                            self.var_list@[u]@[i] as int,
                        ) by {
                            if i < len {
                                assert(old(self).var_list@[u]@[i] < n);
                            }
                        }
                        assert forall|i: int, j: int|
                            0 <= i < m1.len() && 0 <= j < m1.len() && i != j implies m1[i]
                            != m1[j] by {
                            if i < m0.len() && j < m0.len() {
                                assert(m0[i] != m0[j]);
                            } else if i < m0.len() {
                                assert(m0[i] == old(self).var_list@[v as int]@[i]);
                            } else {
                                assert(m0[j] == old(self).var_list@[v as int]@[j]);
                            }
                        }
                        assert forall|x: int| 0 <= x < n && #[trigger] self.has(u, x) implies m1.contains(
                            x as usize,
                        ) by {
                            if x == w {
                                assert(m1[len as int] == w);
                            } else {
                                assert(old(self).has(u, x));
                                let i = choose|i: int| 0 <= i < m0.len() && m0[i] == x as usize;
                                assert(m1[i] == x as usize);
                            }
                        }
                    } else {
                        assert(self.var_list@[u] == old(self).var_list@[u]);
                        assert(self.var_set@[u] == old(self).var_set@[u]);
                        assert(self.members(u) =~= old(self).members(u));
                        assert forall|x: int| 0 <= x < n && #[trigger] self.has(u, x) implies self.members(
                            u,
                        ).contains(x as usize) by {
                            assert(old(self).has(u, x));
                        }
                    }
                }
            }
        }
    }
}

} // verus!

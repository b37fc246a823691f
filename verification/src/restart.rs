use std::collections::VecDeque;
use vstd::prelude::*;

verus! {

/// The sum of the entries.
pub open spec fn total(s: Seq<usize>) -> nat
    decreases s.len(),
{
    if s.len() == 0 {
        0
    } else {
        total(s.drop_last()) + s.last() as nat
    }
}

/// The sum of machine numbers is at most their count times the largest.
pub proof fn lemma_total_bound(s: Seq<usize>)
    ensures
        total(s) <= s.len() * usize::MAX,
    decreases s.len(),
{
    if s.len() > 0 {
        lemma_total_bound(s.drop_last());
    }
}

/// Without its first entry a sequence sums to that much less.
pub proof fn lemma_total_drop_first(s: Seq<usize>)
    requires
        s.len() > 0,
    ensures
        total(s.drop_first()) == total(s) - s[0],
    decreases s.len(),
{
    if s.len() == 1 {
        assert(s.drop_first() =~= Seq::<usize>::empty());
        assert(s.drop_last() =~= Seq::<usize>::empty());
    } else {
        lemma_total_drop_first(s.drop_last());
        assert(s.drop_first().drop_last() =~= s.drop_last().drop_first());
    }
}

/// What the window holds after `x` is recorded in a window of at most
/// `capacity` entries: the oldest entry makes room when it is full.
pub open spec fn recorded(w: Seq<usize>, capacity: nat, x: usize) -> Seq<usize> {
    if capacity == 0 {
        w
    } else if w.len() >= capacity {
        w.drop_first().push(x)
    } else {
        w.push(x)
    }
}

/// The restart criterion: at least twenty clauses were learned since the
/// last restart, and the present trail is shorter than the mean of the
/// window.
pub open spec fn restart_due(w: Seq<usize>, trail_len: usize, learned_since: nat) -> bool {
    learned_since >= 20 && trail_len * w.len() < total(w)
}

/// The trail lengths at the latest conflicts, oldest first, with their sum.
#[derive(Debug)]
pub struct TrailWindow {
    pub entries: VecDeque<usize>,
    pub capacity: usize,
    pub sum: u128,
}

impl TrailWindow {
    /// The window holds no more entries than its capacity, and `sum` is their
    /// sum.
    pub open spec fn wf(&self) -> bool {
        &&& self.entries@.len() <= self.capacity
        &&& self.sum == total(self.entries@)
    }

    /// An empty window for the latest `capacity` conflicts.
    pub fn new(capacity: usize) -> (w: Self)
        ensures
            w.wf(),
            w.capacity == capacity,
            w.entries@ == Seq::<usize>::empty(),
    {
        TrailWindow { entries: VecDeque::new(), capacity, sum: 0 }
    }

    /// Records the trail length at a conflict.
    pub fn record(&mut self, x: usize)
        requires
            old(self).wf(),
        ensures
            final(self).wf(),
            final(self).capacity == old(self).capacity,
            final(self).entries@ == recorded(old(self).entries@, old(self).capacity as nat, x),
    {
        if self.capacity == 0 {
            return ;
        }
        if self.entries.len() >= self.capacity {
            let gone = self.entries.pop_front();
            proof {
                lemma_total_drop_first(old(self).entries@);
                assert(old(self).entries@.subrange(1, old(self).entries@.len() as int) =~= old(
                    self,
                ).entries@.drop_first());
            }
            match gone {
                Some(g) => {
                    self.sum = self.sum - g as u128;
                },
                None => {},
            }
        }
        proof {
            lemma_total_bound(self.entries@);
            assert(self.entries@.len() * usize::MAX <= usize::MAX * usize::MAX) by (nonlinear_arith)
                requires
                    self.entries@.len() <= usize::MAX,
            ;
            assert(self.entries@.push(x).drop_last() =~= self.entries@);
        }
        self.entries.push_back(x);
        self.sum = self.sum + x as u128;
    }

    /// Whether `trail_len` is below the mean of the window.
    pub fn below_mean(&self, trail_len: usize) -> (b: bool)
        requires
            self.wf(),
        ensures
            b == (trail_len * self.entries@.len() < total(self.entries@)),
    {
        let n = self.entries.len();
        proof {
            assert(trail_len * n <= usize::MAX * usize::MAX) by (nonlinear_arith)
                requires
                    trail_len <= usize::MAX,
                    n <= usize::MAX,
            ;
        }
        (trail_len as u128) * (n as u128) < self.sum
    }
}

} // verus!

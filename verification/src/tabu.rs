//! Tabu memory: per-vertex "last touched" timestamps with a tenure window.
//!
//! Vertex `u` is tabu exactly while `tabu[u] + tenure > iter`.  A freshly
//! built (or reset) memory stores `-tenure` everywhere, so with the counter
//! starting at 1 no vertex is tabu until it is touched.

use vstd::prelude::*;

verus! {

/// Largest tenure the memory accepts: 2^32.
pub const TENURE_MAX: i64 = 0x100000000;

/// Largest value of the iteration counter: 2^62.
pub const ITER_MAX: i64 = 0x4000000000000000;

pub struct TabuList {
    /// Global iteration counter, starting at 1.
    pub iter: i64,
    /// How many iterations a touched vertex stays tabu.
    pub tenure: i64,
    /// Per-vertex timestamp of the last touch (`-tenure` if never touched).
    pub tabu: Vec<i64>,
}

/// Vertex `u` is currently forbidden.
pub open spec fn is_tabu_spec(t: TabuList, u: int) -> bool {
    t.tabu@[u] + t.tenure > t.iter
}

impl TabuList {
    /// Counter and timestamps stay in ranges where the window test cannot
    /// overflow.
    pub open spec fn wf(self) -> bool {
        &&& 0 <= self.tenure <= TENURE_MAX
        &&& 1 <= self.iter <= ITER_MAX
        &&& forall|u: int|
            0 <= u < self.tabu@.len() ==> -self.tenure <= #[trigger] self.tabu@[u] <= self.iter
    }

    /// A fresh memory over `sz` vertices: counter at 1, nothing tabu.
    pub fn new(sz: usize, tenure: usize) -> (t: TabuList)
        requires
            tenure <= TENURE_MAX,
        ensures
            t.wf(),
            t.iter == 1,
            t.tenure == tenure,
            t.tabu@.len() == sz,
            forall|u: int| 0 <= u < sz ==> !is_tabu_spec(t, u),
    {
        let tenure = tenure as i64;
        let init: i64 = -tenure;
        TabuList { iter: 1, tenure, tabu: vec![init; sz] }
    }

    pub fn is_tabu(&self, u: usize) -> (r: bool)
        requires
            self.wf(),
            u < self.tabu@.len(),
        ensures
            r == is_tabu_spec(*self, u as int),
    {
        self.tabu[u] + self.tenure > self.iter
    }

    /// Touch vertex `u`: it becomes tabu for the next `tenure` iterations.
    pub fn add(&mut self, u: usize)
        requires
            old(self).wf(),
            u < old(self).tabu@.len(),
        ensures
            final(self).wf(),
            final(self).tabu@ == old(self).tabu@.update(u as int, old(self).iter),
            final(self).iter == old(self).iter,
            final(self).tenure == old(self).tenure,
    {
        let it = self.iter;
        self.tabu[u] = it;
    }

    /// Clear vertex `u`'s protection.
    pub fn remove(&mut self, u: usize)
        requires
            old(self).wf(),
            u < old(self).tabu@.len(),
        ensures
            final(self).wf(),
            final(self).tabu@ == old(self).tabu@.update(u as int, (0 - old(self).tenure) as i64),
            final(self).iter == old(self).iter,
            final(self).tenure == old(self).tenure,
            !is_tabu_spec(*final(self), u as int),
    {
        let t = self.tenure;
        self.tabu[u] = -t;
    }

    /// Advance the global iteration counter.
    pub fn advance_iter(&mut self)
        requires
            old(self).wf(),
            old(self).iter < ITER_MAX,
        ensures
            final(self).wf(),
            final(self).iter == old(self).iter + 1,
            final(self).tenure == old(self).tenure,
            final(self).tabu@ == old(self).tabu@,
    {
        self.iter = self.iter + 1;
    }

    /// Forget all touches: back to a fresh memory of the same size and tenure.
    pub fn reset(&mut self)
        requires
            old(self).wf(),
        ensures
            final(self).wf(),
            final(self).iter == 1,
            final(self).tenure == old(self).tenure,
            final(self).tabu@.len() == old(self).tabu@.len(),
            forall|u: int| 0 <= u < final(self).tabu@.len() ==> !is_tabu_spec(*final(self), u),
    {
        let init: i64 = -self.tenure;
        let sz = self.tabu.len();
        self.iter = 1;
        self.tabu = vec![init; sz];
    }

    /// The tabu window, exactly: a vertex whose last touch was recorded at
    /// counter value `t` is tabu at every counter value below `t + tenure`
    /// and free at every counter value from `t + tenure` on.  Since the
    /// engine touches a vertex and then advances the counter, the vertex is
    /// forbidden for precisely the `tenure` iterations following the touch.
    pub proof fn lemma_tabu_window(self, u: int, t: i64)
        requires
            self.wf(),
            0 <= u < self.tabu@.len(),
            self.tabu@[u] == t,
        ensures
            is_tabu_spec(self, u) <==> self.iter < t + self.tenure,
            self.iter >= t + self.tenure ==> !is_tabu_spec(self, u),
    {
    }
}

} // verus!

//! The candidate solution: a vertex set with incrementally maintained
//! bookkeeping.
//!
//! The well-formedness predicate `wf` ties every field to the mathematical
//! model: `total_cost` is the sum over all member pairs, `cost[v]` is the sum
//! of distances from `v` to every member (for a member that is its removal
//! cost, for an outside vertex its insertion cost), `has` is the membership
//! bitmap and `len` the member count.  `add` and `remove` are the only
//! mutation primitives and each preserves `wf` while doing O(n) work.

use vstd::prelude::*;
use crate::instance::{Instance, EDGE_MAX, MAX_N};
use crate::ratio::{ratio_gr, NUM_MAX, DEN_MAX};
use crate::sums::{
    pair_sum, row_sum, lemma_pair_sum_bound, lemma_pair_sum_nonneg, lemma_pair_sum_push,
    lemma_pair_sum_remove, lemma_row_sum_bound, lemma_row_sum_nonneg, lemma_row_sum_push,
    lemma_row_sum_remove, lemma_members_in_range_len, valid_members,
};

verus! {

pub struct Solution {
    /// The members, in insertion order, without duplicates.
    pub v: Vec<usize>,
    /// Number of members.
    pub len: usize,
    /// Sum of distances over all unordered member pairs.
    pub total_cost: u128,
    /// For every vertex of the instance, the sum of its distances to all members.
    pub cost: Vec<u128>,
    /// Membership bitmap.
    pub has: Vec<bool>,
}

/// Numerator of the objective value (the total pairwise cost).
pub open spec fn obj_num(s: Solution) -> int {
    s.total_cost as int
}

/// Denominator of the objective value; an empty solution has objective 0/1.
pub open spec fn obj_den(s: Solution) -> int {
    if s.len == 0 {
        1
    } else {
        s.len as int
    }
}

/// Exact comparison of two objective values.
pub open spec fn obj_gt(a: Solution, b: Solution) -> bool {
    obj_num(a) * obj_den(b) > obj_num(b) * obj_den(a)
}

/// The operands of an objective comparison fit the exact comparators.
pub open spec fn cmp_ok(s: Solution) -> bool {
    &&& s.total_cost <= NUM_MAX
    &&& (s.len as u128) <= DEN_MAX
}

/// Two solutions carry exactly the same state.
pub open spec fn same_state(a: Solution, b: Solution) -> bool {
    &&& a.v@ == b.v@
    &&& a.len == b.len
    &&& a.total_cost == b.total_cost
    &&& a.cost@ == b.cost@
    &&& a.has@ == b.has@
}

impl Solution {
    /// Every field agrees with the mathematical model of the member list.
    pub open spec fn wf(self, inst: Instance) -> bool {
        &&& inst.wf()
        &&& self.len == self.v@.len()
        &&& valid_members(self.v@, inst.n as int)
        &&& self.cost@.len() == inst.n
        &&& self.has@.len() == inst.n
        &&& forall|u: int|
            0 <= u < inst.n ==> #[trigger] self.has@[u] == self.v@.contains(u as usize)
        &&& self.total_cost as int == pair_sum(inst.dm(), self.v@)
        &&& forall|u: int|
            0 <= u < inst.n ==> #[trigger] self.cost@[u] as int == row_sum(inst.dm(), u, self.v@)
    }

    /// An empty solution over `inst`.
    pub fn new(inst: &Instance) -> (s: Solution)
        requires
            inst.wf(),
        ensures
            s.wf(*inst),
            s.v@ == Seq::<usize>::empty(),
            s.len == 0,
            s.total_cost == 0,
    {
        let s = Solution {
            v: Vec::new(),
            len: 0,
            total_cost: 0,
            cost: vec![0u128; inst.n],
            has: vec![false; inst.n],
        };
        proof {
            assert forall|u: int| 0 <= u < inst.n implies
                #[trigger] s.cost@[u] as int == row_sum(inst.dm(), u, s.v@) by {
                reveal_with_fuel(row_sum, 1);
            }
            assert(s.v@ =~= Seq::<usize>::empty());
        }
        s
    }

    /// The objective value, as an exact rational `(numerator, denominator)`:
    /// the total pairwise cost over the member count, or `0 / 1` when empty.
    pub fn obj(&self) -> (r: (u128, usize))
        ensures
            r.0 as int == obj_num(*self),
            r.1 as int == obj_den(*self),
    {
        if self.len == 0 {
            (self.total_cost, 1)
        } else {
            (self.total_cost, self.len)
        }
    }

    /// A well-formed solution's objective operands are within the exact
    /// comparison range.
    pub proof fn lemma_cmp_ok(self, inst: Instance)
        requires
            self.wf(inst),
        ensures
            cmp_ok(self),
            self.len <= inst.n,
            self.total_cost as int <= (MAX_N * MAX_N) as int * (EDGE_MAX as int),
    {
        lemma_members_in_range_len(self.v@, inst.n as int);
        lemma_pair_sum_bound(inst.dm(), inst.n as int, EDGE_MAX as int, self.v@);
        assert(
            self.v@.len() * self.v@.len() * (EDGE_MAX as int)
                <= (MAX_N * MAX_N) as int * (EDGE_MAX as int)
        ) by (nonlinear_arith)
            requires 0 <= self.v@.len() <= MAX_N,
        ;
    }

    /// Incremental consistency: in any well-formed solution the incremental
    /// fields equal their brute-force definitions — the total cost is the sum
    /// over all member pairs and each vertex's cost is the sum of its
    /// distances to the members.
    pub proof fn lemma_incremental_consistency(self, inst: Instance)
        requires
            self.wf(inst),
        ensures
            self.total_cost as int == pair_sum(inst.dm(), self.v@),
            forall|u: int|
                0 <= u < inst.n ==> #[trigger] self.cost@[u] as int
                    == row_sum(inst.dm(), u, self.v@),
    {
    }

    /// Objective bounds: the objective is never negative, and it is zero
    /// whenever at most one vertex is selected.  With strictly positive
    /// off-diagonal distances the converse holds as well: two or more
    /// members force a positive objective.
    pub proof fn lemma_objective_bounds(self, inst: Instance)
        requires
            self.wf(inst),
        ensures
            obj_num(self) >= 0,
            obj_den(self) >= 1,
            self.len <= 1 ==> obj_num(self) == 0,
            (self.len >= 2 && forall|i: int, j: int|
                0 <= i < inst.n && 0 <= j < inst.n && i != j ==> #[trigger] inst.dm()[i][j] > 0)
                ==> obj_num(self) > 0,
    {
        let d = inst.dm();
        let m = self.v@;
        if self.len <= 1 {
            if m.len() == 1 {
                assert(pair_sum(d, m) == pair_sum(d, m.drop_last())
                    + row_sum(d, m.last() as int, m.drop_last()));
                assert(m.drop_last().len() == 0);
            }
        }
        if self.len >= 2 && (forall|i: int, j: int|
            0 <= i < inst.n && 0 <= j < inst.n && i != j ==> #[trigger] d[i][j] > 0) {
            let m0 = m.drop_last();
            let a = m.last();
            let b = m0.last();
            assert(m[m.len() - 1] == a && m[m.len() - 2] == b);
            assert(a != b);
            lemma_pair_sum_nonneg(d, m0);
            lemma_row_sum_nonneg(d, a as int, m0.drop_last());
            assert(row_sum(d, a as int, m0) == row_sum(d, a as int, m0.drop_last())
                + d[a as int][b as int]);
            assert(d[a as int][b as int] > 0);
        }
    }

    /// Bookkeeping is a function of the member list alone: two well-formed
    /// solutions over the same instance with the same members agree on every
    /// field.  In particular, `recompute_from_v` applied twice in a row
    /// yields exactly the state that one application yields.
    pub proof fn lemma_state_determined_by_members(a: Solution, b: Solution, inst: Instance)
        requires
            a.wf(inst),
            b.wf(inst),
            a.v@ == b.v@,
        ensures
            same_state(a, b),
    {
        assert(a.cost@ =~= b.cost@);
        assert(a.has@ =~= b.has@);
    }

    /// Whatever strictly beats any solution has a positive total: objective
    /// values are never negative, so a strict win cannot be had at zero.
    pub proof fn lemma_strictly_better_is_positive(a: Solution, b: Solution)
        requires
            obj_gt(b, a),
        ensures
            b.total_cost > 0,
    {
        assert(obj_num(a) * obj_den(b) >= 0) by (nonlinear_arith)
            requires obj_num(a) >= 0, obj_den(b) >= 1,
        ;
        assert(obj_num(b) > 0) by (nonlinear_arith)
            requires
                obj_num(b) * obj_den(a) > obj_num(a) * obj_den(b),
                obj_num(a) * obj_den(b) >= 0,
                obj_den(a) >= 1,
        ;
    }

    /// Add vertex `u` to the solution, updating all bookkeeping in O(n).
    #[verifier::loop_isolation(false)]
    pub fn add(&mut self, inst: &Instance, u: usize)
        requires
            old(self).wf(*inst),
            u < inst.n,
            !old(self).has@[u as int],
        ensures
            final(self).wf(*inst),
            final(self).v@ == old(self).v@.push(u),
            final(self).len == old(self).len + 1,
            final(self).total_cost as int
                == old(self).total_cost as int + old(self).cost@[u as int] as int,
            final(self).has@ == old(self).has@.update(u as int, true),
            forall|w: int|
                0 <= w < inst.n ==> #[trigger] final(self).cost@[w] as int
                    == old(self).cost@[w] as int + inst.dm()[u as int][w],
    {
        let ghost d = inst.dm();
        let ghost m = old(self).v@;
        let ghost m1 = m.push(u);
        proof {
            assert(!m.contains(u));
            assert(m1.no_duplicates()) by {
                assert forall|i: int, j: int|
                    0 <= i < m1.len() && 0 <= j < m1.len() && i != j implies m1[i] != m1[j] by {
                    if i < m.len() && j < m.len() {
                        assert(m[i] != m[j]);
                    } else if i < m.len() {
                        assert(m1[j] == u);
                        if m[i] == u {
                            assert(m.contains(u));
                        }
                    } else {
                        assert(m1[i] == u);
                        if m[j] == u {
                            assert(m.contains(u));
                        }
                    }
                }
            }
            lemma_members_in_range_len(m1, inst.n as int);
            lemma_members_in_range_len(m, inst.n as int);
            lemma_pair_sum_bound(d, inst.n as int, EDGE_MAX as int, m);
            lemma_row_sum_bound(d, inst.n as int, EDGE_MAX as int, u as int, m);
            assert(
                m.len() * m.len() * (EDGE_MAX as int) + m.len() * (EDGE_MAX as int)
                    < u128::MAX
            ) by (nonlinear_arith)
                requires 0 <= m.len() <= MAX_N,
            ;
            lemma_pair_sum_push(d, m, u);
        }
        self.v.push(u);
        self.len = self.len + 1;
        self.has[u] = true;
        self.total_cost = self.total_cost + self.cost[u];
        let n = inst.n;
        let mut w: usize = 0;
        while w < n
            invariant
                0 <= w <= n,
                self.v@ == m1,
                self.len == m1.len(),
                self.has@ == old(self).has@.update(u as int, true),
                self.total_cost as int
                    == old(self).total_cost as int + old(self).cost@[u as int] as int,
                self.cost@.len() == n,
                forall|q: int|
                    0 <= q < w ==> #[trigger] self.cost@[q] as int
                        == old(self).cost@[q] as int + d[u as int][q],
                forall|q: int| w <= q < n ==> #[trigger] self.cost@[q] == old(self).cost@[q],
            decreases n - w,
        {
            proof {
                assert(old(self).cost@[w as int] as int == row_sum(d, w as int, m));
                lemma_row_sum_bound(d, inst.n as int, EDGE_MAX as int, w as int, m);
                assert(
                    m.len() * (EDGE_MAX as int) + (EDGE_MAX as int) < u128::MAX
                ) by (nonlinear_arith)
                    requires 0 <= m.len() <= MAX_N,
                ;
            }
            let dw = inst.dist(u, w);
            self.cost[w] = self.cost[w] + (dw as u128);
            w = w + 1;
        }
        proof {
            assert(self.v@ == m1);
            assert(self.has@ =~= old(self).has@.update(u as int, true));
            assert forall|q: int| 0 <= q < inst.n implies
                #[trigger] self.has@[q] == m1.contains(q as usize) by {
                if q == u as int {
                    assert(m1[m.len() as int] == u);
                    assert(m1.contains(u));
                } else {
                    if m.contains(q as usize) {
                        let i = choose|i: int| 0 <= i < m.len() && m[i] == q as usize;
                        assert(m1[i] == q as usize);
                        assert(m1.contains(q as usize));
                    }
                    if m1.contains(q as usize) {
                        let i = choose|i: int| 0 <= i < m1.len() && m1[i] == q as usize;
                        assert(i < m.len());
                        assert(m.contains(q as usize));
                    }
                }
            }
            assert forall|q: int| 0 <= q < inst.n implies
                #[trigger] self.cost@[q] as int == row_sum(d, q, m1) by {
                lemma_row_sum_push(d, q, m, u);
                assert(d[q][u as int] == d[u as int][q]);
            }
        }
    }

    /// Remove member `u` from the solution, updating all bookkeeping in O(n).
    #[verifier::loop_isolation(false)]
    pub fn remove(&mut self, inst: &Instance, u: usize)
        requires
            old(self).wf(*inst),
            u < inst.n,
            old(self).has@[u as int],
        ensures
            final(self).wf(*inst),
            final(self).len == old(self).len - 1,
            forall|x: usize|
                #[trigger] final(self).v@.contains(x)
                    <==> (old(self).v@.contains(x) && x != u),
            final(self).total_cost as int
                == old(self).total_cost as int - old(self).cost@[u as int] as int,
            final(self).has@ == old(self).has@.update(u as int, false),
            forall|w: int|
                0 <= w < inst.n ==> #[trigger] final(self).cost@[w] as int
                    == old(self).cost@[w] as int - inst.dm()[u as int][w],
    {
        let ghost d = inst.dm();
        let ghost m = old(self).v@;
        assert(m.contains(u));

        // locate u in the member list
        let mut k: usize = 0;
        while k < self.v.len() && self.v[k] != u
            invariant
                0 <= k <= self.v@.len(),
                forall|q: int| 0 <= q < k ==> #[trigger] self.v@[q] != u,
            decreases self.v@.len() - k,
        {
            k = k + 1;
        }
        proof {
            if k == self.v@.len() {
                let i = choose|i: int| 0 <= i < m.len() && m[i] == u;
                assert(false);
            }
            assert(m[k as int] == u);
        }
        let ghost m1 = m.remove(k as int);
        proof {
            assert(m1.no_duplicates()) by {
                assert forall|i: int, j: int|
                    0 <= i < m1.len() && 0 <= j < m1.len() && i != j implies m1[i] != m1[j] by {
                    let i0 = if i < k as int { i } else { i + 1 };
                    let j0 = if j < k as int { j } else { j + 1 };
                    assert(m1[i] == m[i0] && m1[j] == m[j0]);
                    assert(m[i0] != m[j0]);
                }
            }
            lemma_pair_sum_remove(d, inst.n as int, EDGE_MAX as int, m, k as int);
            lemma_row_sum_remove(d, u as int, m, k as int);
            assert(d[u as int][m[k as int] as int] == 0);
            // so row_sum(d, u, m1) == row_sum(d, u, m) == old cost[u]
            lemma_pair_sum_nonneg(d, m1);
        }
        self.v.remove(k);
        self.len = self.len - 1;
        self.has[u] = false;
        self.total_cost = self.total_cost - self.cost[u];
        let n = inst.n;
        let mut w: usize = 0;
        while w < n
            invariant
                0 <= w <= n,
                self.v@ == m1,
                self.len == m1.len(),
                self.has@ == old(self).has@.update(u as int, false),
                self.total_cost as int
                    == old(self).total_cost as int - old(self).cost@[u as int] as int,
                self.cost@.len() == n,
                forall|q: int|
                    0 <= q < w ==> #[trigger] self.cost@[q] as int
                        == old(self).cost@[q] as int - d[u as int][q],
                forall|q: int| w <= q < n ==> #[trigger] self.cost@[q] == old(self).cost@[q],
            decreases n - w,
        {
            proof {
                assert(old(self).cost@[w as int] as int == row_sum(d, w as int, m));
                lemma_row_sum_remove(d, w as int, m, k as int);
                lemma_row_sum_nonneg(d, w as int, m1);
                assert(d[w as int][u as int] == d[u as int][w as int]);
            }
            let dw = inst.dist(u, w);
            self.cost[w] = self.cost[w] - (dw as u128);
            w = w + 1;
        }
        proof {
            assert(self.v@ == m1);
            assert(self.has@ =~= old(self).has@.update(u as int, false));
            assert forall|x: usize| #[trigger] m1.contains(x)
                <==> (m.contains(x) && x != u) by {
                if m1.contains(x) {
                    let i = choose|i: int| 0 <= i < m1.len() && m1[i] == x;
                    let i0 = if i < k as int { i } else { i + 1 };
                    assert(m[i0] == x);
                    assert(m.contains(x));
                    if x == u {
                        assert(m[i0] == m[k as int] && i0 != k as int);
                    }
                }
                if m.contains(x) && x != u {
                    let i = choose|i: int| 0 <= i < m.len() && m[i] == x;
                    assert(i != k as int);
                    let i1 = if i < k as int { i } else { i - 1 };
                    assert(m1[i1] == x);
                    assert(m1.contains(x));
                }
            }
            assert forall|q: int| 0 <= q < inst.n implies
                #[trigger] self.has@[q] == m1.contains(q as usize) by {}
            assert forall|q: int| 0 <= q < inst.n implies
                #[trigger] self.cost@[q] as int == row_sum(d, q, m1) by {
                lemma_row_sum_remove(d, q, m, k as int);
                assert(d[q][u as int] == d[u as int][q]);
            }
        }
    }

    /// Rebuild `len`, `total_cost`, `cost` and `has` from the member list
    /// alone.  Used after bulk edits of `v`; applying it a second time
    /// changes nothing (`lemma_state_determined_by_members`).
    pub fn recompute_from_v(&mut self, inst: &Instance)
        requires
            inst.wf(),
            valid_members(old(self).v@, inst.n as int),
        ensures
            final(self).wf(*inst),
            final(self).v@ == old(self).v@,
    {
        let mut t = Solution::new(inst);
        let mut idx: usize = 0;
        while idx < self.v.len()
            invariant
                inst.wf(),
                valid_members(self.v@, inst.n as int),
                self.v@ == old(self).v@,
                0 <= idx <= self.v@.len(),
                t.wf(*inst),
                t.v@ == self.v@.take(idx as int),
            decreases self.v@.len() - idx,
        {
            let u = self.v[idx];
            proof {
                assert(self.v@[idx as int] == u);
                if t.v@.contains(u) {
                    let i = choose|i: int| 0 <= i < t.v@.len() && t.v@[i] == u;
                    assert(self.v@[i] == u);
                    assert(self.v@[i] != self.v@[idx as int]);
                }
                assert(!t.has@[u as int]);
            }
            t.add(inst, u);
            proof {
                assert(t.v@ =~= self.v@.take(idx + 1));
            }
            idx = idx + 1;
        }
        proof {
            assert(t.v@ =~= self.v@);
        }
        self.len = t.len;
        self.total_cost = t.total_cost;
        self.cost = t.cost;
        self.has = t.has;
        proof {
            assert(pair_sum(inst.dm(), self.v@) == pair_sum(inst.dm(), t.v@));
        }
    }

    /// Exact comparison: does `self` have a strictly better objective than `s`?
    pub fn better(&self, s: &Solution) -> (r: bool)
        requires
            cmp_ok(*self),
            cmp_ok(*s),
        ensures
            r == obj_gt(*self, *s),
    {
        let (an, ad) = self.obj();
        let (bn, bd) = s.obj();
        ratio_gr(an, ad as u128, bn, bd as u128)
    }

    /// Is `self` strictly better than the objective `num / den`?
    pub fn fbetter(&self, num: u128, den: usize) -> (r: bool)
        requires
            cmp_ok(*self),
            num <= NUM_MAX,
            1 <= den,
            (den as u128) <= DEN_MAX,
        ensures
            r == (obj_num(*self) * den > num * obj_den(*self)),
    {
        let (an, ad) = self.obj();
        ratio_gr(an, ad as u128, num, den as u128)
    }

    /// Is `self` strictly worse than the objective `num / den`?
    pub fn fworse(&self, num: u128, den: usize) -> (r: bool)
        requires
            cmp_ok(*self),
            num <= NUM_MAX,
            1 <= den,
            (den as u128) <= DEN_MAX,
        ensures
            r == (num * obj_den(*self) > obj_num(*self) * den),
    {
        let (an, ad) = self.obj();
        ratio_gr(num, den as u128, an, ad as u128)
    }

    /// An exact copy of this solution.
    pub fn duplicate(&self) -> (r: Solution)
        ensures
            same_state(r, *self),
    {
        Solution {
            v: copy_vec(&self.v),
            len: self.len,
            total_cost: self.total_cost,
            cost: copy_vec(&self.cost),
            has: copy_vec(&self.has),
        }
    }

    /// Replace `self` by a copy of `s` when `s` is strictly better; returns
    /// whether the replacement happened.
    pub fn consider(&mut self, s: &Solution) -> (r: bool)
        requires
            cmp_ok(*old(self)),
            cmp_ok(*s),
        ensures
            r == obj_gt(*s, *old(self)),
            r ==> same_state(*final(self), *s),
            !r ==> *final(self) == *old(self),
    {
        if s.better(self) {
            *self = s.duplicate();
            true
        } else {
            false
        }
    }
}

/// Copy a vector of plain values element by element.
#[verifier::loop_isolation(false)]
pub fn copy_vec<T: Copy>(src: &Vec<T>) -> (r: Vec<T>)
    ensures
        r@ == src@,
{
    let mut r: Vec<T> = Vec::new();
    let mut i: usize = 0;
    while i < src.len()
        invariant
            0 <= i <= src@.len(),
            r@ == src@.take(i as int),
        decreases src@.len() - i,
    {
        r.push(src[i]);
        proof {
            assert(r@ =~= src@.take(i + 1));
        }
        i = i + 1;
    }
    proof {
        assert(r@ =~= src@);
    }
    r
}

} // verus!

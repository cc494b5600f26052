//! The outer engine: randomized perturbation (shake), tabu bookkeeping of
//! solution differences, the neighborhood decomposer, and the multistart
//! controller.

use vstd::prelude::*;
use crate::greedy::{insertion_order, removal_order, ts, Core, CORE_COST_MAX};
use crate::instance::{Instance, BASE_EDGE_MAX, EDGE_MAX, MAX_N};
use crate::options::Options;
use crate::rng::shuffle_usizes;
use crate::solution::{copy_vec, Solution};
use crate::sums::{
    mat_wf, pair_sum, row_sum, lemma_compression, lemma_concat_contains, lemma_concat_no_dup,
    lemma_members_in_range_len, lemma_pair_sum_bound, lemma_pair_sum_perm,
    lemma_pair_sum_take_step, lemma_push_contains, lemma_push_no_dup, lemma_row_sum_bound,
    lemma_row_sum_take_step, lemma_subseq_len, lemma_subseq_missing, valid_members,
};
use crate::tabu::{TabuList, ITER_MAX};
use crate::timer::Timer;

verus! {

/// Remove the (unique) occurrence of `e` from a duplicate-free vector.
#[verifier::loop_isolation(false)]
fn vec_remove_value(v: &mut Vec<usize>, e: usize)
    requires
        old(v)@.no_duplicates(),
        old(v)@.contains(e),
    ensures
        final(v)@.no_duplicates(),
        final(v)@.len() == old(v)@.len() - 1,
        forall|x: usize| #[trigger] final(v)@.contains(x) <==> (old(v)@.contains(x) && x != e),
{
    let ghost m = v@;
    let mut k: usize = 0;
    while k < v.len() && v[k] != e
        invariant
            0 <= k <= v@.len(),
            v@ == m,
            forall|q: int| 0 <= q < k ==> #[trigger] v@[q] != e,
        decreases v@.len() - k,
    {
        k = k + 1;
    }
    proof {
        if k == m.len() {
            let i = choose|i: int| 0 <= i < m.len() && m[i] == e;
            assert(false);
        }
        assert(m[k as int] == e);
    }
    v.remove(k);
    proof {
        let m1 = m.remove(k as int);
        assert(m1.no_duplicates()) by {
            assert forall|i: int, j: int|
                0 <= i < m1.len() && 0 <= j < m1.len() && i != j implies m1[i] != m1[j] by {
                let i0 = if i < k as int { i } else { i + 1 };
                let j0 = if j < k as int { j } else { j + 1 };
                assert(m1[i] == m[i0] && m1[j] == m[j0]);
            }
        }
        assert forall|x: usize| #[trigger] m1.contains(x) <==> (m.contains(x) && x != e) by {
            if m1.contains(x) {
                let i = choose|i: int| 0 <= i < m1.len() && m1[i] == x;
                let i0 = if i < k as int { i } else { i + 1 };
                assert(m[i0] == x);
                if x == e {
                    assert(m[i0] == m[k as int] && i0 != k as int);
                }
            }
            if m.contains(x) && x != e {
                let i = choose|i: int| 0 <= i < m.len() && m[i] == x;
                assert(i != k as int);
                let i1 = if i < k as int { i } else { i - 1 };
                assert(m1[i1] == x);
            }
        }
    }
}

/// The record of one shake: `rm` are the distinct members the relaxed
/// greedy removal order drew, `ins` the distinct outsiders the relaxed
/// greedy insertion order drew (each pick within the `alpha` window of the
/// step's best, exactly the greedy pick when `alpha` is zero), at their
/// exact untabued lengths; the new member set is the old one minus `rm`,
/// united with `ins`.
pub open spec fn shake_draw(
    inst: Instance,
    old_s: Solution,
    shake_size: usize,
    alpha: u32,
    rm: Seq<usize>,
    ins: Seq<usize>,
    new_s: Solution,
) -> bool {
    &&& rm.no_duplicates()
    &&& ins.no_duplicates()
    &&& rm.len() == (if shake_size <= old_s.len {
        shake_size as int
    } else {
        old_s.len as int
    })
    &&& ins.len() == (if old_s.len + shake_size <= inst.n {
        shake_size as int
    } else {
        inst.n - old_s.len
    })
    &&& (forall|k: int|
        #![trigger rm.take(k)]
        0 <= k < rm.len() ==> crate::greedy::rem_pick_ok(inst, old_s, None, rm.take(k), alpha,
            rm[k]))
    &&& (old_s.len > 0 ==> forall|k: int|
        #![trigger ins.take(k)]
        0 <= k < ins.len() ==> crate::greedy::ins_pick_ok(inst, old_s, None, ins.take(k),
            alpha, ins[k]))
    &&& (forall|k: int| 0 <= k < rm.len() ==> old_s.v@.contains(#[trigger] rm[k]))
    &&& (forall|k: int| 0 <= k < ins.len() ==> !old_s.v@.contains(#[trigger] ins[k]))
    &&& (forall|x: usize|
        #[trigger] new_s.v@.contains(x) <==> ((old_s.v@.contains(x) && !rm.contains(x))
            || ins.contains(x)))
}

/// Shake a solution: take out up to `shake_size` members and put in the same
/// number of outside vertices, both chosen by the `alpha`-relaxed greedy
/// orders, then rebuild the bookkeeping.  The result is well-formed; its
/// size is exactly the old size minus the members removable plus the
/// outsiders available (each capped by `shake_size`); and its member set is
/// the old one minus the removal draw, united with the insertion draw
/// (`shake_draw` records both draws).
#[verifier::loop_isolation(false)]
pub fn shake(inst: &Instance, s: &mut Solution, shake_size: usize, alpha: u32)
    requires
        old(s).wf(*inst),
        shake_size <= MAX_N,
        alpha <= 1000,
    ensures
        final(s).wf(*inst),
        final(s).len == old(s).len
            - (if shake_size <= old(s).len { shake_size as int } else { old(s).len as int })
            + (if old(s).len + shake_size <= inst.n { shake_size as int } else {
                inst.n - old(s).len
            }),
        exists|rm: Seq<usize>, ins: Seq<usize>|
            #[trigger] shake_draw(*inst, *old(s), shake_size, alpha, rm, ins, *final(s)),
{
    let in_rlx: Vec<usize> = removal_order(inst, s, shake_size, alpha, None);
    let out_rlx: Vec<usize> = insertion_order(inst, s, shake_size, alpha, None);

    let mut nv: Vec<usize> = copy_vec(&s.v);
    let mut k: usize = 0;
    while k < in_rlx.len()
        invariant
            0 <= k <= in_rlx@.len(),
            nv@.no_duplicates(),
            nv@.len() == s.v@.len() - k,
            forall|x: usize| #[trigger] nv@.contains(x)
                <==> (s.v@.contains(x) && !in_rlx@.take(k as int).contains(x)),
        decreases in_rlx@.len() - k,
    {
        let e = in_rlx[k];
        proof {
            assert(in_rlx@.take(k + 1).drop_last() =~= in_rlx@.take(k as int));
            assert(in_rlx@.take(k + 1).last() == e);
            // e is a member not removed so far, hence still present
            assert(in_rlx@[k as int] == e);
            assert(crate::greedy::rem_eligible(*inst, *s, None, in_rlx@.take(k as int),
                e as int));
            assert(s.v@.contains(e));
            assert(!in_rlx@.take(k as int).contains(e));
            assert(nv@.contains(e));
            assert forall|x: usize| (s.v@.contains(x) && !in_rlx@.take(k + 1).contains(x))
                implies (s.v@.contains(x) && !in_rlx@.take(k as int).contains(x) && x != e) by {
                lemma_push_contains(in_rlx@.take(k as int), e, x);
                assert(in_rlx@.take(k + 1) =~= in_rlx@.take(k as int).push(e));
            }
            assert forall|x: usize| (s.v@.contains(x) && !in_rlx@.take(k as int).contains(x)
                && x != e) implies !in_rlx@.take(k + 1).contains(x) by {
                lemma_push_contains(in_rlx@.take(k as int), e, x);
                assert(in_rlx@.take(k + 1) =~= in_rlx@.take(k as int).push(e));
            }
        }
        vec_remove_value(&mut nv, e);
        k = k + 1;
    }
    proof {
        assert(in_rlx@.take(in_rlx@.len() as int) =~= in_rlx@);
        assert forall|q: int| 0 <= q < nv@.len() implies #[trigger] nv@[q] < inst.n by {
            assert(nv@.contains(nv@[q]));
            assert(s.v@.contains(nv@[q]));
        }
    }
    let mut k2: usize = 0;
    while k2 < out_rlx.len()
        invariant
            0 <= k2 <= out_rlx@.len(),
            nv@.no_duplicates(),
            nv@.len() == s.v@.len() - in_rlx@.len() + k2,
            forall|x: usize| #[trigger] nv@.contains(x)
                <==> ((s.v@.contains(x) && !in_rlx@.contains(x))
                    || out_rlx@.take(k2 as int).contains(x)),
            forall|q: int| 0 <= q < nv@.len() ==> #[trigger] nv@[q] < inst.n,
        decreases out_rlx@.len() - k2,
    {
        let e = out_rlx[k2];
        proof {
            assert(out_rlx@[k2 as int] == e);
            assert(crate::greedy::ins_eligible(*inst, *s, None, out_rlx@.take(k2 as int),
                e as int));
            assert(!s.has@[e as int]);
            assert(!s.v@.contains(e));
            if nv@.contains(e) {
                assert(out_rlx@.take(k2 as int).contains(e));
                let i = choose|i: int| 0 <= i < k2 as int && out_rlx@.take(k2 as int)[i] == e;
                assert(out_rlx@[i] == e && out_rlx@[k2 as int] == e);
                assert(false);
            }
            lemma_push_no_dup(nv@, e);
            assert forall|x: usize| #[trigger] out_rlx@.take(k2 + 1).contains(x)
                <==> (out_rlx@.take(k2 as int).contains(x) || x == e) by {
                lemma_push_contains(out_rlx@.take(k2 as int), e, x);
                assert(out_rlx@.take(k2 + 1) =~= out_rlx@.take(k2 as int).push(e));
            }
        }
        let ghost nv0 = nv@;
        nv.push(e);
        proof {
            assert forall|x: usize| #[trigger] nv@.contains(x) <==> (nv0.contains(x) || x == e) by {
                lemma_push_contains(nv0, e, x);
            }
        }
        k2 = k2 + 1;
    }
    proof {
        assert(out_rlx@.take(out_rlx@.len() as int) =~= out_rlx@);
    }
    let ghost nv_view = nv@;
    s.v = nv;
    s.recompute_from_v(inst);
    proof {
        // the draws witness the membership relation
        assert forall|k: int| 0 <= k < in_rlx@.len() implies
            old(s).v@.contains(#[trigger] in_rlx@[k]) by {
            assert(crate::greedy::rem_eligible(*inst, *old(s), None, in_rlx@.take(k),
                in_rlx@[k] as int));
        }
        assert forall|k: int| 0 <= k < out_rlx@.len() implies
            !old(s).v@.contains(#[trigger] out_rlx@[k]) by {
            assert(crate::greedy::ins_eligible(*inst, *old(s), None, out_rlx@.take(k),
                out_rlx@[k] as int));
            assert(!old(s).has@[out_rlx@[k] as int]);
        }
        assert(s.v@ == nv_view);
        assert(shake_draw(*inst, *old(s), shake_size, alpha, in_rlx@, out_rlx@, *s));
    }
}

/// Assign `new_s` to `s`, marking every vertex that joined or left the
/// solution as tabu (touched at the memory's current counter value).
#[verifier::loop_isolation(false)]
pub fn assign_and_update_tabu(
    inst: &Instance,
    s: &mut Solution,
    new_s: Solution,
    tabu: &mut TabuList,
)
    requires
        old(s).wf(*inst),
        new_s.wf(*inst),
        old(tabu).wf(),
        old(tabu).tabu@.len() == inst.n,
    ensures
        *final(s) == new_s,
        final(tabu).wf(),
        final(tabu).tabu@.len() == inst.n,
        final(tabu).iter == old(tabu).iter,
        final(tabu).tenure == old(tabu).tenure,
        forall|x: int|
            0 <= x < inst.n ==> #[trigger] final(tabu).tabu@[x] == (if old(s).v@.contains(
                x as usize,
            ) != new_s.v@.contains(x as usize) {
                old(tabu).iter
            } else {
                old(tabu).tabu@[x]
            }),
{
    let mut vv: Vec<i8> = vec![0i8; inst.n];
    let mut k: usize = 0;
    while k < s.v.len()
        invariant
            0 <= k <= s.v@.len(),
            vv@.len() == inst.n,
            forall|x: int|
                0 <= x < inst.n ==> #[trigger] vv@[x] as int == (if s.v@.take(
                    k as int,
                ).contains(x as usize) {
                    -1int
                } else {
                    0int
                }),
        decreases s.v@.len() - k,
    {
        let x = s.v[k];
        proof {
            assert(s.v@[k as int] == x);
            if s.v@.take(k as int).contains(x) {
                let i = choose|i: int| 0 <= i < k as int && s.v@.take(k as int)[i] == x;
                assert(s.v@[i] == x);
                assert(false);
            }
            assert forall|y: usize| #[trigger] s.v@.take(k + 1).contains(y)
                <==> (s.v@.take(k as int).contains(y) || y == x) by {
                lemma_push_contains(s.v@.take(k as int), x, y);
                assert(s.v@.take(k + 1) =~= s.v@.take(k as int).push(x));
            }
        }
        let cur = vv[x];
        vv[x] = cur - 1;
        k = k + 1;
    }
    proof {
        assert(s.v@.take(s.v@.len() as int) =~= s.v@);
    }
    let mut k2: usize = 0;
    while k2 < new_s.v.len()
        invariant
            0 <= k2 <= new_s.v@.len(),
            vv@.len() == inst.n,
            forall|x: int|
                0 <= x < inst.n ==> #[trigger] vv@[x] as int == (if new_s.v@.take(
                    k2 as int,
                ).contains(x as usize) {
                    1int
                } else {
                    0int
                }) + (if s.v@.contains(x as usize) {
                    -1int
                } else {
                    0int
                }),
        decreases new_s.v@.len() - k2,
    {
        let x = new_s.v[k2];
        proof {
            assert(new_s.v@[k2 as int] == x);
            if new_s.v@.take(k2 as int).contains(x) {
                let i = choose|i: int| 0 <= i < k2 as int && new_s.v@.take(k2 as int)[i] == x;
                assert(new_s.v@[i] == x);
                assert(false);
            }
            assert forall|y: usize| #[trigger] new_s.v@.take(k2 + 1).contains(y)
                <==> (new_s.v@.take(k2 as int).contains(y) || y == x) by {
                lemma_push_contains(new_s.v@.take(k2 as int), x, y);
                assert(new_s.v@.take(k2 + 1) =~= new_s.v@.take(k2 as int).push(x));
            }
        }
        let cur = vv[x];
        vv[x] = cur + 1;
        k2 = k2 + 1;
    }
    proof {
        assert(new_s.v@.take(new_s.v@.len() as int) =~= new_s.v@);
    }
    let mut x: usize = 0;
    while x < inst.n
        invariant
            0 <= x <= inst.n,
            vv@.len() == inst.n,
            forall|y: int|
                0 <= y < inst.n ==> #[trigger] vv@[y] as int == (if new_s.v@.contains(y as usize) {
                    1int
                } else {
                    0int
                }) + (if s.v@.contains(y as usize) {
                    -1int
                } else {
                    0int
                }),
            tabu.wf(),
            tabu.tabu@.len() == inst.n,
            tabu.iter == old(tabu).iter,
            tabu.tenure == old(tabu).tenure,
            forall|y: int|
                0 <= y < x ==> #[trigger] tabu.tabu@[y] == (if s.v@.contains(y as usize)
                    != new_s.v@.contains(y as usize) {
                    old(tabu).iter
                } else {
                    old(tabu).tabu@[y]
                }),
            forall|y: int| x <= y < inst.n ==> #[trigger] tabu.tabu@[y] == old(tabu).tabu@[y],
        decreases inst.n - x,
    {
        if vv[x] != 0 {
            tabu.add(x);
        }
        x = x + 1;
    }
    *s = new_s;
}

/// `r` holds some vertex that is not a member of `s`.
pub open spec fn holds_outside_vertex(r: Solution, s: Solution) -> bool {
    exists|x: usize| r.v@.contains(x) && !s.v@.contains(x)
}

/// A compact sub-problem built by the decomposer.  Slot 0 of `inst`
/// represents the aggregated core; slot `k >= 1` represents the original
/// vertex `map[k]`.  Slots `1..=n_in` are current members (drawn by the
/// removal order), slots above `n_in` are outside candidates (drawn by the
/// insertion order).
pub struct SubProblem {
    pub inst: Instance,
    pub core: Core,
    pub map: Vec<usize>,
    pub n_in: usize,
}

/// Build the sub-instance for one decomposition step: draw up to `szin`
/// members and `szout` outsiders alpha-greedily (tabu-filtered) as the free
/// vertex set; the remaining members form the core, collapsed into slot 0.
///
/// Fidelity of the compression is part of the contract: the aggregate row
/// holds, for each free vertex, the exact sum of original distances to every
/// core member; the inner block copies the original distances; and the
/// core's internal cost is the exact sum over all core pairs.
#[verifier::loop_isolation(false)]
#[verifier::rlimit(100)]
pub fn create_subinstance(
    inst: &Instance,
    s: &Solution,
    alpha: u32,
    szin: usize,
    szout: usize,
    tabu: &TabuList,
) -> (r: SubProblem)
    requires
        s.wf(*inst),
        inst.base_bounded(),
        tabu.wf(),
        tabu.tabu@.len() == inst.n,
        alpha <= 1000,
        szin + szout < MAX_N,
    ensures
        r.inst.wf(),
        r.inst.n == r.map@.len(),
        1 <= r.inst.n <= 1 + szin + szout,
        r.n_in + 1 <= r.inst.n,
        r.map@.skip(1).no_duplicates(),
        forall|j: int, k: int|
            1 <= j < r.inst.n && 1 <= k < r.inst.n && j != k ==> #[trigger] r.map@[j]
                != #[trigger] r.map@[k],
        forall|k: int| 1 <= k < r.inst.n ==> #[trigger] r.map@[k] < inst.n,
        forall|k: int| 1 <= k <= r.n_in ==> s.v@.contains(#[trigger] r.map@[k]),
        forall|k: int| r.n_in < k < r.inst.n ==> !s.v@.contains(#[trigger] r.map@[k]),
        r.core.vs@.no_duplicates(),
        forall|e: usize| #[trigger] r.core.vs@.contains(e) ==> s.v@.contains(e),
        forall|k: int| 1 <= k < r.inst.n ==> !r.core.vs@.contains(#[trigger] r.map@[k]),
        forall|e: usize|
            #[trigger] s.v@.contains(e) ==> (r.core.vs@.contains(e) || r.map@.skip(1).contains(e)),
        szin < s.len ==> r.core.vs@.len() >= 1,
        r.core.vs@.len() <= s.len,
        r.core.cost as int == pair_sum(inst.dm(), r.core.vs@),
        r.core.cost <= CORE_COST_MAX,
        forall|k: int|
            1 <= k < r.inst.n ==> #[trigger] r.inst.dm()[0][k] as int == row_sum(
                inst.dm(),
                r.map@[k] as int,
                r.core.vs@,
            ),
        forall|j: int, k: int|
            1 <= j < r.inst.n && 1 <= k < r.inst.n ==> #[trigger] r.inst.dm()[j][k]
                == inst.dm()[r.map@[j] as int][r.map@[k] as int],
{
    let ghost d = inst.dm();
    proof {
        s.lemma_cmp_ok(*inst);
        // the matrix is also well-formed under the tighter base bound
        assert(mat_wf(d, inst.n as int, BASE_EDGE_MAX as int));
    }

    let out_rlx: Vec<usize> = insertion_order(inst, s, szout, alpha, Some(tabu));
    let in_rlx: Vec<usize> = removal_order(inst, s, szin, alpha, Some(tabu));
    let n_in = in_rlx.len();

    // the free vertex set: members first, then outsiders
    let mut rlx: Vec<usize> = copy_vec(&in_rlx);
    let mut q: usize = 0;
    while q < out_rlx.len()
        invariant
            0 <= q <= out_rlx@.len(),
            rlx@ == in_rlx@ + out_rlx@.take(q as int),
        decreases out_rlx@.len() - q,
    {
        rlx.push(out_rlx[q]);
        proof {
            assert(rlx@ =~= in_rlx@ + out_rlx@.take(q + 1));
        }
        q = q + 1;
    }
    proof {
        assert(in_rlx@ + out_rlx@.take(out_rlx@.len() as int) =~= in_rlx@ + out_rlx@);
        assert(rlx@ == in_rlx@ + out_rlx@);
        // the two draws are disjoint: one picks members, the other outsiders
        assert forall|e: usize| #[trigger] in_rlx@.contains(e) implies !out_rlx@.contains(e) by {
            if out_rlx@.contains(e) {
                let k = choose|k: int| 0 <= k < out_rlx@.len() && out_rlx@[k] == e;
                assert(crate::greedy::ins_eligible(*inst, *s, Some(tabu), out_rlx@.take(k),
                    e as int));
                let k2 = choose|k2: int| 0 <= k2 < in_rlx@.len() && in_rlx@[k2] == e;
                assert(crate::greedy::rem_eligible(*inst, *s, Some(tabu), in_rlx@.take(k2),
                    e as int));
            }
        }
        lemma_concat_no_dup(in_rlx@, out_rlx@);
        assert forall|k: int| 0 <= k < rlx@.len() implies #[trigger] rlx@[k] < inst.n by {
            if k < in_rlx@.len() {
                let kk = k;
                assert(in_rlx@.take(kk).len() == kk);
                assert(crate::greedy::rem_eligible(*inst, *s, Some(tabu), in_rlx@.take(kk),
                    in_rlx@[kk] as int));
            } else {
                let kk = k - in_rlx@.len();
                assert(crate::greedy::ins_eligible(*inst, *s, Some(tabu), out_rlx@.take(kk),
                    out_rlx@[kk] as int));
            }
        }
    }

    // mark the free set
    let mut is_rlx: Vec<bool> = vec![false; inst.n];
    let mut q2: usize = 0;
    while q2 < rlx.len()
        invariant
            0 <= q2 <= rlx@.len(),
            is_rlx@.len() == inst.n,
            forall|x: int|
                0 <= x < inst.n ==> #[trigger] is_rlx@[x] == rlx@.take(q2 as int).contains(
                    x as usize,
                ),
        decreases rlx@.len() - q2,
    {
        let e = rlx[q2];
        proof {
            assert(rlx@[q2 as int] == e);
            assert forall|y: usize| #[trigger] rlx@.take(q2 + 1).contains(y)
                <==> (rlx@.take(q2 as int).contains(y) || y == e) by {
                lemma_push_contains(rlx@.take(q2 as int), e, y);
                assert(rlx@.take(q2 + 1) =~= rlx@.take(q2 as int).push(e));
            }
        }
        is_rlx[e] = true;
        q2 = q2 + 1;
    }
    proof {
        assert(rlx@.take(rlx@.len() as int) =~= rlx@);
    }

    // the core: members not drawn into the free set
    let mut core: Vec<usize> = Vec::new();
    let mut idx: usize = 0;
    while idx < s.v.len()
        invariant
            0 <= idx <= s.v@.len(),
            core@.no_duplicates(),
            forall|x: usize|
                #[trigger] core@.contains(x) <==> (s.v@.take(idx as int).contains(x)
                    && !rlx@.contains(x)),
            forall|k: int| 0 <= k < core@.len() ==> #[trigger] core@[k] < inst.n,
            core@.len() <= idx,
        decreases s.v@.len() - idx,
    {
        let x = s.v[idx];
        proof {
            assert(s.v@[idx as int] == x);
            assert forall|y: usize| #[trigger] s.v@.take(idx + 1).contains(y)
                <==> (s.v@.take(idx as int).contains(y) || y == x) by {
                lemma_push_contains(s.v@.take(idx as int), x, y);
                assert(s.v@.take(idx + 1) =~= s.v@.take(idx as int).push(x));
            }
            if s.v@.take(idx as int).contains(x) {
                let i = choose|i: int| 0 <= i < idx as int && s.v@.take(idx as int)[i] == x;
                assert(s.v@[i] == x);
                assert(false);
            }
        }
        if !is_rlx[x] {
            let ghost c0 = core@;
            proof {
                assert(!c0.contains(x));
                lemma_push_no_dup(c0, x);
            }
            core.push(x);
            proof {
                assert forall|y: usize| #[trigger] core@.contains(y)
                    <==> (c0.contains(y) || y == x) by {
                    lemma_push_contains(c0, x, y);
                }
            }
        }
        idx = idx + 1;
    }
    proof {
        assert(s.v@.take(s.v@.len() as int) =~= s.v@);
        lemma_members_in_range_len(core@, inst.n as int);
    }

    // core cost: the exact sum over all core pairs
    let mut cc: u128 = 0;
    let mut a: usize = 0;
    while a < core.len()
        invariant
            0 <= a <= core@.len(),
            cc as int == pair_sum(d, core@.take(a as int)),
            core@.len() <= MAX_N,
        decreases core@.len() - a,
    {
        let mut b: usize = 0;
        while b < a
            invariant
                0 <= b <= a < core@.len(),
                cc as int == pair_sum(d, core@.take(a as int)) + row_sum(
                    d,
                    core@[a as int] as int,
                    core@.take(b as int),
                ),
            decreases a - b,
        {
            proof {
                lemma_row_sum_take_step(d, core@[a as int] as int, core@, b as int);
                lemma_pair_sum_bound(d, inst.n as int, EDGE_MAX as int, core@.take(a as int));
                lemma_row_sum_bound(d, inst.n as int, EDGE_MAX as int, core@[a as int] as int,
                    core@.take(b as int));
                assert(
                    core@.take(a as int).len() * core@.take(a as int).len() * (EDGE_MAX as int)
                        + core@.take(b as int).len() * (EDGE_MAX as int) + (EDGE_MAX as int)
                        < u128::MAX
                ) by (nonlinear_arith)
                    requires
                        0 <= core@.take(a as int).len() <= MAX_N,
                        0 <= core@.take(b as int).len() <= MAX_N,
                ;
            }
            let w = inst.dist(core[a], core[b]);
            cc = cc + (w as u128);
            b = b + 1;
        }
        proof {
            lemma_pair_sum_take_step(d, core@, a as int);
            assert(core@.take(a as int + 1).drop_last() =~= core@.take(a as int));
        }
        a = a + 1;
    }
    proof {
        assert(core@.take(core@.len() as int) =~= core@);
        lemma_pair_sum_bound(d, inst.n as int, EDGE_MAX as int, core@);
        assert(
            core@.len() * core@.len() * (EDGE_MAX as int) <= CORE_COST_MAX
        ) by (nonlinear_arith)
            requires 0 <= core@.len() <= MAX_N,
        ;
    }

    // the compact matrix: slot 0 aggregates the core
    let ns: usize = 1 + rlx.len();
    let mut map: Vec<usize> = Vec::new();
    map.push(0);
    let mut q3: usize = 0;
    while q3 < rlx.len()
        invariant
            0 <= q3 <= rlx@.len(),
            map@.len() == 1 + q3,
            map@[0] == 0usize,
            forall|k: int| 1 <= k < map@.len() ==> #[trigger] map@[k] == rlx@[k - 1],
        decreases rlx@.len() - q3,
    {
        map.push(rlx[q3]);
        q3 = q3 + 1;
    }
    proof {
        assert(map@.skip(1) =~= rlx@);
        assert forall|j: int, k: int|
            1 <= j < map@.len() && 1 <= k < map@.len() && j != k implies map@[j] != map@[k] by {
            assert(map@[j] == rlx@[j - 1] && map@[k] == rlx@[k - 1]);
        }
    }

    let mut dmat: Vec<Vec<u64>> = Vec::new();
    let mut i0: usize = 0;
    while i0 < ns
        invariant
            0 <= i0 <= ns,
            dmat@.len() == i0,
            forall|p: int| 0 <= p < i0 ==> (#[trigger] dmat@[p])@.len() == ns,
            forall|p: int, j: int| 0 <= p < i0 && 0 <= j < ns ==> #[trigger] dmat@[p]@[j] == 0,
        decreases ns - i0,
    {
        let row: Vec<u64> = vec![0u64; ns];
        dmat.push(row);
        i0 = i0 + 1;
    }

    let mut k: usize = 1;
    while k < ns
        invariant
            1 <= k <= ns,
            ns == 1 + rlx@.len(),
            map@.len() == ns,
            forall|p: int| 1 <= p < ns ==> #[trigger] map@[p] == rlx@[p - 1],
            dmat@.len() == ns,
            forall|p: int| 0 <= p < ns ==> (#[trigger] dmat@[p])@.len() == ns,
            dmat@[0]@[0] == 0,
            forall|p: int|
                1 <= p < k ==> #[trigger] dmat@[0]@[p] as int == row_sum(
                    d,
                    map@[p] as int,
                    core@,
                ),
            forall|p: int|
                1 <= p < k ==> #[trigger] dmat@[p]@[0] as int == row_sum(
                    d,
                    map@[p] as int,
                    core@,
                ),
            forall|p: int| k <= p < ns ==> #[trigger] dmat@[0]@[p] == 0,
            forall|p: int, j: int|
                1 <= p < k && 1 <= j < ns ==> #[trigger] dmat@[p]@[j]
                    == d[map@[p] as int][map@[j] as int],
            forall|p: int, j: int|
                k <= p < ns && 1 <= j < ns ==> #[trigger] dmat@[p]@[j] == 0,
        decreases ns - k,
    {
        // aggregate distance of free slot k to the core
        let vk = map[k];
        proof {
            assert(map@[k as int] == rlx@[k as int - 1]);
            assert(vk < inst.n);
        }
        let mut agg: u64 = 0;
        let mut c: usize = 0;
        while c < core.len()
            invariant
                0 <= c <= core@.len(),
                vk < inst.n,
                agg as int == row_sum(d, vk as int, core@.take(c as int)),
            decreases core@.len() - c,
        {
            proof {
                lemma_row_sum_take_step(d, vk as int, core@, c as int);
                lemma_row_sum_bound(d, inst.n as int, BASE_EDGE_MAX as int, vk as int,
                    core@.take(c as int));
                assert(
                    core@.take(c as int).len() * (BASE_EDGE_MAX as int) + (BASE_EDGE_MAX as int)
                        <= (MAX_N as int) * (BASE_EDGE_MAX as int)
                ) by (nonlinear_arith)
                    requires 0 <= core@.take(c as int).len() < MAX_N,
                ;
            }
            let w = inst.dist(vk, core[c]);
            proof {
                assert(d[vk as int][core@[c as int] as int]
                    == d[core@[c as int] as int][vk as int]);
            }
            agg = agg + w;
            c = c + 1;
        }
        proof {
            assert(core@.take(core@.len() as int) =~= core@);
            lemma_row_sum_bound(d, inst.n as int, BASE_EDGE_MAX as int, vk as int, core@);
            assert(
                core@.len() * (BASE_EDGE_MAX as int) <= EDGE_MAX as int
            ) by (nonlinear_arith)
                requires 0 <= core@.len() <= MAX_N,
            ;
        }
        dmat[0][k] = agg;
        dmat[k][0] = agg;
        // the inner block copies the original distances
        let mut j: usize = 1;
        while j < ns
            invariant
                1 <= j <= ns,
                1 <= k < ns,
                vk == map@[k as int],
                vk < inst.n,
                map@.len() == ns,
                forall|p: int| 1 <= p < ns ==> #[trigger] map@[p] == rlx@[p - 1],
                forall|p: int| 0 <= p < rlx@.len() ==> #[trigger] rlx@[p] < inst.n,
                dmat@.len() == ns,
                forall|p: int| 0 <= p < ns ==> (#[trigger] dmat@[p])@.len() == ns,
                dmat@[0]@[0] == 0,
                forall|p: int|
                    1 <= p <= k ==> #[trigger] dmat@[0]@[p] as int == row_sum(
                        d,
                        map@[p] as int,
                        core@,
                    ),
                forall|p: int|
                    1 <= p <= k ==> #[trigger] dmat@[p]@[0] as int == row_sum(
                        d,
                        map@[p] as int,
                        core@,
                    ),
                forall|p: int| k < p < ns ==> #[trigger] dmat@[0]@[p] == 0,
                forall|p: int, j2: int|
                    1 <= p < k && 1 <= j2 < ns ==> #[trigger] dmat@[p]@[j2]
                        == d[map@[p] as int][map@[j2] as int],
                forall|j2: int|
                    1 <= j2 < j ==> #[trigger] dmat@[k as int]@[j2]
                        == d[map@[k as int] as int][map@[j2] as int],
                forall|j2: int| j <= j2 < ns ==> #[trigger] dmat@[k as int]@[j2] == 0,
                forall|p: int, j2: int|
                    k < p < ns && 1 <= j2 < ns ==> #[trigger] dmat@[p]@[j2] == 0,
            decreases ns - j,
        {
            let vj = map[j];
            let w = inst.dist(vk, vj);
            dmat[k][j] = w;
            j = j + 1;
        }
        k = k + 1;
    }

    proof {
        // entries of the compact matrix are bounded, symmetric, zero-diagonal
        assert forall|p: int, j: int| 0 <= p < ns && 0 <= j < ns implies
            #[trigger] dmat@[p]@[j] <= EDGE_MAX by {
            if p >= 1 && j >= 1 {
                assert(dmat@[p]@[j] == d[map@[p] as int][map@[j] as int]);
            } else if p == 0 && j >= 1 {
                lemma_row_sum_bound(d, inst.n as int, BASE_EDGE_MAX as int, map@[j] as int, core@);
                assert(
                    core@.len() * (BASE_EDGE_MAX as int) <= EDGE_MAX as int
                ) by (nonlinear_arith)
                    requires 0 <= core@.len() <= MAX_N,
                ;
            } else if p >= 1 && j == 0 {
                lemma_row_sum_bound(d, inst.n as int, BASE_EDGE_MAX as int, map@[p] as int, core@);
                assert(
                    core@.len() * (BASE_EDGE_MAX as int) <= EDGE_MAX as int
                ) by (nonlinear_arith)
                    requires 0 <= core@.len() <= MAX_N,
                ;
            }
        }
        assert forall|p: int, j: int| 0 <= p < ns && 0 <= j < ns implies
            #[trigger] dmat@[p]@[j] == dmat@[j]@[p] by {
            if p >= 1 && j >= 1 {
                assert(d[map@[p] as int][map@[j] as int] == d[map@[j] as int][map@[p] as int]);
            }
        }
        assert forall|p: int| 0 <= p < ns implies #[trigger] dmat@[p]@[p] == 0 by {
            if p >= 1 {
                assert(dmat@[p]@[p] == d[map@[p] as int][map@[p] as int]);
            }
        }
        assert(mat_wf(dmat@.map(|i: int, row: Vec<u64>| row@), ns as int, EDGE_MAX as int));
    }
    let sub = Instance::new(ns, dmat);

    proof {
        // classify the free slots: members first, outsiders after
        assert forall|p: int| 1 <= p <= n_in implies s.v@.contains(#[trigger] map@[p]) by {
            let kk = p - 1;
            assert(crate::greedy::rem_eligible(*inst, *s, Some(tabu), in_rlx@.take(kk),
                in_rlx@[kk] as int));
            assert(map@[p] == rlx@[kk] && rlx@[kk] == in_rlx@[kk]);
        }
        assert forall|p: int| n_in < p < ns implies !s.v@.contains(#[trigger] map@[p]) by {
            let kk = p - 1 - in_rlx@.len();
            assert(crate::greedy::ins_eligible(*inst, *s, Some(tabu), out_rlx@.take(kk),
                out_rlx@[kk] as int));
            assert(map@[p] == rlx@[p - 1] && rlx@[p - 1] == out_rlx@[kk]);
            assert(!s.has@[map@[p] as int]);
        }
        // core and free set are disjoint; together they cover the members
        assert forall|p: int| 1 <= p < ns implies !core@.contains(#[trigger] map@[p]) by {
            assert(rlx@.contains(rlx@[p - 1]));
        }
        assert forall|e: usize| #[trigger] s.v@.contains(e) implies (core@.contains(e)
            || map@.skip(1).contains(e)) by {
            if !rlx@.contains(e) {
                assert(core@.contains(e));
            } else {
                assert(map@.skip(1) == rlx@);
            }
        }
        if szin < s.len {
            lemma_subseq_missing(in_rlx@, s.v@);
            let e = choose|e: usize| s.v@.contains(e) && !in_rlx@.contains(e);
            assert(s.v@.contains(e) && !in_rlx@.contains(e));
            lemma_concat_contains(in_rlx@, out_rlx@, e);
            if out_rlx@.contains(e) {
                let kk = choose|kk: int| 0 <= kk < out_rlx@.len() && out_rlx@[kk] == e;
                assert(crate::greedy::ins_eligible(*inst, *s, Some(tabu), out_rlx@.take(kk),
                    e as int));
                assert(false);
            }
            assert(core@.contains(e));
            assert(core@.len() >= 1);
        }
        lemma_subseq_len(core@, s.v@);
    }

    SubProblem { inst: sub, core: Core { vs: core, cost: cc }, map, n_in }
}

/// One neighborhood-search iteration: draw a sub-problem (restarting up to
/// `opt.subp_restarts` times), run the anchored tabu search once per outside
/// candidate, and return the best mapped-back solution found together with
/// the restart index that found it.  The result is empty when no candidate
/// beat an empty solution.
///
/// Mapping back is proved exact: the recomputed total of the returned
/// member list equals the winning sub-solution's total plus the core's
/// internal cost, so the objective the sub-search optimized is the
/// objective the outer search receives.
///
/// Whatever the draws, a non-empty result strictly beat the empty incumbent
/// (positive total, at least two members: the core and a candidate) and
/// holds at least one vertex from outside the input solution — the anchored
/// candidate of its winning sub-search.  With no restarts the result is
/// empty, and the restart index is always within the restart budget.
#[verifier::loop_isolation(false)]
#[verifier::rlimit(100)]
pub fn vlns_iter(
    inst: &Instance,
    s: &Solution,
    alpha: u32,
    tabu: &TabuList,
    opt: &Options,
) -> (r: (Solution, usize))
    requires
        s.wf(*inst),
        s.len >= 1,
        inst.base_bounded(),
        tabu.wf(),
        tabu.tabu@.len() == inst.n,
        alpha <= 1000,
        opt.ok(),
    ensures
        r.0.wf(*inst),
        opt.subp_restarts == 0 ==> r.0.len == 0 && r.1 == 0,
        r.1 == 0 || r.1 < opt.subp_restarts,
        r.0.len == 0 || (r.0.len >= 2 && r.0.total_cost > 0 && holds_outside_vertex(r.0, *s)),
{
    let mut inc = Solution::new(inst);
    let mut nb_imp: usize = 0;
    let sz_in: usize = opt.subp_sz / 2;
    let sz_out: usize = sz_in + (opt.subp_sz % 2);
    proof {
        assert(sz_in + sz_out == opt.subp_sz);
        s.lemma_cmp_ok(*inst);
    }

    let mut tr: usize = 0;
    while tr < opt.subp_restarts
        invariant
            0 <= tr <= opt.subp_restarts,
            inc.wf(*inst),
            nb_imp <= tr,
            nb_imp == 0 || nb_imp < opt.subp_restarts,
            opt.subp_restarts == 0 ==> inc.len == 0 && nb_imp == 0,
            inc.len == 0 || (inc.len >= 2 && inc.total_cost > 0
                && holds_outside_vertex(inc, *s)),
            sz_in + sz_out == opt.subp_sz,
        decreases opt.subp_restarts - tr,
    {
        // keep at least one member aggregated in the core
        let in_len: usize = if sz_in <= s.len - 1 {
            sz_in
        } else {
            s.len - 1
        };
        let sub = create_subinstance(inst, s, alpha, in_len, sz_out, tabu);

        let mut i: usize = 1 + sub.n_in;
        while i < sub.inst.n
            invariant
                1 + sub.n_in <= i <= sub.inst.n,
                inc.wf(*inst),
                nb_imp <= tr,
                nb_imp == 0 || nb_imp < opt.subp_restarts,
                inc.len == 0 || (inc.len >= 2 && inc.total_cost > 0
                    && holds_outside_vertex(inc, *s)),
            decreases sub.inst.n - i,
        {
            proof {
                assert(sub.inst.n >= 2);
                assert(sub.map@[i as int] < inst.n);
            }
            let mut t = Solution::new(&sub.inst);
            t.add(&sub.inst, 0);
            proof {
                assert(t.v@[0] == 0usize);
                assert(t.v@.contains(0usize));
            }
            t.add(&sub.inst, i);
            proof {
                assert(t.v@[0] == 0usize && t.v@[1] == i);
                assert(t.v@.contains(0usize) && t.v@.contains(i));
                t.lemma_cmp_ok(sub.inst);
            }
            ts(&sub.inst, &mut t, 1, 1, Some(i), Some(&sub.core));
            proof {
                t.lemma_cmp_ok(sub.inst);
                inc.lemma_cmp_ok(*inst);
            }
            let new_len: usize = t.len + (sub.core.vs.len() - 1);
            let new_num: u128 = t.total_cost + sub.core.cost;

            if inc.fworse(new_num, new_len) {
                let ghost inc_pre = inc;
                // map the winning sub-solution back and union it with the core
                let mut nv: Vec<usize> = copy_vec(&sub.core.vs);
                let ghost cvs = sub.core.vs@;
                let ghost mapf = |sl: usize| sub.map@[sl as int];
                let ghost mut qs: Seq<usize> = Seq::empty();
                proof {
                    assert(nv@ =~= cvs + qs.map_values(mapf));
                }
                let mut q: usize = 0;
                while q < t.v.len()
                    invariant
                        0 <= q <= t.v@.len(),
                        t.wf(sub.inst),
                        qs.no_duplicates(),
                        forall|k: int| 0 <= k < qs.len() ==> 1 <= #[trigger] qs[k] < sub.inst.n,
                        forall|x: usize| #[trigger] qs.contains(x)
                            <==> (t.v@.take(q as int).contains(x) && x != 0usize),
                        nv@ == cvs + qs.map_values(mapf),
                    decreases t.v@.len() - q,
                {
                    let x = t.v[q];
                    proof {
                        assert(t.v@[q as int] == x);
                        assert(t.v@.contains(x));
                        assert(x < sub.inst.n);
                        assert forall|y: usize| #[trigger] t.v@.take(q + 1).contains(y)
                            <==> (t.v@.take(q as int).contains(y) || y == x) by {
                            lemma_push_contains(t.v@.take(q as int), x, y);
                            assert(t.v@.take(q + 1) =~= t.v@.take(q as int).push(x));
                        }
                    }
                    if x != 0 {
                        let y = sub.map[x];
                        let ghost qs0 = qs;
                        proof {
                            assert(sub.map@[x as int] == y);
                            assert(y < inst.n);
                            // slot x has not been mapped yet: the members of t
                            // are duplicate-free
                            if qs0.contains(x) {
                                assert(t.v@.take(q as int).contains(x));
                                let i = choose|i: int|
                                    0 <= i < q as int && t.v@.take(q as int)[i] == x;
                                assert(t.v@[i] == x && i != q as int);
                                assert(false);
                            }
                            lemma_push_no_dup(qs0, x);
                            qs = qs0.push(x);
                            assert forall|z: usize| #[trigger] qs.contains(z)
                                <==> (qs0.contains(z) || z == x) by {
                                lemma_push_contains(qs0, x, z);
                            }
                            assert(qs.map_values(mapf) =~= qs0.map_values(mapf).push(y));
                            assert(cvs + qs.map_values(mapf)
                                =~= (cvs + qs0.map_values(mapf)).push(y));
                        }
                        nv.push(y);
                    }
                    q = q + 1;
                }
                proof {
                    assert(t.v@.take(t.v@.len() as int) =~= t.v@);
                    // the mapped free slots are distinct original vertices,
                    // disjoint from the core
                    let mq = qs.map_values(mapf);
                    assert(mq.no_duplicates()) by {
                        assert forall|i: int, j: int|
                            0 <= i < mq.len() && 0 <= j < mq.len() && i != j
                            implies mq[i] != mq[j] by {
                            assert(qs[i] != qs[j]);
                            assert(mq[i] == sub.map@[qs[i] as int]
                                && mq[j] == sub.map@[qs[j] as int]);
                        }
                    }
                    assert forall|z: usize| cvs.contains(z) implies !mq.contains(z) by {
                        if mq.contains(z) {
                            let i = choose|i: int| 0 <= i < mq.len() && mq[i] == z;
                            assert(mq[i] == sub.map@[qs[i] as int]);
                            assert(!cvs.contains(sub.map@[qs[i] as int]));
                        }
                    }
                    lemma_concat_no_dup(cvs, mq);
                    assert forall|p: int| 0 <= p < nv@.len() implies #[trigger] nv@[p]
                        < inst.n by {
                        if p < cvs.len() {
                            assert(nv@[p] == cvs[p]);
                            assert(cvs.contains(cvs[p]));
                            assert(s.v@.contains(cvs[p]));
                        } else {
                            assert(nv@[p] == mq[p - cvs.len()]);
                            assert(mq[p - cvs.len()] == sub.map@[qs[p - cvs.len()] as int]);
                        }
                    }
                    // slot 0 plus the free slots are exactly t's members
                    let s0qs = seq![0usize] + qs;
                    assert(s0qs.no_duplicates()) by {
                        assert forall|i: int, j: int|
                            0 <= i < s0qs.len() && 0 <= j < s0qs.len() && i != j
                            implies s0qs[i] != s0qs[j] by {
                            if i >= 1 && j >= 1 {
                                assert(s0qs[i] == qs[i - 1] && s0qs[j] == qs[j - 1]);
                            } else if i == 0 {
                                assert(s0qs[i] == 0usize && s0qs[j] == qs[j - 1]);
                            } else {
                                assert(s0qs[j] == 0usize && s0qs[i] == qs[i - 1]);
                            }
                        }
                    }
                    assert forall|z: usize| s0qs.contains(z) <==> t.v@.contains(z) by {
                        lemma_concat_contains(seq![0usize], qs, z);
                        assert(seq![0usize].contains(z) <==> z == 0usize) by {
                            if z == 0usize {
                                assert(seq![0usize][0] == z);
                            }
                            if seq![0usize].contains(z) {
                                let i = choose|i: int|
                                    0 <= i < seq![0usize].len() && seq![0usize][i] == z;
                                assert(i == 0);
                            }
                        }
                        assert(t.v@.contains(0usize));
                    }
                    assert forall|k: int| 0 <= k < s0qs.len() implies
                        #[trigger] s0qs[k] < sub.inst.n by {
                        if k >= 1 {
                            assert(s0qs[k] == qs[k - 1]);
                        }
                    }
                    lemma_pair_sum_perm(
                        sub.inst.dm(),
                        sub.inst.n as int,
                        EDGE_MAX as int,
                        t.v@,
                        s0qs,
                    );
                    lemma_compression(
                        inst.dm(),
                        inst.n as int,
                        EDGE_MAX as int,
                        sub.inst.dm(),
                        sub.inst.n as int,
                        cvs,
                        sub.map@,
                        sub.core.cost as int,
                        qs,
                    );
                }
                inc.v = nv;
                inc.recompute_from_v(inst);
                proof {
                    // compression fidelity, end to end: the exact recomputed
                    // total of the mapped-back members equals the
                    // sub-solution's total plus the core's internal cost
                    assert(inc.total_cost == new_num);
                    // the replacement strictly beat the incumbent held so
                    // far, so its total is positive
                    assert(crate::solution::obj_num(inc_pre) * (new_len as int) >= 0)
                        by (nonlinear_arith)
                        requires
                            crate::solution::obj_num(inc_pre) >= 0,
                            new_len >= 1,
                    ;
                    assert(new_num > 0) by (nonlinear_arith)
                        requires
                            new_num as int * crate::solution::obj_den(inc_pre)
                                > crate::solution::obj_num(inc_pre) * (new_len as int),
                            crate::solution::obj_num(inc_pre) * (new_len as int) >= 0,
                            crate::solution::obj_den(inc_pre) >= 1,
                    ;
                    // the result holds the core and the anchored candidate,
                    // which is no member of the input solution
                    assert(t.v@.contains(i) && i != 0usize);
                    assert(qs.contains(i));
                    let ki = choose|k: int| 0 <= k < qs.len() && qs[k] == i;
                    assert(nv@ == cvs + qs.map_values(mapf));
                    assert(qs.map_values(mapf)[ki] == mapf(qs[ki]));
                    assert(nv@[cvs.len() + ki] == sub.map@[i as int]);
                    assert(nv@.contains(sub.map@[i as int]));
                    assert(!s.v@.contains(sub.map@[i as int]));
                    assert(holds_outside_vertex(inc, *s));
                    assert(inc.len == cvs.len() + qs.len());
                    assert(inc.len >= 2);
                }
                nb_imp = tr;
            }
            i = i + 1;
        }

        proof {
            inc.lemma_cmp_ok(*inst);
        }
        if inc.better(s) {
            break;
        }
        tr = tr + 1;
    }
    (inc, nb_imp)
}

/// Build an initial solution from one seed vertex: add it and polish with a
/// depth-0 tabu search.
#[verifier::loop_isolation(false)]
pub fn initial_solution(inst: &Instance, seed_vertex: usize) -> (s: Solution)
    requires
        inst.wf(),
        inst.n >= 2,
        seed_vertex < inst.n,
    ensures
        s.wf(*inst),
        s.len >= 1,
{
    let mut s = Solution::new(inst);
    s.add(inst, seed_vertex);
    ts(inst, &mut s, 0, 0, None, None);
    s
}

/// The multistart controller: for each round, seed a solution from a random
/// unused vertex, repeatedly apply the decomposer, mark every vertex that
/// joined or left as tabu, and shake the round incumbent when the search
/// stagnates; the global best over all rounds is returned.  Rounds end when
/// the shake budget is spent and the whole search ends when the time limit
/// or the round limit is reached — with a zero time limit the returned
/// solution is empty.
///
/// The stagnation counter counts iterations in which the working solution
/// failed to improve (not the round incumbent), and size-one solutions are
/// allowed throughout, with objective zero by convention.
///
/// The budgets decide the empty outcome: with a zero time limit or a zero
/// round limit no round runs and the empty solution comes back; and since
/// the global best is only ever replaced by a strictly better incumbent, a
/// non-empty result always has a positive total.
#[verifier::loop_isolation(false)]
#[verifier::rlimit(100)]
pub fn vlnsheuristic(inst: &Instance, opt: &Options) -> (best: Solution)
    requires
        inst.wf(),
        inst.base_bounded(),
        inst.n >= 2,
        opt.ok(),
    ensures
        best.wf(*inst),
        opt.time_limit == 0 ==> best.len == 0,
        opt.max_iter == 0 ==> best.len == 0,
        best.len > 0 ==> best.total_cost > 0,
{
    let mut best = Solution::new(inst);
    let mut it_outer: usize = 0;
    let timer = Timer::new(opt.time_limit);

    let mut starts: Vec<usize> = Vec::new();
    let mut i: usize = 0;
    while i < inst.n
        invariant
            0 <= i <= inst.n,
            starts@.len() == i,
            forall|q: int| 0 <= q < i ==> #[trigger] starts@[q] == q,
        decreases inst.n - i,
    {
        starts.push(i);
        i = i + 1;
    }
    let ghost base = starts@;
    shuffle_usizes(&mut starts);
    proof {
        base.to_multiset_ensures();
        starts@.to_multiset_ensures();
        assert forall|q: int| 0 <= q < starts@.len() implies #[trigger] starts@[q] < inst.n by {
            assert(starts@.contains(starts@[q]));
            assert(starts@.to_multiset().count(starts@[q]) > 0);
            assert(base.contains(starts@[q]));
            let w = choose|w: int| 0 <= w < base.len() && base[w] == starts@[q];
            assert(base[w] == w as usize);
        }
    }

    let mut idx: usize = 0;
    while idx < starts.len()
        invariant
            0 <= idx <= starts@.len(),
            forall|q: int| 0 <= q < starts@.len() ==> #[trigger] starts@[q] < inst.n,
            best.wf(*inst),
            it_outer <= opt.max_iter,
            opt.time_limit == 0 ==> best.len == 0,
            opt.max_iter == 0 ==> best.len == 0,
            best.len > 0 ==> best.total_cost > 0,
        decreases starts@.len() - idx,
    {
        let start = starts[idx];
        let mut s = initial_solution(inst, start);
        if it_outer >= opt.max_iter || timer.timed_out() {
            break;
        }
        it_outer = it_outer + 1;

        proof {
            s.lemma_cmp_ok(*inst);
            assert(s.len * (opt.shake_size as int) <= MAX_N * 1000) by (nonlinear_arith)
                requires 0 <= s.len <= MAX_N, opt.shake_size <= 1000,
            ;
        }
        let shake_size: usize = (s.len * (opt.shake_size as usize)) / 1000;

        let mut shakes: usize = 0;
        let mut iters_wo_impr: usize = 0;
        let mut inc = s.duplicate();
        let mut tabu = TabuList::new(inst.n, opt.tenure);
        let mut it_inner: u64 = 0;
        let mut done: bool = false;

        while !done
            invariant
                s.wf(*inst),
                done || s.len >= 1,
                inc.wf(*inst),
                best.wf(*inst),
                opt.time_limit == 0 ==> best.len == 0,
                opt.max_iter == 0 ==> best.len == 0,
                best.len > 0 ==> best.total_cost > 0,
                tabu.wf(),
                tabu.tabu@.len() == inst.n,
                shake_size <= MAX_N,
                done || iters_wo_impr <= opt.max_iter_wo_impr,
                done || shakes <= opt.max_shakes,
                it_inner <= 0x4000000000000000u64,
            decreases (if done { 0int } else { 1int }), 0x4000000000000000 - it_inner,
        {
            if timer.timed_out() {
                done = true;
            } else if it_inner >= 0x4000000000000000u64 {
                // counter guard: at this bound the round has long stagnated
                done = true;
            } else {
                it_inner = it_inner + 1;

                let round = vlns_iter(inst, &s, opt.subp_alpha, &tabu, opt);
                let new_s = round.0;
                if new_s.len == 0 {
                    // no candidate beat an empty solution (possible only under
                    // heavy tabu); treat the round as stagnated
                    done = true;
                } else {
                    proof {
                        new_s.lemma_cmp_ok(*inst);
                        s.lemma_cmp_ok(*inst);
                        inc.lemma_cmp_ok(*inst);
                        best.lemma_cmp_ok(*inst);
                    }
                    let improved_last_s = new_s.better(&s);
                    assign_and_update_tabu(inst, &mut s, new_s, &mut tabu);
                    if tabu.iter < ITER_MAX {
                        tabu.advance_iter();
                    }

                    let improved_inc = s.better(&inc);
                    if !improved_inc {
                        if !improved_last_s {
                            iters_wo_impr = iters_wo_impr + 1;
                        }
                        if iters_wo_impr > opt.max_iter_wo_impr {
                            shakes = shakes + 1;
                            if shakes > opt.max_shakes {
                                done = true;
                            } else {
                                s = inc.duplicate();
                                proof {
                                    assert(s.wf(*inst));
                                }
                                shake(inst, &mut s, shake_size, opt.shake_alpha);
                                tabu.reset();
                                iters_wo_impr = 0;
                                if s.len == 0 {
                                    // the shake emptied the solution; end the round
                                    done = true;
                                }
                            }
                        }
                    } else {
                        iters_wo_impr = 0;
                    }

                    if !done {
                        proof {
                            s.lemma_cmp_ok(*inst);
                            inc.lemma_cmp_ok(*inst);
                        }
                        if inc.consider(&s) {
                            proof {
                                assert(inc.wf(*inst));
                                inc.lemma_cmp_ok(*inst);
                            }
                            let ghost best_pre = best;
                            if best.consider(&inc) {
                                proof {
                                    assert(best.wf(*inst));
                                    Solution::lemma_strictly_better_is_positive(best_pre, inc);
                                }
                                shakes = 0;
                            }
                        }
                    }
                }
            }
        }
        // the round is over: its incumbent may still beat the global best
        proof {
            inc.lemma_cmp_ok(*inst);
            best.lemma_cmp_ok(*inst);
        }
        let ghost best_pre = best;
        if best.consider(&inc) {
            proof {
                assert(best.wf(*inst));
                Solution::lemma_strictly_better_is_positive(best_pre, inc);
            }
        }
        idx = idx + 1;
    }
    best
}

/// Whether an instance is small enough to route through the exact solver
/// path (one exact solve per target size) instead of the heuristic.
pub fn uses_exact_path(n: usize, subp_sz: usize) -> (r: bool)
    requires
        subp_sz < usize::MAX,
    ensures
        r == (n <= subp_sz + 1),
{
    n <= subp_sz + 1
}

/// The decision step of the exact fallback: given the member list an exact
/// solver returned for target size `sz`, validate it, compute its exact
/// bookkeeping, and replace the incumbent when the candidate is strictly
/// better.  Returns whether the incumbent was replaced; an invalid candidate
/// (wrong size, an index out of range, a duplicate) leaves it unchanged.
#[verifier::loop_isolation(false)]
pub fn consider_exact_candidate(
    inst: &Instance,
    best: &mut Solution,
    members: &Vec<usize>,
    sz: usize,
) -> (r: bool)
    requires
        inst.wf(),
        old(best).wf(*inst),
    ensures
        final(best).wf(*inst),
        r ==> final(best).v@ == members@,
        !r ==> *final(best) == *old(best),
        r == (members@.len() == sz && valid_members(members@, inst.n as int) && pair_sum(
            inst.dm(),
            members@,
        ) * crate::solution::obj_den(*old(best)) > crate::solution::obj_num(*old(best)) * (
        if sz == 0 {
            1int
        } else {
            sz as int
        })),
{
    if members.len() != sz {
        return false;
    }
    // validate: all indices in range, no duplicates
    let mut seen: Vec<bool> = vec![false; inst.n];
    let mut k: usize = 0;
    while k < members.len()
        invariant
            0 <= k <= members@.len(),
            seen@.len() == inst.n,
            forall|q: int| 0 <= q < k ==> #[trigger] members@[q] < inst.n,
            forall|x: int|
                0 <= x < inst.n ==> #[trigger] seen@[x] == members@.take(k as int).contains(
                    x as usize,
                ),
            forall|q1: int, q2: int|
                0 <= q1 < k && 0 <= q2 < k && q1 != q2 ==> #[trigger] members@[q1]
                    != #[trigger] members@[q2],
        decreases members@.len() - k,
    {
        let x = members[k];
        if x >= inst.n {
            proof {
                assert(members@[k as int] == x);
                assert(!valid_members(members@, inst.n as int));
            }
            return false;
        }
        if seen[x] {
            proof {
                assert(members@[k as int] == x);
                assert(members@.take(k as int).contains(x));
                let i = choose|i: int| 0 <= i < k as int && members@.take(k as int)[i] == x;
                assert(members@[i] == x && i != k as int);
                assert(!members@.no_duplicates());
            }
            return false;
        }
        proof {
            assert(members@[k as int] == x);
            assert forall|y: usize| #[trigger] members@.take(k + 1).contains(y)
                <==> (members@.take(k as int).contains(y) || y == x) by {
                lemma_push_contains(members@.take(k as int), x, y);
                assert(members@.take(k + 1) =~= members@.take(k as int).push(x));
            }
            assert forall|q: int| 0 <= q < k implies members@[q] != x by {
                if members@[q] == x {
                    assert(members@.take(k as int)[q] == x);
                    assert(members@.take(k as int).contains(x));
                }
            }
        }
        seen[x] = true;
        k = k + 1;
    }
    proof {
        assert(members@.take(members@.len() as int) =~= members@);
        assert(members@.no_duplicates());
    }

    let mut t = Solution::new(inst);
    t.v = copy_vec(members);
    t.recompute_from_v(inst);
    proof {
        t.lemma_cmp_ok(*inst);
        best.lemma_cmp_ok(*inst);
    }
    if t.better(best) {
        *best = t;
        true
    } else {
        false
    }
}

} // verus!

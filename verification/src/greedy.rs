//! The tabu search engine: a steepest add/remove local search under tabu
//! constraints, optionally anchored by a forced vertex and an aggregated
//! core occupying slot 0 of the working vertex space.

use vstd::prelude::*;
use crate::instance::{Instance, EDGE_MAX, MAX_N};
use crate::ratio::{ratio_gr, lemma_ratio_ge_trans, lemma_ratio_gt_trans};
use crate::rng::ReservoirSampling;
use crate::solution::{Solution, copy_vec};
use crate::sums::{
    row_sum, lemma_concat_contains, lemma_members_in_range_len,
    lemma_missing_vertex, lemma_pair_sum_nonneg, lemma_pair_sum_remove, lemma_push_contains,
    lemma_push_no_dup, lemma_row_sum_bound, lemma_row_sum_nonneg, lemma_row_sum_push,
    lemma_row_sum_remove, lemma_row_sum_subset, lemma_subseq_len, lemma_subseq_missing,
};
use crate::tabu::{TabuList, is_tabu_spec, ITER_MAX, TENURE_MAX};

verus! {

/// A vertex the insertion heuristic may still pick after `picked`: inside
/// the instance, outside the solution, not tabu, not already picked.
pub open spec fn ins_eligible(
    inst: Instance,
    s: Solution,
    tl: Option<&TabuList>,
    picked: Seq<usize>,
    x: int,
) -> bool {
    &&& 0 <= x < inst.n
    &&& !s.has@[x]
    &&& (match tl {
        Some(t) => !is_tabu_spec(*t, x),
        None => true,
    })
    &&& !picked.contains(x as usize)
}

/// Marginal insertion cost of `x` once `picked` have been chosen: its
/// distances to the members plus its distances to the earlier picks.
pub open spec fn ins_marg(inst: Instance, s: Solution, picked: Seq<usize>, x: int) -> int {
    s.cost@[x] as int + row_sum(inst.dm(), x, picked)
}

/// `x` is the pick a pure greedy insertion step makes: eligible, of maximal
/// marginal cost, lowest index among ties.
pub open spec fn ins_greedy_pick(
    inst: Instance,
    s: Solution,
    tl: Option<&TabuList>,
    picked: Seq<usize>,
    x: usize,
) -> bool {
    &&& ins_eligible(inst, s, tl, picked, x as int)
    &&& forall|y: int|
        #[trigger] ins_eligible(inst, s, tl, picked, y) ==> ins_marg(inst, s, picked, y)
            < ins_marg(inst, s, picked, x as int)
            || (ins_marg(inst, s, picked, y) == ins_marg(inst, s, picked, x as int)
                && x <= y)
}

/// `x` is a pick the relaxed greedy step can make: the pure greedy pick
/// itself, or — when `alpha > 0` admits it — some vertex within the relative
/// window of the best marginal cost.
pub open spec fn ins_pick_ok(
    inst: Instance,
    s: Solution,
    tl: Option<&TabuList>,
    picked: Seq<usize>,
    alpha: u32,
    x: usize,
) -> bool {
    exists|b: usize|
        ins_greedy_pick(inst, s, tl, picked, b) && (x == b || ins_window(
            inst,
            s,
            picked,
            alpha,
            b as int,
            x as int,
        ))
}

/// `x` lies within the relative window `alpha` (per mille) of the best
/// marginal cost, held by `b`.
pub open spec fn ins_window(
    inst: Instance,
    s: Solution,
    picked: Seq<usize>,
    alpha: u32,
    b: int,
    x: int,
) -> bool {
    &&& ins_marg(inst, s, picked, b) > 0
    &&& (ins_marg(inst, s, picked, b) - ins_marg(inst, s, picked, x)) * 1000
        < alpha * ins_marg(inst, s, picked, b)
}

/// Largest precomputed internal cost a core may carry: 2^78, the largest
/// total a well-formed solution can reach.
pub const CORE_COST_MAX: u128 = 0x40000000000000000000;

/// An aggregated core: original-instance vertices frozen together, with the
/// sum of their pairwise distances precomputed once.  Inside the search the
/// whole group is represented by slot 0 of the working vertex space.
pub struct Core {
    /// The frozen vertices, in original-instance indices.
    pub vs: Vec<usize>,
    /// Sum of pairwise distances among them.
    pub cost: u128,
}

/// How many vertices beyond slot 0 the core stands for.
pub open spec fn core_extra(core: Option<&Core>) -> int {
    match core {
        Some(c) => c.vs@.len() - 1,
        None => 0,
    }
}

/// The first movable slot: slot 0 is frozen when a core is present.
pub open spec fn core_first(core: Option<&Core>) -> int {
    match core {
        Some(_) => 1,
        None => 0,
    }
}

/// The internal cost the core contributes to every objective value.
pub open spec fn core_cost_sp(core: Option<&Core>) -> int {
    match core {
        Some(c) => c.cost as int,
        None => 0,
    }
}

/// Objective numerator after moving vertex `y` in state `s` (removing it if
/// it is a member, adding it otherwise), the core cost `cc` included.
pub open spec fn move_gain_num(s: Solution, cc: int, y: int) -> int {
    if s.has@[y] {
        s.total_cost + cc - s.cost@[y]
    } else {
        s.total_cost + cc + s.cost@[y]
    }
}

/// Objective denominator after moving vertex `y`, the core's extra size `cx`
/// included.
pub open spec fn move_gain_den(s: Solution, cx: int, y: int) -> int {
    if s.has@[y] {
        s.len + cx - 1
    } else {
        s.len + cx + 1
    }
}

/// Vertex `y` may be moved in state `s`: inside the working space, not tabu,
/// neither the forced vertex nor the core slot, and — when it is a member —
/// not the last occupant.
pub open spec fn ts_movable(
    s: Solution,
    tl: TabuList,
    force_in: Option<usize>,
    n: int,
    first: int,
    cx: int,
    y: int,
) -> bool {
    &&& first <= y < n
    &&& !is_tabu_spec(tl, y)
    &&& (match force_in {
        Some(u) => y != u as int,
        None => true,
    })
    &&& (s.has@[y] ==> s.len + cx > 1)
}

/// A single admissible move from `s` whose post-move objective strictly
/// beats `s`'s own (the core counted on both sides).
pub open spec fn improving_move(
    s: Solution,
    force_in: Option<usize>,
    n: int,
    first: int,
    cx: int,
    cc: int,
    y: int,
) -> bool {
    &&& first <= y < n
    &&& (match force_in {
        Some(u) => y != u as int,
        None => true,
    })
    &&& (s.has@[y] ==> s.len + cx > 1)
    &&& move_gain_num(s, cc, y) * (s.len + cx) > (s.total_cost + cc) * move_gain_den(s, cx, y)
}

/// One selection scan of the tabu search: find the movable vertex whose
/// post-move objective is maximal (lowest index among exact ties), or report
/// that no vertex is movable.  Returns `(have, best_i, best_num, best_den)`.
#[verifier::loop_isolation(false)]
#[verifier::rlimit(100)]
fn scan_best_move(
    inst: &Instance,
    shadow: &Solution,
    tabu: &TabuList,
    force_in: Option<usize>,
    first: usize,
    cx: usize,
    cc: u128,
) -> (r: (bool, usize, u128, usize))
    requires
        shadow.wf(*inst),
        shadow.len >= 1,
        tabu.wf(),
        tabu.tabu@.len() == inst.n,
        first <= 1,
        cx < MAX_N,
        cc <= CORE_COST_MAX,
    ensures
        ({
            let (have, best_i, best_num, best_den) = r;
            let len_aug = shadow.len + cx;
            &&& (have ==> first <= best_i < inst.n)
            &&& (have ==> (match force_in {
                Some(u) => best_i != u,
                None => true,
            }))
            &&& (have ==> 1 <= best_den <= 0x20001)
            &&& (have ==> best_num <= 0x200000000000000000000)
            &&& (have ==> (if shadow.has@[best_i as int] {
                &&& len_aug > 1
                &&& best_num as int == shadow.total_cost as int + cc as int
                    - shadow.cost@[best_i as int] as int
                &&& best_den == len_aug - 1
            } else {
                &&& best_num as int == shadow.total_cost as int + cc as int
                    + shadow.cost@[best_i as int] as int
                &&& best_den == len_aug + 1
            }))
            &&& forall|y: int|
                #[trigger] ts_movable(*shadow, *tabu, force_in, inst.n as int, first as int,
                    cx as int, y) ==> have && move_gain_num(*shadow, cc as int, y) * (
                best_den as int) <= (best_num as int) * move_gain_den(*shadow, cx as int, y)
        }),
{
    let ghost d = inst.dm();
    proof {
        shadow.lemma_cmp_ok(*inst);
    }
    let len_aug: usize = shadow.len + cx;

    let mut best_i: usize = 0;
    let mut best_num: u128 = 0;
    let mut best_den: usize = 1;
    let mut have: bool = false;
    let mut i: usize = first;
    while i < inst.n
        invariant
            first <= i <= inst.n,
            len_aug == shadow.len + cx,
            have ==> first <= best_i < inst.n,
            have ==> (match force_in {
                Some(u) => best_i != u,
                None => true,
            }),
            have ==> 1 <= best_den <= 0x20001,
            have ==> best_num <= 0x200000000000000000000,
            have ==> (if shadow.has@[best_i as int] {
                &&& len_aug > 1
                &&& best_num as int == shadow.total_cost as int + cc as int
                    - shadow.cost@[best_i as int] as int
                &&& best_den == len_aug - 1
            } else {
                &&& best_num as int == shadow.total_cost as int + cc as int
                    + shadow.cost@[best_i as int] as int
                &&& best_den == len_aug + 1
            }),
            forall|y: int|
                first <= y < i && #[trigger] ts_movable(*shadow, *tabu, force_in,
                    inst.n as int, first as int, cx as int, y) ==> have && move_gain_num(
                    *shadow,
                    cc as int,
                    y,
                ) * (best_den as int) <= (best_num as int) * move_gain_den(
                    *shadow,
                    cx as int,
                    y,
                ),
        decreases inst.n - i,
    {
        let skip = match force_in {
            Some(u) => i == u,
            None => false,
        };
        if !skip && !tabu.is_tabu(i) {
            if shadow.has[i] {
                if len_aug > 1 {
                    proof {
                        let m = shadow.v@;
                        assert(m.contains(i));
                        let k = choose|k: int| 0 <= k < m.len() && m[k] == i;
                        lemma_pair_sum_remove(d, inst.n as int, EDGE_MAX as int, m, k);
                        lemma_row_sum_remove(d, i as int, m, k);
                        lemma_pair_sum_nonneg(d, m.remove(k));
                        assert(d[i as int][i as int] == 0);
                    }
                    let num = shadow.total_cost + cc - shadow.cost[i];
                    let den = len_aug - 1;
                    if !have || ratio_gr(num, den as u128, best_num, best_den as u128) {
                        proof {
                            assert forall|y: int|
                                first <= y < i && #[trigger] ts_movable(*shadow, *tabu,
                                    force_in, inst.n as int, first as int, cx as int, y)
                                implies move_gain_num(*shadow, cc as int, y) * (den as int)
                                    <= (num as int) * move_gain_den(*shadow, cx as int, y) by {
                                lemma_ratio_ge_trans(
                                    num as int,
                                    den as int,
                                    best_num as int,
                                    best_den as int,
                                    move_gain_num(*shadow, cc as int, y),
                                    move_gain_den(*shadow, cx as int, y),
                                );
                            }
                        }
                        have = true;
                        best_i = i;
                        best_num = num;
                        best_den = den;
                    }
                }
            } else {
                proof {
                    lemma_row_sum_bound(d, inst.n as int, EDGE_MAX as int, i as int, shadow.v@);
                    assert(
                        shadow.v@.len() * (EDGE_MAX as int) <= (MAX_N as int) * (EDGE_MAX as int)
                    ) by (nonlinear_arith)
                        requires 0 <= shadow.v@.len() <= MAX_N,
                    ;
                }
                let num = shadow.total_cost + cc + shadow.cost[i];
                let den = len_aug + 1;
                if !have || ratio_gr(num, den as u128, best_num, best_den as u128) {
                    proof {
                        assert forall|y: int|
                            first <= y < i && #[trigger] ts_movable(*shadow, *tabu, force_in,
                                inst.n as int, first as int, cx as int, y)
                            implies move_gain_num(*shadow, cc as int, y) * (den as int)
                                <= (num as int) * move_gain_den(*shadow, cx as int, y) by {
                            lemma_ratio_ge_trans(
                                num as int,
                                den as int,
                                best_num as int,
                                best_den as int,
                                move_gain_num(*shadow, cc as int, y),
                                move_gain_den(*shadow, cx as int, y),
                            );
                        }
                    }
                    have = true;
                    best_i = i;
                    best_num = num;
                    best_den = den;
                }
            }
        }
        i = i + 1;
    }
    (have, best_i, best_num, best_den)
}

/// Steepest-move tabu search.  Drives `s` to a local optimum: in every
/// iteration the non-tabu move (adding an outside vertex or dropping a
/// member) with the best resulting objective is applied, even when it
/// worsens the objective; `s` receives a snapshot whenever the working state
/// strictly improves on the best objective seen, and the search stops after
/// `max_iter_w_impr` consecutive non-improving applied moves.
///
/// An empty `s` is seeded with the endpoints of a globally maximal edge
/// (lowest indices among ties) and the seed is materialized at once, so the
/// search always returns at least one vertex — two when seeded empty.  A
/// forced vertex is added up front (and materialized) and never moved; with
/// a `core`, slot 0 stands for `core.vs` and is never moved, and every
/// objective counts the core's extra size and internal cost.  On return `s`
/// is well-formed, holds its anchors, and (when it was seeded non-empty
/// with any forced vertex already present) its core-augmented objective
/// never decreased — strictly increased whenever the seed state admitted
/// any strictly improving move.
#[verifier::loop_isolation(false)]
#[verifier::rlimit(100)]
pub fn ts(
    inst: &Instance,
    s: &mut Solution,
    tenure: usize,
    max_iter_w_impr: usize,
    force_in: Option<usize>,
    core: Option<&Core>,
)
    requires
        old(s).wf(*inst),
        inst.n >= 2,
        tenure <= TENURE_MAX,
        max_iter_w_impr < usize::MAX,
        (match force_in {
            Some(u) => u < inst.n,
            None => true,
        }),
        (match core {
            Some(c) => {
                &&& 1 <= c.vs@.len() <= MAX_N
                &&& c.cost <= CORE_COST_MAX
                &&& old(s).len > 0
                &&& old(s).v@.contains(0usize)
            },
            None => true,
        }),
    ensures
        final(s).wf(*inst),
        final(s).len >= 1,
        old(s).len == 0 ==> final(s).len >= 2,
        (match force_in {
            Some(u) => final(s).v@.contains(u),
            None => true,
        }),
        (match core {
            Some(_) => final(s).v@.contains(0usize),
            None => true,
        }),
        (old(s).len > 0 && (match force_in {
            Some(u) => old(s).v@.contains(u),
            None => true,
        })) ==> (final(s).total_cost + core_cost_sp(core)) * (old(s).len + core_extra(core))
            >= (old(s).total_cost + core_cost_sp(core)) * (final(s).len + core_extra(core)),
        (old(s).len > 0 && (match force_in {
            Some(u) => old(s).v@.contains(u),
            None => true,
        }) && (exists|y: int|
            #[trigger] improving_move(
                *old(s),
                force_in,
                inst.n as int,
                core_first(core),
                core_extra(core),
                core_cost_sp(core),
                y,
            ))) ==> (final(s).total_cost + core_cost_sp(core)) * (old(s).len + core_extra(core))
            > (old(s).total_cost + core_cost_sp(core)) * (final(s).len + core_extra(core)),
{
    let ghost d = inst.dm();
    let (cx, cc): (usize, u128) = match core {
        Some(c) => (c.vs.len() - 1, c.cost),
        None => (0, 0),
    };
    let first: usize = match core {
        Some(_) => 1,
        None => 0,
    };
    let ghost seed_eq: bool = old(s).len > 0 && (match force_in {
        Some(u) => old(s).v@.contains(u),
        None => true,
    });
    proof {
        assert(cx as int == core_extra(core));
        assert(cc as int == core_cost_sp(core));
        assert(first as int == core_first(core));
    }
    let ghost shi: bool = exists|y: int|
        improving_move(*old(s), force_in, inst.n as int, first as int, cx as int, cc as int, y);
    let ghost mut first_it: bool = true;

    let mut tabu = TabuList::new(inst.n, tenure);
    let mut iter_w: usize = 0;

    let mut shadow: Solution;
    if s.len == 0 {
        // seed with the endpoints of a globally maximal edge
        shadow = Solution::new(inst);
        let mut bi: usize = 0;
        let mut bj: usize = 1;
        let mut bw: u64 = inst.dist(0, 1);
        let mut i: usize = 0;
        while i < inst.n
            invariant
                0 <= i <= inst.n,
                bi < inst.n,
                bj < inst.n,
                bi != bj,
            decreases inst.n - i,
        {
            let mut j: usize = i + 1;
            while j < inst.n
                invariant
                    i < inst.n,
                    i + 1 <= j <= inst.n,
                    bi < inst.n,
                    bj < inst.n,
                    bi != bj,
                decreases inst.n - j,
            {
                let w = inst.dist(i, j);
                if w > bw {
                    bi = i;
                    bj = j;
                    bw = w;
                }
                j = j + 1;
            }
            i = i + 1;
        }
        shadow.add(inst, bi);
        proof {
            if shadow.v@.contains(bj) {
                let k = choose|k: int| 0 <= k < shadow.v@.len() && shadow.v@[k] == bj;
                assert(false);
            }
        }
        shadow.add(inst, bj);
        // materialize the seed at once: the search never returns an empty
        // solution
        *s = shadow.duplicate();
    } else {
        shadow = s.duplicate();
    }

    if let Some(u) = force_in {
        if !shadow.has[u] {
            let ghost m0 = shadow.v@;
            shadow.add(inst, u);
            proof {
                assert(shadow.v@[m0.len() as int] == u);
                assert(shadow.v@.contains(u));
                if m0.contains(0usize) {
                    let k = choose|k: int| 0 <= k < m0.len() && m0[k] == 0usize;
                    assert(shadow.v@[k] == 0usize);
                    assert(shadow.v@.contains(0usize));
                }
            }
            // materialize the forced addition, so the anchor is always held
            *s = shadow.duplicate();
        } else {
            proof {
                assert(shadow.v@.contains(u));
                assert(s.v@.contains(u));
            }
        }
    }
    proof {
        shadow.lemma_cmp_ok(*inst);
        assert(shadow.len >= 1);
    }

    let mut inc_num: u128 = shadow.total_cost + cc;
    let mut inc_den: usize = shadow.len + cx;
    let ghost init_num: int = inc_num as int;
    let ghost init_den: int = inc_den as int;
    proof {
        assert(seed_eq ==> init_num == old(s).total_cost + cc && init_den == old(s).len + cx);
        assert(init_num >= 0 && init_den >= 1);
    }

    let mut done: bool = false;
    while !done
        invariant
            shadow.wf(*inst),
            shadow.len >= 1,
            (match force_in {
                Some(u) => shadow.v@.contains(u),
                None => true,
            }),
            (match core {
                Some(_) => shadow.v@.contains(0usize),
                None => true,
            }),
            tabu.wf(),
            tabu.tabu@.len() == inst.n,
            tabu.iter <= ITER_MAX,
            s.wf(*inst),
            s.len >= 1,
            old(s).len == 0 ==> s.len >= 2,
            (match force_in {
                Some(u) => s.v@.contains(u),
                None => true,
            }),
            (match core {
                Some(_) => s.v@.contains(0usize),
                None => true,
            }),
            1 <= inc_den <= 0x20000,
            inc_num <= 0x100000000000000000000,
            inc_num as int * init_den >= init_num * (inc_den as int),
            seed_eq ==> inc_num == s.total_cost + cc && inc_den as int == s.len + cx,
            done || iter_w <= max_iter_w_impr,
            first_it ==> !done,
            first_it ==> tabu.iter == 1 && (forall|u: int|
                0 <= u < inst.n ==> !is_tabu_spec(tabu, u)),
            first_it && seed_eq ==> shadow.v@ == old(s).v@ && shadow.len == old(s).len
                && shadow.total_cost == old(s).total_cost && shadow.cost@ == old(s).cost@
                && shadow.has@ == old(s).has@,
            first_it ==> inc_num as int == init_num && inc_den as int == init_den,
            (!first_it && seed_eq && shi) ==> inc_num as int * init_den > init_num * (
            inc_den as int),
        decreases (if done { 0int } else { 1int }), ITER_MAX - tabu.iter,
    {
        proof {
            shadow.lemma_cmp_ok(*inst);
        }
        // scan all movable vertices for the best post-move objective
        let scan = scan_best_move(inst, &shadow, &tabu, force_in, first, cx, cc);
        let have = scan.0;
        let best_i = scan.1;
        let best_num = scan.2;
        let best_den = scan.3;

        proof {
            if first_it && seed_eq && shi {
                // on the first pass the working state is the seed state and
                // nothing is tabu, so the scan saw the improving move and
                // kept a best move at least as good
                let y = choose|y: int|
                    improving_move(*old(s), force_in, inst.n as int, first as int, cx as int,
                        cc as int, y);
                assert(move_gain_num(shadow, cc as int, y) == move_gain_num(*old(s), cc as int, y));
                assert(move_gain_den(shadow, cx as int, y) == move_gain_den(*old(s), cx as int, y));
                assert(ts_movable(shadow, tabu, force_in, inst.n as int, first as int, cx as int,
            y));
                assert(have);
                if old(s).has@[y] {
                    // a member's removal cost never exceeds the total
                    assert(shadow.v@.contains(y as usize));
                    let k = choose|k: int| 0 <= k < shadow.v@.len() && shadow.v@[k] == y as usize;
                    lemma_pair_sum_remove(d, inst.n as int, EDGE_MAX as int, shadow.v@, k);
                    lemma_row_sum_remove(d, y, shadow.v@, k);
                    lemma_pair_sum_nonneg(d, shadow.v@.remove(k));
                    assert(d[y][y] == 0);
                }
                assert(move_gain_num(*old(s), cc as int, y) >= 0);
                lemma_ratio_gt_trans(
                    best_num as int,
                    best_den as int,
                    move_gain_num(*old(s), cc as int, y),
                    move_gain_den(*old(s), cx as int, y),
                    init_num,
                    init_den,
                );
                assert(best_num as int * init_den > init_num * (best_den as int));
            }
        }

        if tabu.iter >= ITER_MAX {
            // counter guard: at this bound the budgeted search has long stagnated
            done = true;
        } else {
        tabu.advance_iter();
        if have {

        let ghost m_before = shadow.v@;
        if shadow.has[best_i] {
            proof {
                assert(m_before.contains(best_i));
                if first == 1 {
                    // a core is present: slot 0 is a member distinct from best_i
                    assert(m_before.contains(0usize));
                    let k0 = choose|k: int| 0 <= k < m_before.len() && m_before[k] == 0usize;
                    let k1 = choose|k: int| 0 <= k < m_before.len() && m_before[k] == best_i;
                    assert(best_i != 0usize);
                    assert(k0 != k1);
                    assert(m_before.len() >= 2);
                } else {
                    assert(cx == 0);
                    assert(shadow.len > 1);
                }
            }
            shadow.remove(inst, best_i);
        } else {
            shadow.add(inst, best_i);
            proof {
                assert(shadow.v@[m_before.len() as int] == best_i);
                if let Some(u) = force_in {
                    let k = choose|k: int| 0 <= k < m_before.len() && m_before[k] == u;
                    assert(shadow.v@[k] == u);
                }
                if first == 1 {
                    let k = choose|k: int| 0 <= k < m_before.len() && m_before[k] == 0usize;
                    assert(shadow.v@[k] == 0usize);
                }
            }
        }
        tabu.add(best_i);

        proof {
            shadow.lemma_cmp_ok(*inst);
        }
        let cur_num: u128 = shadow.total_cost + cc;
        let cur_den: usize = shadow.len + cx;
        assert(cur_num == best_num && cur_den == best_den);

        let improved = ratio_gr(cur_num, cur_den as u128, inc_num, inc_den as u128);
        if improved {
            proof {
                if old(s).len == 0 {
                    // an empty seed has no core, so a strict improvement over
                    // the non-negative incumbent means a positive total and
                    // hence at least two members
                    assert(cc == 0);
                    assert(inc_num as int * (cur_den as int) >= 0) by (nonlinear_arith)
                        requires inc_num >= 0, cur_den >= 1,
                    ;
                    assert(cur_num > 0) by (nonlinear_arith)
                        requires
                            cur_num as int * (inc_den as int) > inc_num as int * (
                            cur_den as int),
                            inc_num as int * (cur_den as int) >= 0,
                            inc_den >= 1,
                    ;
                    shadow.lemma_objective_bounds(*inst);
                    assert(shadow.len >= 2);
                }
                if !first_it && seed_eq && shi {
                    lemma_ratio_gt_trans(
                        cur_num as int,
                        cur_den as int,
                        inc_num as int,
                        inc_den as int,
                        init_num,
                        init_den,
                    );
                }
                lemma_ratio_ge_trans(
                    cur_num as int,
                    cur_den as int,
                    inc_num as int,
                    inc_den as int,
                    init_num,
                    init_den,
                );
            }
            inc_num = cur_num;
            inc_den = cur_den;
            *s = shadow.duplicate();
            iter_w = 0;
        } else {
            proof {
                if first_it && seed_eq && shi {
                    // the first applied move is the best one, which strictly
                    // beats the seed incumbent, so it must have improved
                    assert(false);
                }
            }
            iter_w = iter_w + 1;
            if iter_w >= max_iter_w_impr {
                done = true;
            }
        }

        }
        // when every candidate is tabu no move is applied and the search goes on
        }
        proof {
            first_it = false;
        }
    }
}

/// The picking state of `insertion_order`: the picks so far are distinct
/// non-members below `n`, `blocked` marks members and picks, and `cta` holds
/// every vertex's current marginal insertion cost.
pub open spec fn ins_state_ok(
    inst: Instance,
    s: Solution,
    ans: Seq<usize>,
    blocked: Seq<bool>,
    cta: Seq<u128>,
) -> bool {
    &&& ans.no_duplicates()
    &&& forall|k: int| 0 <= k < ans.len() ==> #[trigger] ans[k] < inst.n
    &&& (s.v@ + ans).no_duplicates()
    &&& blocked.len() == inst.n
    &&& forall|x: int|
        0 <= x < inst.n ==> #[trigger] blocked[x] == (s.has@[x] || ans.contains(x as usize))
    &&& cta.len() == inst.n
    &&& forall|x: int| 0 <= x < inst.n ==> #[trigger] cta[x] as int == ins_marg(inst, s, ans, x)
    &&& s.v@.len() + ans.len() <= inst.n
}

/// Record pick `j`: append it, block it, and push its distances into every
/// marginal cost.
#[verifier::loop_isolation(false)]
fn ins_apply_pick(
    inst: &Instance,
    s: &Solution,
    ans: &mut Vec<usize>,
    blocked: &mut Vec<bool>,
    cta: &mut Vec<u128>,
    j: usize,
)
    requires
        s.wf(*inst),
        ins_state_ok(*inst, *s, old(ans)@, old(blocked)@, old(cta)@),
        j < inst.n,
        !s.has@[j as int],
        !old(ans)@.contains(j),
    ensures
        final(ans)@ == old(ans)@.push(j),
        final(blocked)@ == old(blocked)@.update(j as int, true),
        ins_state_ok(*inst, *s, final(ans)@, final(blocked)@, final(cta)@),
{
    let ghost d = inst.dm();
    let ghost a0 = old(ans)@;
    proof {
        lemma_push_no_dup(a0, j);
        lemma_concat_contains(s.v@, a0, j);
        assert(!s.v@.contains(j));
        lemma_push_no_dup(s.v@ + a0, j);
        assert((s.v@ + a0.push(j)) =~= (s.v@ + a0).push(j));
        assert forall|k: int| 0 <= k < (s.v@ + a0.push(j)).len() implies
            (s.v@ + a0.push(j))[k] < inst.n by {
            let c = s.v@ + a0.push(j);
            if k < s.v@.len() {
                assert(c[k] == s.v@[k]);
            } else if k < s.v@.len() + a0.len() {
                assert(c[k] == a0[k - s.v@.len()]);
            } else {
                assert(c[k] == j);
            }
        }
        lemma_members_in_range_len(s.v@ + a0.push(j), inst.n as int);
    }
    ans.push(j);
    blocked[j] = true;
    let mut w: usize = 0;
    while w < inst.n
        invariant
            0 <= w <= inst.n,
            ans@ == a0.push(j),
            blocked@ == old(blocked)@.update(j as int, true),
            cta@.len() == inst.n,
            forall|x: int|
                0 <= x < w ==> #[trigger] cta@[x] as int == old(cta)@[x] as int
                    + inst.dm()[j as int][x],
            forall|x: int| w <= x < inst.n ==> #[trigger] cta@[x] == old(cta)@[x],
        decreases inst.n - w,
    {
        proof {
            assert(old(cta)@[w as int] as int == ins_marg(*inst, *s, a0, w as int));
            assert(s.cost@[w as int] as int == row_sum(d, w as int, s.v@));
            lemma_row_sum_bound(d, inst.n as int, EDGE_MAX as int, w as int, s.v@);
            lemma_row_sum_bound(d, inst.n as int, EDGE_MAX as int, w as int, a0);
            assert(
                s.v@.len() * (EDGE_MAX as int) + a0.len() * (EDGE_MAX as int)
                    + (EDGE_MAX as int) < u128::MAX
            ) by (nonlinear_arith)
                requires 0 <= s.v@.len() <= MAX_N, 0 <= a0.len() <= MAX_N,
            ;
        }
        let dw = inst.dist(j, w);
        cta[w] = cta[w] + (dw as u128);
        w = w + 1;
    }
    proof {
        assert forall|x: int| 0 <= x < inst.n implies
            #[trigger] cta@[x] as int == ins_marg(*inst, *s, ans@, x) by {
            lemma_row_sum_push(d, x, a0, j);
            assert(d[x][j as int] == d[j as int][x]);
        }
        assert forall|x: int| 0 <= x < inst.n implies
            #[trigger] blocked@[x] == (s.has@[x] || ans@.contains(x as usize)) by {
            lemma_push_contains(a0, j, x as usize);
        }
    }
}

/// Semi-greedy insertion ranking: an ordered list of up to `sz` vertices to
/// add to `s`, each pick of maximal marginal cost among the vertices still
/// outside (and non-tabu), relaxed for `alpha > 0` (per mille) to a uniform
/// choice — via the reservoir selector — among the vertices within the
/// relative window `alpha` of the best.  The input solution is not touched.
///
/// An empty solution is seeded with the endpoints of the heaviest eligible
/// edge first.  Without a tabu list the list is as long as requested (capped
/// by the vertices available); tabu vertices can only shorten it.
#[verifier::loop_isolation(false)]
#[verifier::rlimit(100)]
pub fn insertion_order(
    inst: &Instance,
    s: &Solution,
    sz: usize,
    alpha: u32,
    tabu: Option<&TabuList>,
) -> (ans: Vec<usize>)
    requires
        s.wf(*inst),
        sz <= MAX_N,
        alpha <= 1000,
        (match tabu {
            Some(t) => t.wf() && t.tabu@.len() == inst.n,
            None => true,
        }),
    ensures
        ans@.no_duplicates(),
        forall|k: int|
            #![trigger ans@.take(k)]
            0 <= k < ans@.len() ==> ins_eligible(*inst, *s, tabu, ans@.take(k), ans@[k] as int),
        s.len + ans@.len() <= inst.n,
        ans@.len() <= sz,
        tabu.is_none() ==> ans@.len()
            == (if s.len + sz <= inst.n { sz as int } else { inst.n - s.len }),
        (alpha == 0 && s.len > 0) ==> forall|k: int|
            #![trigger ans@.take(k)]
            0 <= k < ans@.len() ==> ins_greedy_pick(*inst, *s, tabu, ans@.take(k), ans@[k]),
        s.len > 0 ==> forall|k: int|
            #![trigger ans@.take(k)]
            0 <= k < ans@.len() ==> ins_pick_ok(*inst, *s, tabu, ans@.take(k), alpha, ans@[k]),
{
    let ghost d = inst.dm();
    proof {
        s.lemma_cmp_ok(*inst);
    }
    let target: usize = if s.len + sz <= inst.n {
        sz
    } else {
        inst.n - s.len
    };

    let mut ans: Vec<usize> = Vec::new();
    let mut blocked: Vec<bool> = copy_vec(&s.has);
    let mut cta: Vec<u128> = copy_vec(&s.cost);
    proof {
        assert(s.v@ + ans@ =~= s.v@);
        assert forall|x: int| 0 <= x < inst.n implies
            #[trigger] cta@[x] as int == ins_marg(*inst, *s, ans@, x) by {
            reveal_with_fuel(row_sum, 1);
        }
    }

    if s.len == 0 && target >= 1 {
        // seed with the heaviest eligible edge
        let mut bi: usize = 0;
        let mut bj: usize = 0;
        let mut bw: u64 = 0;
        let mut found: bool = false;
        let mut i: usize = 0;
        while i < inst.n
            invariant
                0 <= i <= inst.n,
                found ==> bi < inst.n && bj < inst.n && bi != bj,
                found ==> ins_eligible(*inst, *s, tabu, ans@, bi as int),
                found ==> ins_eligible(*inst, *s, tabu, ans@, bj as int),
                ans@.len() == 0,
            decreases inst.n - i,
        {
            let ei = !blocked[i] && (match tabu {
                Some(t) => !t.is_tabu(i),
                None => true,
            });
            if ei {
                let mut j: usize = i + 1;
                while j < inst.n
                    invariant
                        i < inst.n,
                        i + 1 <= j <= inst.n,
                        found ==> bi < inst.n && bj < inst.n && bi != bj,
                        found ==> ins_eligible(*inst, *s, tabu, ans@, bi as int),
                        found ==> ins_eligible(*inst, *s, tabu, ans@, bj as int),
                        ins_eligible(*inst, *s, tabu, ans@, i as int),
                        ans@.len() == 0,
                    decreases inst.n - j,
                {
                    let ej = !blocked[j] && (match tabu {
                        Some(t) => !t.is_tabu(j),
                        None => true,
                    });
                    if ej {
                        let w = inst.dist(i, j);
                        if !found || w > bw {
                            found = true;
                            bi = i;
                            bj = j;
                            bw = w;
                        }
                    }
                    j = j + 1;
                }
            }
            i = i + 1;
        }
        if found {
            ins_apply_pick(inst, s, &mut ans, &mut blocked, &mut cta, bi);
            proof {
                assert(ans@.take(0) =~= Seq::<usize>::empty());
                assert(ans@.take(0) == Seq::<usize>::empty());
                assert(ans@[0] == bi);
            }
            if target >= 2 {
                proof {
                    if ans@.contains(bj) {
                        let k = choose|k: int| 0 <= k < ans@.len() && ans@[k] == bj;
                        assert(false);
                    }
                }
                let ghost a1 = ans@;
                ins_apply_pick(inst, s, &mut ans, &mut blocked, &mut cta, bj);
                proof {
                    assert(ans@.take(0) =~= Seq::<usize>::empty());
                    assert(ans@.take(1) =~= a1);
                    assert(ans@[1] == bj);
                    assert(!a1.contains(bj));
                }
            }
        }
    }

    let mut stop: bool = false;
    while ans.len() < target && !stop
        invariant
            ins_state_ok(*inst, *s, ans@, blocked@, cta@),
            ans@.len() <= target,
            target <= inst.n - s.len,
            forall|k: int|
                #![trigger ans@.take(k)]
                0 <= k < ans@.len() ==> ins_eligible(*inst, *s, tabu, ans@.take(k), ans@[k] as int),
            s.len > 0 ==> forall|k: int|
                #![trigger ans@.take(k)]
                0 <= k < ans@.len() ==> ins_pick_ok(*inst, *s, tabu, ans@.take(k), alpha, ans@[k]),
            stop ==> tabu.is_some(),
        decreases target - ans@.len(), (if stop { 0int } else { 1int }),
    {
        let ghost a0 = ans@;
        // find the eligible vertex of maximal marginal cost (lowest index wins ties)
        let mut best: usize = 0;
        let mut best_c: u128 = 0;
        let mut have: bool = false;
        let mut i: usize = 0;
        while i < inst.n
            invariant
                0 <= i <= inst.n,
                ans@ == a0,
                have ==> best < inst.n && ins_eligible(*inst, *s, tabu, ans@, best as int),
                have ==> best_c == cta@[best as int],
                have ==> best < i,
                forall|y: int|
                    0 <= y < i && #[trigger] ins_eligible(*inst, *s, tabu, ans@, y) ==> have
                        && (cta@[y] < best_c || (cta@[y] == best_c && best <= y)),
            decreases inst.n - i,
        {
            let elig = !blocked[i] && (match tabu {
                Some(t) => !t.is_tabu(i),
                None => true,
            });
            if elig && (!have || cta[i] > best_c) {
                best = i;
                best_c = cta[i];
                have = true;
            }
            i = i + 1;
        }

        if !have {
            proof {
                if tabu.is_none() {
                    let c = s.v@ + ans@;
                    assert forall|k: int| 0 <= k < c.len() implies #[trigger] c[k] < inst.n by {
                        if k < s.v@.len() {
                            assert(c[k] == s.v@[k]);
                        } else {
                            assert(c[k] == ans@[k - s.v@.len()]);
                        }
                    }
                    assert(c.len() < inst.n);
                    lemma_missing_vertex(c, inst.n as int);
                    let x = choose|x: usize| x < inst.n && !c.contains(x);
                    lemma_concat_contains(s.v@, ans@, x);
                    assert(!s.has@[x as int]);
                    assert(ins_eligible(*inst, *s, tabu, ans@, x as int));
                    assert(false);
                }
            }
            stop = true;
        } else {
            proof {
                // the scan found the greedy pick
                assert forall|y: int| #[trigger] ins_eligible(*inst, *s, tabu, ans@, y) implies
                    ins_marg(*inst, *s, ans@, y) < ins_marg(*inst, *s, ans@, best as int)
                        || (ins_marg(*inst, *s, ans@, y) == ins_marg(*inst, *s, ans@, best as int)
                            && best <= y) by {
                    assert(cta@[y] as int == ins_marg(*inst, *s, ans@, y));
                }
                assert(ins_greedy_pick(*inst, *s, tabu, ans@, best));
                // the marginal costs in play are small enough for the window test
                lemma_row_sum_bound(d, inst.n as int, EDGE_MAX as int, best as int, s.v@);
                lemma_row_sum_bound(d, inst.n as int, EDGE_MAX as int, best as int, ans@);
                assert(
                    s.v@.len() * (EDGE_MAX as int) + a0.len() * (EDGE_MAX as int)
                        <= 0x20000 * (EDGE_MAX as int)
                ) by (nonlinear_arith)
                    requires 0 <= s.v@.len() <= MAX_N, 0 <= a0.len() <= MAX_N,
                ;
                assert(best_c <= 0x8000000000000000u128);
            }
            let mut j: usize = best;
            if alpha > 0 {
                let mut rs = ReservoirSampling::new();
                let mut i2: usize = 0;
                while i2 < inst.n
                    invariant
                        0 <= i2 <= inst.n,
                        ans@ == a0,
                        rs.num <= i2,
                        best < inst.n,
                        best_c == cta@[best as int],
                        best_c <= 0x8000000000000000u128,
                        ins_eligible(*inst, *s, tabu, ans@, best as int),
                        j == best || (ins_eligible(*inst, *s, tabu, ans@, j as int)
                            && ins_window(*inst, *s, ans@, alpha, best as int, j as int)),
                    decreases inst.n - i2,
                {
                    let elig = !blocked[i2] && (match tabu {
                        Some(t) => !t.is_tabu(i2),
                        None => true,
                    });
                    if elig && best_c > 0 {
                        proof {
                            assert(ins_eligible(*inst, *s, tabu, ans@, i2 as int));
                            assert(cta@[i2 as int] as int == ins_marg(*inst, *s, ans@, i2 as int));
                            assert(cta@[i2 as int] <= best_c);
                            assert((best_c - cta@[i2 as int]) * 1000 <= best_c * 1000
                                && (alpha as u128) * best_c <= 1000 * best_c
                                && best_c * 1000 <= 0x8000000000000000 * 1000) by (nonlinear_arith)
                                requires
                                    cta@[i2 as int] <= best_c,
                                    best_c <= 0x8000000000000000u128,
                                    alpha <= 1000,
                            ;
                        }
                        let ci = cta[i2];
                        if (best_c - ci) * 1000 < (alpha as u128) * best_c {
                            if rs.consider() {
                                j = i2;
                            }
                        }
                    }
                    i2 = i2 + 1;
                }
            }
            let ghost bwit = best;
            ins_apply_pick(inst, s, &mut ans, &mut blocked, &mut cta, j);
            proof {
                let len0 = a0.len() as int;
                assert(ans@ == a0.push(j));
                assert forall|k: int| 0 <= k < ans@.len() implies
                    #[trigger] ans@.take(k) == (if k <= len0 { a0.take(k) } else { a0 }) by {
                    if k <= len0 {
                        assert(ans@.take(k) =~= a0.take(k));
                    } else {
                        assert(ans@.take(k) =~= a0);
                    }
                }
                assert(a0.take(len0) =~= a0);
                assert(ans@[len0] == j);
                assert(ins_greedy_pick(*inst, *s, tabu, ans@.take(len0), bwit));
                if j != bwit {
                    assert(ins_window(*inst, *s, ans@.take(len0), alpha, bwit as int, j as int));
                }
                assert(ins_pick_ok(*inst, *s, tabu, ans@.take(len0), alpha, ans@[len0]));
                if alpha == 0 {
                    assert(j == bwit);
                    assert(ins_greedy_pick(*inst, *s, tabu, ans@.take(len0), ans@[len0]));
                }
            }
        }
    }
    proof {
        if tabu.is_none() {
            assert(!stop);
        }
    }
    ans
}

/// A member the removal heuristic may still pick after `removed`: a member
/// of the solution, not tabu, not already removed.
pub open spec fn rem_eligible(
    inst: Instance,
    s: Solution,
    tl: Option<&TabuList>,
    removed: Seq<usize>,
    x: int,
) -> bool {
    &&& 0 <= x < inst.n
    &&& s.has@[x]
    &&& (match tl {
        Some(t) => !is_tabu_spec(*t, x),
        None => true,
    })
    &&& !removed.contains(x as usize)
}

/// Marginal removal cost of `x` once `removed` have been taken out: its
/// distances to the members still present.
pub open spec fn rem_marg(inst: Instance, s: Solution, removed: Seq<usize>, x: int) -> int {
    s.cost@[x] as int - row_sum(inst.dm(), x, removed)
}

/// The member at position `p` of the member list is the pick a pure greedy
/// removal step makes: eligible, of minimal marginal cost, earliest member
/// among exact ties (candidates are ranked in member-list order).
pub open spec fn rem_greedy_pick_at(
    inst: Instance,
    s: Solution,
    tl: Option<&TabuList>,
    removed: Seq<usize>,
    p: int,
) -> bool {
    &&& 0 <= p < s.v@.len()
    &&& rem_eligible(inst, s, tl, removed, s.v@[p] as int)
    &&& forall|q: int|
        0 <= q < s.v@.len() && #[trigger] rem_eligible(inst, s, tl, removed, s.v@[q] as int)
            ==> rem_marg(inst, s, removed, s.v@[p] as int) < rem_marg(
            inst,
            s,
            removed,
            s.v@[q] as int,
        ) || (rem_marg(inst, s, removed, s.v@[q] as int) == rem_marg(
            inst,
            s,
            removed,
            s.v@[p] as int,
        ) && p <= q)
}

/// `x` is the pick a pure greedy removal step makes: it stands at some
/// member position that wins the ranking.
pub open spec fn rem_greedy_pick(
    inst: Instance,
    s: Solution,
    tl: Option<&TabuList>,
    removed: Seq<usize>,
    x: usize,
) -> bool {
    exists|p: int|
        0 <= p < s.v@.len() && s.v@[p] == x && #[trigger] rem_greedy_pick_at(
            inst,
            s,
            tl,
            removed,
            p,
        )
}

/// `x` lies within the relative window `alpha` (per mille) of the lowest
/// marginal cost, held by `b`.
pub open spec fn rem_window(
    inst: Instance,
    s: Solution,
    removed: Seq<usize>,
    alpha: u32,
    b: int,
    x: int,
) -> bool {
    &&& rem_marg(inst, s, removed, b) > 0
    &&& (rem_marg(inst, s, removed, x) - rem_marg(inst, s, removed, b)) * 1000
        < alpha * rem_marg(inst, s, removed, b)
}

/// `x` is a pick the relaxed greedy removal step can make.
pub open spec fn rem_pick_ok(
    inst: Instance,
    s: Solution,
    tl: Option<&TabuList>,
    removed: Seq<usize>,
    alpha: u32,
    x: usize,
) -> bool {
    exists|b: usize|
        rem_greedy_pick(inst, s, tl, removed, b) && (x == b || rem_window(
            inst,
            s,
            removed,
            alpha,
            b as int,
            x as int,
        ))
}

/// The picking state of `removal_order`: the removals so far are distinct
/// members, `left` marks members not yet removed, and `ctr` holds every
/// vertex's current marginal removal cost.
pub open spec fn rem_state_ok(
    inst: Instance,
    s: Solution,
    ans: Seq<usize>,
    left: Seq<bool>,
    ctr: Seq<u128>,
) -> bool {
    &&& ans.no_duplicates()
    &&& forall|k: int| 0 <= k < ans.len() ==> #[trigger] ans[k] < inst.n
    &&& forall|e: usize| #[trigger] ans.contains(e) ==> s.v@.contains(e)
    &&& left.len() == inst.n
    &&& forall|x: int|
        0 <= x < inst.n ==> #[trigger] left[x] == (s.has@[x] && !ans.contains(x as usize))
    &&& ctr.len() == inst.n
    &&& forall|x: int| 0 <= x < inst.n ==> #[trigger] ctr[x] as int == rem_marg(inst, s, ans, x)
    &&& ans.len() <= s.v@.len()
}

/// Record removal pick `j`: append it, clear its mark, and subtract its
/// distances from every marginal cost.
#[verifier::loop_isolation(false)]
fn rem_apply_pick(
    inst: &Instance,
    s: &Solution,
    ans: &mut Vec<usize>,
    left: &mut Vec<bool>,
    ctr: &mut Vec<u128>,
    j: usize,
)
    requires
        s.wf(*inst),
        rem_state_ok(*inst, *s, old(ans)@, old(left)@, old(ctr)@),
        j < inst.n,
        s.has@[j as int],
        !old(ans)@.contains(j),
    ensures
        final(ans)@ == old(ans)@.push(j),
        final(left)@ == old(left)@.update(j as int, false),
        rem_state_ok(*inst, *s, final(ans)@, final(left)@, final(ctr)@),
{
    let ghost d = inst.dm();
    let ghost a0 = old(ans)@;
    proof {
        lemma_push_no_dup(a0, j);
        assert(s.v@.contains(j));
        assert forall|e: usize| #[trigger] a0.push(j).contains(e) implies s.v@.contains(e) by {
            lemma_push_contains(a0, j, e);
        }
        lemma_subseq_len(a0.push(j), s.v@);
    }
    ans.push(j);
    left[j] = false;
    let mut w: usize = 0;
    while w < inst.n
        invariant
            0 <= w <= inst.n,
            ans@ == a0.push(j),
            left@ == old(left)@.update(j as int, false),
            ctr@.len() == inst.n,
            forall|x: int|
                0 <= x < w ==> #[trigger] ctr@[x] as int == old(ctr)@[x] as int
                    - inst.dm()[j as int][x],
            forall|x: int| w <= x < inst.n ==> #[trigger] ctr@[x] == old(ctr)@[x],
        decreases inst.n - w,
    {
        proof {
            assert(old(ctr)@[w as int] as int == rem_marg(*inst, *s, a0, w as int));
            assert(s.cost@[w as int] as int == row_sum(d, w as int, s.v@));
            lemma_row_sum_push(d, w as int, a0, j);
            lemma_row_sum_subset(d, w as int, a0.push(j), s.v@);
            assert(d[w as int][j as int] == d[j as int][w as int]);
        }
        let dw = inst.dist(j, w);
        ctr[w] = ctr[w] - (dw as u128);
        w = w + 1;
    }
    proof {
        assert forall|x: int| 0 <= x < inst.n implies
            #[trigger] ctr@[x] as int == rem_marg(*inst, *s, ans@, x) by {
            lemma_row_sum_push(d, x, a0, j);
            assert(d[x][j as int] == d[j as int][x]);
        }
        assert forall|x: int| 0 <= x < inst.n implies
            #[trigger] left@[x] == (s.has@[x] && !ans@.contains(x as usize)) by {
            lemma_push_contains(a0, j, x as usize);
        }
    }
}

/// Semi-greedy removal ranking: an ordered list of up to `sz` members to
/// take out of `s`, each pick of minimal marginal cost among the members
/// still present (and non-tabu) — cheap, low-contribution members go first,
/// the earliest member in insertion order among exact ties — relaxed for
/// `alpha > 0` (per mille) to a uniform choice among the members within the
/// relative window `alpha` of the cheapest.  The input solution is not
/// touched.
///
/// Without a tabu list the list holds exactly `min(sz, s.len)` members; tabu
/// vertices can only shorten it.
#[verifier::loop_isolation(false)]
#[verifier::rlimit(100)]
pub fn removal_order(
    inst: &Instance,
    s: &Solution,
    sz: usize,
    alpha: u32,
    tabu: Option<&TabuList>,
) -> (ans: Vec<usize>)
    requires
        s.wf(*inst),
        alpha <= 1000,
        (match tabu {
            Some(t) => t.wf() && t.tabu@.len() == inst.n,
            None => true,
        }),
    ensures
        ans@.no_duplicates(),
        forall|k: int|
            #![trigger ans@.take(k)]
            0 <= k < ans@.len() ==> rem_eligible(*inst, *s, tabu, ans@.take(k), ans@[k] as int),
        forall|e: usize| #[trigger] ans@.contains(e) ==> s.v@.contains(e),
        ans@.len() <= sz,
        ans@.len() <= s.len,
        tabu.is_none() ==> ans@.len() == (if sz <= s.len { sz as int } else { s.len as int }),
        (alpha == 0) ==> forall|k: int|
            #![trigger ans@.take(k)]
            0 <= k < ans@.len() ==> rem_greedy_pick(*inst, *s, tabu, ans@.take(k), ans@[k]),
        forall|k: int|
            #![trigger ans@.take(k)]
            0 <= k < ans@.len() ==> rem_pick_ok(*inst, *s, tabu, ans@.take(k), alpha, ans@[k]),
{
    let ghost d = inst.dm();
    proof {
        s.lemma_cmp_ok(*inst);
    }
    let target: usize = if sz <= s.len {
        sz
    } else {
        s.len
    };

    let mut ans: Vec<usize> = Vec::new();
    let mut left: Vec<bool> = copy_vec(&s.has);
    let mut ctr: Vec<u128> = copy_vec(&s.cost);
    proof {
        assert forall|x: int| 0 <= x < inst.n implies
            #[trigger] ctr@[x] as int == rem_marg(*inst, *s, ans@, x) by {
            reveal_with_fuel(row_sum, 1);
        }
    }

    let mut stop: bool = false;
    while ans.len() < target && !stop
        invariant
            rem_state_ok(*inst, *s, ans@, left@, ctr@),
            ans@.len() <= target,
            target <= s.len,
            forall|k: int|
                #![trigger ans@.take(k)]
                0 <= k < ans@.len() ==> rem_eligible(*inst, *s, tabu, ans@.take(k), ans@[k] as int),
            (alpha == 0) ==> forall|k: int|
                #![trigger ans@.take(k)]
                0 <= k < ans@.len() ==> rem_greedy_pick(*inst, *s, tabu, ans@.take(k), ans@[k]),
            forall|k: int|
                #![trigger ans@.take(k)]
                0 <= k < ans@.len() ==> rem_pick_ok(*inst, *s, tabu, ans@.take(k), alpha, ans@[k]),
            stop ==> tabu.is_some(),
        decreases target - ans@.len(), (if stop { 0int } else { 1int }),
    {
        let ghost a0 = ans@;
        // rank the members still present in member-list order; the earliest
        // member of minimal marginal cost wins
        let mut best_p: usize = 0;
        let mut best: usize = 0;
        let mut best_c: u128 = 0;
        let mut have: bool = false;
        let mut idx: usize = 0;
        while idx < s.v.len()
            invariant
                0 <= idx <= s.v@.len(),
                ans@ == a0,
                have ==> best_p < idx,
                have ==> best_p < s.v@.len() && best == s.v@[best_p as int],
                have ==> best < inst.n && rem_eligible(*inst, *s, tabu, ans@, best as int),
                have ==> best_c == ctr@[best as int],
                forall|q: int|
                    0 <= q < idx && #[trigger] rem_eligible(*inst, *s, tabu, ans@,
                        s.v@[q] as int) ==> have && (best_c < ctr@[s.v@[q] as int]
                        || (ctr@[s.v@[q] as int] == best_c && best_p <= q)),
            decreases s.v@.len() - idx,
        {
            let i = s.v[idx];
            proof {
                assert(s.v@[idx as int] == i);
                assert(i < inst.n);
            }
            let elig = left[i] && (match tabu {
                Some(t) => !t.is_tabu(i),
                None => true,
            });
            if elig && (!have || ctr[i] < best_c) {
                best_p = idx;
                best = i;
                best_c = ctr[i];
                have = true;
            }
            idx = idx + 1;
        }

        if !have {
            proof {
                if tabu.is_none() {
                    lemma_subseq_missing(ans@, s.v@);
                    let x = choose|x: usize| s.v@.contains(x) && !ans@.contains(x);
                    assert(s.v@.contains(x) && !ans@.contains(x));
                    let kx = choose|k: int| 0 <= k < s.v@.len() && s.v@[k] == x;
                    assert(x < inst.n);
                    assert(s.has@[x as int]);
                    assert(rem_eligible(*inst, *s, tabu, ans@, x as int));
                    assert(rem_eligible(*inst, *s, tabu, ans@, s.v@[kx] as int));
                    assert(false);
                }
            }
            stop = true;
        } else {
            proof {
                assert forall|q: int|
                    0 <= q < s.v@.len() && #[trigger] rem_eligible(*inst, *s, tabu, ans@,
                        s.v@[q] as int) implies rem_marg(*inst, *s, ans@, best as int)
                        < rem_marg(*inst, *s, ans@, s.v@[q] as int) || (rem_marg(
                        *inst,
                        *s,
                        ans@,
                        s.v@[q] as int,
                    ) == rem_marg(*inst, *s, ans@, best as int) && best_p <= q) by {
                    assert(ctr@[s.v@[q] as int] as int == rem_marg(*inst, *s, ans@,
                        s.v@[q] as int));
                }
                assert(rem_greedy_pick_at(*inst, *s, tabu, ans@, best_p as int));
                assert(rem_greedy_pick(*inst, *s, tabu, ans@, best));
                assert(s.cost@[best as int] as int == row_sum(d, best as int, s.v@));
                lemma_row_sum_bound(d, inst.n as int, EDGE_MAX as int, best as int, s.v@);
                lemma_row_sum_nonneg(d, best as int, ans@);
                assert(
                    s.v@.len() * (EDGE_MAX as int) <= 0x10000 * (EDGE_MAX as int)
                ) by (nonlinear_arith)
                    requires 0 <= s.v@.len() <= MAX_N,
                ;
                assert(best_c <= 0x4000000000000000u128);
            }
            let mut j: usize = best;
            if alpha > 0 {
                let mut rs = ReservoirSampling::new();
                let mut i2: usize = 0;
                while i2 < inst.n
                    invariant
                        0 <= i2 <= inst.n,
                        ans@ == a0,
                        rs.num <= i2,
                        best < inst.n,
                        best_c == ctr@[best as int],
                        best_c <= 0x4000000000000000u128,
                        rem_eligible(*inst, *s, tabu, ans@, best as int),
                        j == best || (rem_eligible(*inst, *s, tabu, ans@, j as int)
                            && rem_window(*inst, *s, ans@, alpha, best as int, j as int)),
                    decreases inst.n - i2,
                {
                    let elig = left[i2] && (match tabu {
                        Some(t) => !t.is_tabu(i2),
                        None => true,
                    });
                    if elig && best_c > 0 {
                        proof {
                            assert(rem_eligible(*inst, *s, tabu, ans@, i2 as int));
                            assert(ctr@[i2 as int] as int == rem_marg(*inst, *s, ans@, i2 as int));
                            assert(s.v@.contains(i2));
                            let p2 = choose|p2: int| 0 <= p2 < s.v@.len() && s.v@[p2] == i2;
                            assert(rem_eligible(*inst, *s, tabu, ans@, s.v@[p2] as int));
                            assert(best_c <= ctr@[i2 as int]);
                            assert(s.cost@[i2 as int] as int == row_sum(d, i2 as int, s.v@));
                            lemma_row_sum_bound(d, inst.n as int, EDGE_MAX as int, i2 as int, s.v@);
                            lemma_row_sum_nonneg(d, i2 as int, ans@);
                            assert(
                                s.v@.len() * (EDGE_MAX as int) <= 0x10000 * (EDGE_MAX as int)
                            ) by (nonlinear_arith)
                                requires 0 <= s.v@.len() <= MAX_N,
                            ;
                            assert(ctr@[i2 as int] <= 0x4000000000000000u128);
                            assert((ctr@[i2 as int] - best_c) * 1000
                                <= 0x4000000000000000 * 1000
                                && (alpha as u128) * best_c <= 1000 * best_c) by (nonlinear_arith)
                                requires
                                    best_c <= ctr@[i2 as int],
                                    ctr@[i2 as int] <= 0x4000000000000000u128,
                                    alpha <= 1000,
                            ;
                        }
                        let ci = ctr[i2];
                        if (ci - best_c) * 1000 < (alpha as u128) * best_c {
                            if rs.consider() {
                                j = i2;
                            }
                        }
                    }
                    i2 = i2 + 1;
                }
            }
            let ghost bwit = best;
            rem_apply_pick(inst, s, &mut ans, &mut left, &mut ctr, j);
            proof {
                let len0 = a0.len() as int;
                assert(ans@ == a0.push(j));
                assert forall|k: int| 0 <= k < ans@.len() implies
                    #[trigger] ans@.take(k) == (if k <= len0 { a0.take(k) } else { a0 }) by {
                    if k <= len0 {
                        assert(ans@.take(k) =~= a0.take(k));
                    } else {
                        assert(ans@.take(k) =~= a0);
                    }
                }
                assert(a0.take(len0) =~= a0);
                assert(ans@[len0] == j);
                assert(rem_greedy_pick(*inst, *s, tabu, ans@.take(len0), bwit));
                if j != bwit {
                    assert(rem_window(*inst, *s, ans@.take(len0), alpha, bwit as int, j as int));
                }
                assert(rem_pick_ok(*inst, *s, tabu, ans@.take(len0), alpha, ans@[len0]));
                if alpha == 0 {
                    assert(j == bwit);
                    assert(rem_greedy_pick(*inst, *s, tabu, ans@.take(len0), ans@[len0]));
                }
            }
        }
    }
    proof {
        if tabu.is_none() {
            assert(!stop);
        }
    }
    ans
}

} // verus!

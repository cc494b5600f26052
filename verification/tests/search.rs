use dispersion::greedy::ts;
use dispersion::instance::Instance;
use dispersion::options::Options;
use dispersion::solution::Solution;
use dispersion::tabu::TabuList;
use dispersion::vlns::{
    assign_and_update_tabu, consider_exact_candidate, create_subinstance, initial_solution,
    uses_exact_path, vlns_iter, vlnsheuristic,
};

fn square(n: usize, entries: &[(usize, usize, u64)]) -> Instance {
    let mut d = vec![vec![0u64; n]; n];
    for &(i, j, w) in entries {
        d[i][j] = w;
        d[j][i] = w;
    }
    Instance::new(n, d)
}

fn with_members(inst: &Instance, members: &[usize]) -> Solution {
    let mut s = Solution::new(inst);
    for &v in members {
        s.add(inst, v);
    }
    s
}

fn brute_total(inst: &Instance, members: &[usize]) -> u128 {
    let mut t: u128 = 0;
    for a in 0..members.len() {
        for b in 0..a {
            t += inst.dist(members[a], members[b]) as u128;
        }
    }
    t
}

// Seeded from empty on the 2-2 structure, the search starts from the
// farthest pair {0, 3} and converges to the best-average subset, which here
// is the full vertex set.
#[test]
fn ts_from_empty_finds_best_average_subset() {
    let inst = square(
        4,
        &[(0, 3, 10), (1, 2, 9), (0, 1, 1), (2, 3, 1), (0, 2, 1), (1, 3, 1)],
    );
    let mut s = Solution::new(&inst);
    ts(&inst, &mut s, 0, 10, None, None);
    let mut v = s.v.clone();
    v.sort();
    assert_eq!(v, vec![0, 1, 2, 3]);
    assert_eq!(s.total_cost, 23);
    let (num, den) = s.obj();
    assert_eq!((num, den), (23, 4));
}

// The flip-flop instance: from {0, 1} the best move adds vertex 2 and the
// best counter-move would remove it again at once.  With tenure 1 the
// engine may not touch the vertex it just moved, so it wanders through the
// second-best moves instead; either way {0, 1} stays the incumbent and the
// search terminates.
#[test]
fn ts_tenure_one_survives_flip_flop() {
    let inst = square(3, &[(0, 1, 10), (0, 2, 2), (1, 2, 2)]);
    let mut s = with_members(&inst, &[0, 1]);
    ts(&inst, &mut s, 1, 5, None, None);
    let mut v = s.v.clone();
    v.sort();
    assert_eq!(v, vec![0, 1]);
    assert_eq!(s.total_cost, 10);
}

#[test]
fn ts_respects_forced_vertex() {
    let inst = square(4, &[(0, 1, 8), (2, 3, 2), (0, 2, 1), (1, 3, 1)]);
    let mut s = with_members(&inst, &[2, 3]);
    ts(&inst, &mut s, 0, 5, Some(2), None);
    assert!(s.v.contains(&2));
}

// A forced vertex absent from the seed is added and materialized, even when
// no move improves afterwards.
#[test]
fn ts_materializes_absent_forced_vertex() {
    let inst = square(4, &[(2, 3, 10)]);
    let mut s = with_members(&inst, &[2, 3]);
    // adding 0 drops the objective from 5 to 10/3 and nothing recovers it
    ts(&inst, &mut s, 0, 2, Some(0), None);
    assert!(s.v.contains(&0));
    assert!(s.v.contains(&2) && s.v.contains(&3));
}

// An empty seed is materialized at once: even when no move improves on the
// seed pair, the search returns it.
#[test]
fn ts_empty_seed_is_materialized() {
    let inst = square(3, &[]);
    let mut s = Solution::new(&inst);
    ts(&inst, &mut s, 0, 2, None, None);
    let mut v = s.v.clone();
    v.sort();
    assert_eq!(v, vec![0, 1]);
    assert_eq!(s.total_cost, 0);
}

// Decomposition fidelity: the aggregate row of the sub-instance equals the
// exact sums of original distances to every core member, the inner block
// copies the original distances, and the core cost is the exact sum over
// core pairs.
#[test]
fn subinstance_aggregates_exactly() {
    let inst = square(
        6,
        &[(0, 1, 4), (0, 2, 9), (0, 3, 5), (1, 2, 2), (1, 3, 7), (2, 3, 3), (0, 4, 6),
            (1, 4, 1), (2, 4, 8), (3, 4, 2), (0, 5, 3), (1, 5, 9), (2, 5, 4), (3, 5, 6),
            (4, 5, 5)],
    );
    let s = with_members(&inst, &[0, 1, 2, 3]);
    let tabu = TabuList::new(6, 0);
    let sub = create_subinstance(&inst, &s, 0, 2, 2, &tabu);

    assert_eq!(sub.inst.n, sub.map.len());
    assert_eq!(sub.inst.n, 5); // 1 core slot + 2 members + 2 outsiders
    assert_eq!(sub.n_in, 2);
    // slots 1..=n_in are members, the rest are outsiders
    for k in 1..=sub.n_in {
        assert!(s.v.contains(&sub.map[k]));
    }
    for k in (1 + sub.n_in)..sub.inst.n {
        assert!(!s.v.contains(&sub.map[k]));
    }
    // the core holds exactly the members not drawn free
    for &c in &sub.core.vs {
        assert!(s.v.contains(&c));
        assert!(!sub.map[1..].contains(&c));
    }
    for &m in &s.v {
        assert!(sub.core.vs.contains(&m) || sub.map[1..].contains(&m));
    }
    // core cost: brute-force sum over core pairs
    assert_eq!(sub.core.cost, brute_total(&inst, &sub.core.vs));
    // aggregate row and inner block
    for k in 1..sub.inst.n {
        let mut agg: u64 = 0;
        for &c in &sub.core.vs {
            agg += inst.dist(sub.map[k], c);
        }
        assert_eq!(sub.inst.dist(0, k), agg);
        assert_eq!(sub.inst.dist(k, 0), agg);
        for j in 1..sub.inst.n {
            assert_eq!(sub.inst.dist(k, j), inst.dist(sub.map[k], sub.map[j]));
        }
    }
}

#[test]
fn assign_and_update_tabu_marks_the_difference() {
    let inst = square(4, &[(0, 1, 5), (1, 2, 6), (2, 3, 7)]);
    let mut s = with_members(&inst, &[0, 1]);
    let new_s = with_members(&inst, &[1, 2]);
    let mut tabu = TabuList::new(4, 3);
    assign_and_update_tabu(&inst, &mut s, new_s, &mut tabu);
    let mut v = s.v.clone();
    v.sort();
    assert_eq!(v, vec![1, 2]);
    assert!(tabu.is_tabu(0)); // left
    assert!(tabu.is_tabu(2)); // joined
    assert!(!tabu.is_tabu(1)); // stayed
    assert!(!tabu.is_tabu(3)); // never involved
}

#[test]
fn initial_solution_is_consistent() {
    let inst = square(5, &[(0, 1, 4), (1, 2, 6), (2, 3, 8), (3, 4, 2), (0, 4, 7)]);
    let s = initial_solution(&inst, 2);
    assert!(s.len >= 1);
    assert_eq!(s.total_cost, brute_total(&inst, &s.v));
}

#[test]
fn vlns_iter_returns_consistent_solution() {
    let inst = square(
        6,
        &[(0, 1, 4), (0, 2, 9), (1, 2, 2), (3, 4, 7), (0, 4, 3), (2, 5, 8), (1, 5, 1),
            (3, 5, 2), (2, 4, 5), (0, 3, 1)],
    );
    let s = with_members(&inst, &[0, 2, 4]);
    let tabu = TabuList::new(6, 0);
    let mut opt = Options::default();
    opt.subp_sz = 3;
    fastrand::seed(5);
    let (r, nb) = vlns_iter(&inst, &s, 0, &tabu, &opt);
    assert!(nb < opt.subp_restarts.max(1));
    assert_eq!(r.total_cost, brute_total(&inst, &r.v));
    // a non-empty result strictly beat the empty incumbent and holds an
    // anchored candidate from outside the input solution
    if r.len > 0 {
        assert!(r.len >= 2);
        assert!(r.total_cost > 0);
        assert!(r.v.iter().any(|x| !s.v.contains(x)));
    }
}

#[test]
fn vlns_iter_with_no_restarts_returns_empty() {
    let inst = square(4, &[(0, 1, 4), (1, 2, 6), (2, 3, 8), (0, 3, 2)]);
    let s = with_members(&inst, &[0, 1]);
    let tabu = TabuList::new(4, 0);
    let mut opt = Options::default();
    opt.subp_sz = 2;
    opt.subp_restarts = 0;
    let (r, nb) = vlns_iter(&inst, &s, 0, &tabu, &opt);
    assert_eq!(r.len, 0);
    assert_eq!(nb, 0);
}

#[test]
fn vlnsheuristic_is_reproducible_and_consistent() {
    let inst = square(
        6,
        &[(0, 1, 4), (0, 2, 9), (1, 2, 2), (3, 4, 7), (0, 4, 3), (2, 5, 8), (1, 5, 1),
            (3, 5, 2), (2, 4, 5), (0, 3, 1), (1, 3, 6), (1, 4, 2), (0, 5, 4), (2, 3, 3),
            (4, 5, 6)],
    );
    let mut opt = Options::default();
    opt.subp_sz = 3;
    opt.max_iter = 2;
    opt.max_shakes = 1;
    opt.max_iter_wo_impr = 2;
    opt.tenure = 1;
    opt.time_limit = 60;

    fastrand::seed(42);
    let a = vlnsheuristic(&inst, &opt);
    fastrand::seed(42);
    let b = vlnsheuristic(&inst, &opt);
    assert_eq!(a.v, b.v);
    assert_eq!(a.total_cost, b.total_cost);
    assert!(a.len >= 1);
    assert_eq!(a.total_cost, brute_total(&inst, &a.v));
}

// Exhausted budgets decide the empty outcome: a zero time limit or a zero
// round limit yields the empty solution.
#[test]
fn vlnsheuristic_zero_budgets_return_empty() {
    let inst = square(6, &[(0, 1, 4), (1, 2, 6), (2, 3, 8), (3, 4, 2), (4, 5, 7)]);
    let mut opt = Options::default();
    opt.subp_sz = 3;

    opt.time_limit = 0;
    fastrand::seed(1);
    let a = vlnsheuristic(&inst, &opt);
    assert_eq!(a.len, 0);
    let (num, den) = a.obj();
    assert_eq!((num, den), (0, 1));

    opt.time_limit = 60;
    opt.max_iter = 0;
    fastrand::seed(1);
    let b = vlnsheuristic(&inst, &opt);
    assert_eq!(b.len, 0);
}

// An instance at or below the decomposition threshold routes through the
// exact path.
#[test]
fn exact_routing_threshold() {
    assert!(uses_exact_path(5, 70));
    assert!(uses_exact_path(71, 70));
    assert!(!uses_exact_path(72, 70));
    assert!(!uses_exact_path(100, 70));
}

// The exact fallback keeps the best feasible objective over all target
// sizes 2..n, and rejects malformed solver output.
#[test]
fn exact_candidates_keep_best_over_sizes() {
    let inst = square(
        4,
        &[(0, 1, 2), (0, 2, 4), (0, 3, 6), (1, 2, 8), (1, 3, 10), (2, 3, 12)],
    );
    let mut best = Solution::new(&inst);
    // optimal member lists per target size, as an exact solver would return
    assert!(consider_exact_candidate(&inst, &mut best, &vec![2, 3], 2)); // 12/2 = 6
    assert_eq!(best.total_cost, 12);
    assert!(consider_exact_candidate(&inst, &mut best, &vec![1, 2, 3], 3)); // 30/3 = 10
    assert_eq!(best.total_cost, 30);
    assert!(consider_exact_candidate(&inst, &mut best, &vec![0, 1, 2, 3], 4)); // 42/4 = 10.5
    assert_eq!(best.total_cost, 42);
    assert_eq!(best.len, 4);

    // a worse candidate leaves the incumbent alone
    let snapshot = best.v.clone();
    assert!(!consider_exact_candidate(&inst, &mut best, &vec![0, 1], 2));
    assert_eq!(best.v, snapshot);
}

#[test]
fn exact_candidate_validation() {
    let inst = square(3, &[(0, 1, 5), (0, 2, 5), (1, 2, 5)]);
    let mut best = Solution::new(&inst);
    // wrong size
    assert!(!consider_exact_candidate(&inst, &mut best, &vec![0, 1], 3));
    // duplicate member
    assert!(!consider_exact_candidate(&inst, &mut best, &vec![1, 1], 2));
    // index out of range
    assert!(!consider_exact_candidate(&inst, &mut best, &vec![0, 7], 2));
    assert_eq!(best.len, 0);
    // a valid one is taken
    assert!(consider_exact_candidate(&inst, &mut best, &vec![0, 2], 2));
    assert_eq!(best.total_cost, 5);
}

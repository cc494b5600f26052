use dispersion::instance::Instance;
use dispersion::ratio::{ratio_eq, ratio_geq, ratio_gr, ratio_le, ratio_leq, ratio_neq};
use dispersion::solution::Solution;

fn square(n: usize, entries: &[(usize, usize, u64)]) -> Instance {
    let mut d = vec![vec![0u64; n]; n];
    for &(i, j, w) in entries {
        d[i][j] = w;
        d[j][i] = w;
    }
    Instance::new(n, d)
}

fn brute_total(inst: &Instance, members: &[usize]) -> u128 {
    let mut t: u128 = 0;
    for a in 0..members.len() {
        for b in 0..a {
            t += inst.dist(members[a], members[b]) as u128;
        }
    }
    t
}

fn brute_cost(inst: &Instance, members: &[usize], v: usize) -> u128 {
    let mut t: u128 = 0;
    for &m in members {
        t += inst.dist(v, m) as u128;
    }
    t
}

fn check_consistency(inst: &Instance, s: &Solution) {
    assert_eq!(s.len, s.v.len());
    assert_eq!(s.total_cost, brute_total(inst, &s.v));
    for v in 0..inst.n {
        assert_eq!(s.cost[v], brute_cost(inst, &s.v, v), "cost[{}] wrong", v);
        assert_eq!(s.has[v], s.v.contains(&v));
    }
}

// Incremental consistency: after every add/remove the incremental fields
// equal their brute-force definitions.
#[test]
fn incremental_consistency_over_add_remove_sequence() {
    let inst = square(
        5,
        &[(0, 1, 3), (0, 2, 7), (0, 3, 2), (0, 4, 9), (1, 2, 4), (1, 3, 8), (1, 4, 1),
            (2, 3, 6), (2, 4, 5), (3, 4, 10)],
    );
    let mut s = Solution::new(&inst);
    check_consistency(&inst, &s);
    for &v in &[2usize, 0, 4, 1] {
        s.add(&inst, v);
        check_consistency(&inst, &s);
    }
    s.remove(&inst, 0);
    check_consistency(&inst, &s);
    s.remove(&inst, 4);
    check_consistency(&inst, &s);
    s.add(&inst, 3);
    check_consistency(&inst, &s);
    s.remove(&inst, 2);
    check_consistency(&inst, &s);
}

// Objective bounds: never negative; zero exactly up to one member when the
// distances are positive.
#[test]
fn objective_bounds() {
    let inst = square(3, &[(0, 1, 4), (0, 2, 6), (1, 2, 8)]);
    let mut s = Solution::new(&inst);
    let (num, den) = s.obj();
    assert_eq!((num, den), (0, 1));
    s.add(&inst, 1);
    let (num, den) = s.obj();
    assert_eq!(num, 0);
    assert_eq!(den, 1);
    s.add(&inst, 2);
    let (num, den) = s.obj();
    assert_eq!(num, 8);
    assert_eq!(den, 2);
    assert!(num > 0);
}

// A pair at distance zero keeps the objective at zero with two members: the
// "zero only up to one member" direction needs positive distances.
#[test]
fn objective_zero_with_two_members_at_distance_zero() {
    let inst = square(2, &[]);
    let mut s = Solution::new(&inst);
    s.add(&inst, 0);
    s.add(&inst, 1);
    let (num, den) = s.obj();
    assert_eq!((num, den), (0, 2));
}

// Idempotence: recomputing from the member list twice yields exactly the
// state one recomputation yields.
#[test]
fn recompute_from_v_is_idempotent() {
    let inst = square(4, &[(0, 1, 5), (0, 2, 1), (0, 3, 2), (1, 2, 9), (1, 3, 4), (2, 3, 7)]);
    let mut s = Solution::new(&inst);
    s.add(&inst, 3);
    s.add(&inst, 1);
    s.add(&inst, 0);
    s.recompute_from_v(&inst);
    let v1 = s.v.clone();
    let len1 = s.len;
    let total1 = s.total_cost;
    let cost1 = s.cost.clone();
    let has1 = s.has.clone();
    s.recompute_from_v(&inst);
    assert_eq!(s.v, v1);
    assert_eq!(s.len, len1);
    assert_eq!(s.total_cost, total1);
    assert_eq!(s.cost, cost1);
    assert_eq!(s.has, has1);
}

#[test]
fn better_and_consider_compare_exactly() {
    let inst = square(3, &[(0, 1, 6), (0, 2, 6), (1, 2, 6)]);
    let mut a = Solution::new(&inst);
    a.add(&inst, 0);
    a.add(&inst, 1);
    // a: 6/2 = 3
    let mut b = Solution::new(&inst);
    b.add(&inst, 0);
    b.add(&inst, 1);
    b.add(&inst, 2);
    // b: 18/3 = 6
    assert!(b.better(&a));
    assert!(!a.better(&b));
    assert!(!a.better(&a));
    assert!(a.fbetter(5, 2)); // 3 > 2.5
    assert!(!a.fbetter(6, 2)); // not 3 > 3
    assert!(a.fworse(7, 2)); // 3 < 3.5
    assert!(!a.fworse(6, 2));
    assert!(a.consider(&b));
    assert_eq!(a.total_cost, 18);
    assert_eq!(a.len, 3);
    assert!(!a.consider(&b));
}

#[test]
fn ratio_comparisons_are_exact() {
    // 1/3 vs 2/6 are equal as rationals
    assert!(ratio_eq(1, 3, 2, 6));
    assert!(!ratio_neq(1, 3, 2, 6));
    assert!(!ratio_gr(1, 3, 2, 6));
    assert!(ratio_geq(1, 3, 2, 6));
    assert!(ratio_leq(1, 3, 2, 6));
    // 7/2 > 10/3
    assert!(ratio_gr(7, 2, 10, 3));
    assert!(ratio_le(10, 3, 7, 2));
    // a difference of one part in a million is still seen
    assert!(ratio_gr(1000001, 1000000, 1, 1));
}

#[test]
fn from_edges_builds_symmetric_matrix() {
    let edges = vec![(1usize, 2usize, 5u64), (2, 3, 7), (1, 3, 2)];
    let inst = Instance::from_edges(&edges).expect("edges are valid");
    assert_eq!(inst.n, 3);
    assert_eq!(inst.dist(0, 1), 5);
    assert_eq!(inst.dist(1, 0), 5);
    assert_eq!(inst.dist(1, 2), 7);
    assert_eq!(inst.dist(0, 2), 2);
    assert_eq!(inst.dist(0, 0), 0);
    assert_eq!(inst.dist(1, 1), 0);
}

#[test]
fn from_edges_last_listing_wins_and_gaps_are_zero() {
    let edges = vec![(1usize, 4usize, 9u64), (1, 4, 3)];
    let inst = Instance::from_edges(&edges).expect("edges are valid");
    assert_eq!(inst.n, 4);
    assert_eq!(inst.dist(0, 3), 3);
    assert_eq!(inst.dist(1, 2), 0);
}

#[test]
fn from_edges_rejects_bad_input() {
    // zero-based endpoint
    assert!(Instance::from_edges(&vec![(0usize, 1usize, 1u64)]).is_none());
    // self loop
    assert!(Instance::from_edges(&vec![(2usize, 2usize, 1u64)]).is_none());
    // weight over the base bound
    assert!(Instance::from_edges(&vec![(1usize, 2usize, 0x40000001u64)]).is_none());
    // empty list is fine: a zero-vertex instance
    let inst = Instance::from_edges(&Vec::new()).expect("empty list is valid");
    assert_eq!(inst.n, 0);
}

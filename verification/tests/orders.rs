use dispersion::greedy::{insertion_order, removal_order};
use dispersion::instance::Instance;
use dispersion::solution::Solution;
use dispersion::tabu::TabuList;
use dispersion::vlns::shake;

fn square(n: usize, entries: &[(usize, usize, u64)]) -> Instance {
    let mut d = vec![vec![0u64; n]; n];
    for &(i, j, w) in entries {
        d[i][j] = w;
        d[j][i] = w;
    }
    Instance::new(n, d)
}

fn with_members(inst: &Instance, members: &[usize]) -> Solution {
    let mut s = Solution::new(inst);
    for &v in members {
        s.add(inst, v);
    }
    s
}

// With alpha = 0 on a ranked candidate set the insertion order is the pure
// greedy one: vertices come out in strictly descending marginal-cost order.
#[test]
fn insertion_order_alpha_zero_descends() {
    let inst = square(5, &[(0, 1, 40), (0, 2, 30), (0, 3, 20), (0, 4, 10)]);
    let s = with_members(&inst, &[0]);
    let order = insertion_order(&inst, &s, 4, 0, None);
    assert_eq!(order, vec![1, 2, 3, 4]);
    // the marginal cost of each pick, at its own step, strictly descends
    let margs: Vec<u64> = order.iter().map(|&v| inst.dist(0, v)).collect();
    for w in margs.windows(2) {
        assert!(w[0] > w[1]);
    }
}

#[test]
fn insertion_order_respects_requested_count() {
    let inst = square(5, &[(0, 1, 40), (0, 2, 30), (0, 3, 20), (0, 4, 10)]);
    let s = with_members(&inst, &[0]);
    let order = insertion_order(&inst, &s, 2, 0, None);
    assert_eq!(order, vec![1, 2]);
    let all = insertion_order(&inst, &s, 100, 0, None);
    assert_eq!(all.len(), 4);
}

#[test]
fn insertion_order_skips_tabu_vertices() {
    let inst = square(5, &[(0, 1, 40), (0, 2, 30), (0, 3, 20), (0, 4, 10)]);
    let s = with_members(&inst, &[0]);
    let mut t = TabuList::new(5, 3);
    t.add(1);
    let order = insertion_order(&inst, &s, 4, 0, Some(&t));
    assert_eq!(order, vec![2, 3, 4]);
}

#[test]
fn insertion_order_on_empty_solution_seeds_heaviest_edge() {
    let inst = square(4, &[(0, 1, 3), (1, 2, 9), (2, 3, 4)]);
    let s = Solution::new(&inst);
    let order = insertion_order(&inst, &s, 2, 0, None);
    assert_eq!(order, vec![1, 2]);
}

// Removal order prefers cheap, low-contribution members first.
#[test]
fn removal_order_takes_cheap_members_first() {
    let inst = square(
        4,
        &[(0, 1, 10), (0, 2, 8), (1, 2, 6), (0, 3, 1), (1, 3, 1), (2, 3, 1)],
    );
    let s = with_members(&inst, &[0, 1, 2, 3]);
    // marginals: 3 -> 3, 2 -> 15, 1 -> 17, 0 -> 19
    let order = removal_order(&inst, &s, 3, 0, None);
    // after 3 leaves: 2 -> 14, 1 -> 16, 0 -> 18; after 2 leaves: 0 and 1 tie at 10
    assert_eq!(order, vec![3, 2, 0]);
}

// Exact marginal-cost ties go to the earliest member in insertion order,
// not to the smallest vertex number.
#[test]
fn removal_order_breaks_ties_in_member_order() {
    let inst = square(3, &[(0, 1, 5), (0, 2, 5), (1, 2, 5)]);
    let s = with_members(&inst, &[2, 0, 1]);
    // every member has marginal cost 10: the tie goes to 2, added first
    let order = removal_order(&inst, &s, 1, 0, None);
    assert_eq!(order, vec![2]);
    let full = removal_order(&inst, &s, 3, 0, None);
    assert_eq!(full, vec![2, 0, 1]);
}

#[test]
fn removal_order_caps_at_member_count() {
    let inst = square(3, &[(0, 1, 5), (0, 2, 5), (1, 2, 5)]);
    let s = with_members(&inst, &[0, 2]);
    let order = removal_order(&inst, &s, 10, 0, None);
    assert_eq!(order.len(), 2);
    assert!(order.contains(&0) && order.contains(&2));
}

#[test]
fn removal_order_skips_tabu_members() {
    let inst = square(3, &[(0, 1, 5), (0, 2, 7), (1, 2, 9)]);
    let s = with_members(&inst, &[0, 1, 2]);
    let mut t = TabuList::new(3, 3);
    t.add(0);
    let order = removal_order(&inst, &s, 3, 0, Some(&t));
    assert_eq!(order.len(), 2);
    assert!(!order.contains(&0));
}

// A shake removes and reinserts the configured counts and leaves a
// consistent solution behind.
#[test]
fn shake_keeps_bookkeeping_consistent() {
    let inst = square(
        6,
        &[(0, 1, 4), (0, 2, 9), (1, 2, 2), (3, 4, 7), (0, 4, 3), (2, 5, 8), (1, 5, 1)],
    );
    let mut s = with_members(&inst, &[0, 1, 2]);
    shake(&inst, &mut s, 2, 0);
    assert_eq!(s.len, 3); // 3 - 2 removed + 2 reinserted
    assert_eq!(s.len, s.v.len());
    // brute-force check of the rebuilt state
    let mut total: u128 = 0;
    for a in 0..s.v.len() {
        for b in 0..a {
            total += inst.dist(s.v[a], s.v[b]) as u128;
        }
    }
    assert_eq!(s.total_cost, total);
    for v in 0..inst.n {
        let mut c: u128 = 0;
        for &m in &s.v {
            c += inst.dist(v, m) as u128;
        }
        assert_eq!(s.cost[v], c);
        assert_eq!(s.has[v], s.v.contains(&v));
    }
}

#[test]
fn shake_can_replace_every_member() {
    let inst = square(4, &[(0, 1, 5), (2, 3, 9), (0, 2, 1), (1, 3, 1)]);
    let mut s = with_members(&inst, &[0, 1]);
    shake(&inst, &mut s, 2, 0);
    assert_eq!(s.len, 2);
}

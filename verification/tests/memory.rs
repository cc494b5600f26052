use dispersion::rng::ReservoirSampling;
use dispersion::tabu::TabuList;
use dispersion::timer::Timer;

// Tabu correctness: a vertex touched when the counter stands at t is tabu at
// every counter value below t + tenure and free from t + tenure on.
#[test]
fn tabu_window_boundaries() {
    let mut t = TabuList::new(4, 2);
    assert!(!t.is_tabu(0) && !t.is_tabu(1) && !t.is_tabu(2) && !t.is_tabu(3));
    // touch vertex 1 at counter value 1
    t.add(1);
    assert!(t.is_tabu(1)); // counter 1 < 1 + 2
    t.advance_iter();
    assert!(t.is_tabu(1)); // counter 2 < 3
    assert!(!t.is_tabu(0));
    t.advance_iter();
    assert!(!t.is_tabu(1)); // counter 3: the window is over, exactly here
    t.advance_iter();
    assert!(!t.is_tabu(1));
}

// With tenure 1 a touched vertex is blocked for exactly the one iteration
// that follows the touch: the engine advances the counter right after
// touching, so an added vertex cannot be removed again within the window.
#[test]
fn tabu_tenure_one_blocks_exactly_next_iteration() {
    let mut t = TabuList::new(3, 1);
    // the engine's order: advance, apply the move, touch the moved vertex
    t.advance_iter(); // counter 2
    t.add(2); // touched at 2
    assert!(t.is_tabu(2)); // the next selection happens at counter 2
    t.advance_iter(); // counter 3
    assert!(!t.is_tabu(2)); // free again afterwards
}

#[test]
fn tabu_remove_and_reset_clear_protection() {
    let mut t = TabuList::new(3, 5);
    t.add(0);
    t.add(2);
    assert!(t.is_tabu(0) && t.is_tabu(2));
    t.remove(0);
    assert!(!t.is_tabu(0));
    assert!(t.is_tabu(2));
    t.reset();
    assert!(!t.is_tabu(0) && !t.is_tabu(1) && !t.is_tabu(2));
}

#[test]
fn tabu_zero_tenure_never_blocks() {
    let mut t = TabuList::new(2, 0);
    t.add(0);
    assert!(!t.is_tabu(0));
    t.advance_iter();
    assert!(!t.is_tabu(0));
}

// The first candidate of a stream is always kept: the draw is from 0..1.
#[test]
fn reservoir_first_candidate_always_selected() {
    fastrand::seed(7);
    for _ in 0..100 {
        let mut rs = ReservoirSampling::new();
        assert!(rs.consider());
    }
}

#[test]
fn reservoir_counts_candidates() {
    fastrand::seed(7);
    let mut rs = ReservoirSampling::new();
    assert_eq!(rs.num, 0);
    for k in 1..=10u64 {
        rs.consider();
        assert_eq!(rs.num, k);
    }
}

// Reservoir uniformity: streaming k candidates and keeping the last accepted
// one selects each with empirical frequency close to 1/k.
#[test]
fn reservoir_uniformity_over_many_trials() {
    fastrand::seed(123456789);
    let k = 4usize;
    let trials = 40000usize;
    let mut counts = vec![0usize; k];
    for _ in 0..trials {
        let mut rs = ReservoirSampling::new();
        let mut sel = 0usize;
        for i in 0..k {
            if rs.consider() {
                sel = i;
            }
        }
        counts[sel] += 1;
    }
    for i in 0..k {
        let f = counts[i] as f64 / trials as f64;
        assert!(
            (f - 0.25).abs() < 0.02,
            "candidate {} selected with frequency {}",
            i,
            f
        );
    }
}

#[test]
fn timer_zero_limit_times_out_immediately() {
    let t = Timer::new(0);
    assert!(t.timed_out());
    assert_eq!(t.secs_left(), 0);
}

#[test]
fn timer_generous_limit_has_budget_left() {
    let t = Timer::new(3600);
    assert!(!t.timed_out());
    assert!(t.secs_left() <= 3600);
    assert!(t.secs_left() > 0);
    let _ = t.elapsed();
}

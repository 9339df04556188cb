use optimal_transport_rs::iteration::{iterate_until, unroll};

#[test]
fn iterate_until_stops_at_first_convergence() {
    // halve until below 10
    let (x, iters, converged) = iterate_until(100u64, 50, |x: &u64| (x / 2, x / 2 < 10));
    assert_eq!((x, iters, converged), (6, 4, true));
}

#[test]
fn iterate_until_exhausts_budget() {
    let (x, iters, converged) = iterate_until(0u64, 7, |x: &u64| (x + 3, false));
    assert_eq!((x, iters, converged), (21, 7, false));
}

#[test]
fn iterate_until_zero_budget_takes_no_step() {
    let (x, iters, converged) = iterate_until(5u64, 0, |x: &u64| (x + 1, true));
    assert_eq!((x, iters, converged), (5, 0, false));
}

#[test]
fn iterate_until_iterations_bounded() {
    for budget in 0..20usize {
        let (_, iters, converged) = iterate_until(1.0f64, budget, |x: &f64| (x * 0.5, *x * 0.5 < 1e-3));
        assert!(iters <= budget);
        assert!(converged || iters == budget);
    }
}

#[test]
fn iterate_until_more_budget_after_convergence_changes_nothing() {
    let step = |x: &u64| (x * 3 % 17, x * 3 % 17 == 1);
    let short = iterate_until(2u64, 100, step);
    let long = iterate_until(2u64, 1000, step);
    assert!(short.2);
    assert_eq!(short, long);
}

#[test]
fn unroll_keeps_every_state() {
    let (states, sides) = unroll(1.0f64, 5, |x: &f64| (x - 0.1 * 2.0 * x, 0.1 * 2.0 * x));
    assert_eq!(states.len(), 6);
    assert_eq!(sides.len(), 5);
    assert_eq!(states[0], 1.0);
    for k in 0..5 {
        assert_eq!(states[k + 1], states[k] - sides[k]);
    }
}

#[test]
fn unroll_zero_steps() {
    let (states, sides) = unroll(vec![5.0f64], 0, |x: &Vec<f64>| (x.clone(), 0u8));
    assert_eq!(states, vec![vec![5.0]]);
    assert!(sides.is_empty());
}

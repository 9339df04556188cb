use optimal_transport_rs::ordering::{argmin_first, argsort_stable, ordered_key};

fn key(x: f64) -> u64 {
    ordered_key(x.to_bits())
}

#[test]
fn ordered_key_exact_values() {
    assert_eq!(ordered_key(0), 0x8000_0000_0000_0000);
    assert_eq!(ordered_key(1), 0x8000_0000_0000_0001);
    assert_eq!(ordered_key(0x8000_0000_0000_0000), 0x7fff_ffff_ffff_ffff);
    assert_eq!(ordered_key(u64::MAX), 0);
}

#[test]
fn ordered_key_follows_float_order() {
    let xs = [-1.0e300, -3.5, -1.0, -1.0e-300, 0.0, 1.0e-300, 0.5, 2.0, 7.25, 1.0e300];
    for i in 0..xs.len() {
        for j in 0..xs.len() {
            assert_eq!(xs[i] < xs[j], key(xs[i]) < key(xs[j]));
        }
    }
    assert!(key(f64::NEG_INFINITY) < key(-1.0e300));
    assert!(key(f64::INFINITY) > key(1.0e300));
}

#[test]
fn argsort_sorts_and_keeps_ties_in_order() {
    let keys = vec![5, 1, 3, 1, 5, 0];
    let order = argsort_stable(&keys);
    assert_eq!(order, vec![5, 1, 3, 2, 0, 4]);
}

#[test]
fn argsort_empty_and_single() {
    assert_eq!(argsort_stable(&vec![]), Vec::<usize>::new());
    assert_eq!(argsort_stable(&vec![42]), vec![0]);
}

#[test]
fn argsort_of_float_positions() {
    // source positions 0, 1 then target positions 2, 3 merged into one event order
    let positions = [3.0, -2.0, 0.5, -2.0, 1.5];
    let keys: Vec<u64> = positions.iter().map(|x: &f64| key(*x)).collect();
    assert_eq!(argsort_stable(&keys), vec![1, 3, 2, 4, 0]);
}

#[test]
fn argmin_first_picks_first_smallest() {
    assert_eq!(argmin_first(&vec![]), None);
    assert_eq!(argmin_first(&vec![4, 2, 7, 2, 9]), Some(1));
    assert_eq!(argmin_first(&vec![3]), Some(0));
    assert_eq!(argmin_first(&vec![9, 8, 7]), Some(2));
}

#[test]
fn argmin_first_is_front_of_stable_order() {
    let cases: Vec<Vec<u64>> = vec![vec![4, 2, 7, 2, 9], vec![1, 1, 1], vec![10, 3, 3, 0, 0]];
    for keys in cases {
        assert_eq!(argmin_first(&keys), Some(argsort_stable(&keys)[0]));
    }
}

#[test]
fn argsort_matches_stable_sort_of_indices() {
    let mut seed: u64 = 12345;
    for len in [0usize, 1, 2, 3, 7, 16, 33, 100, 257] {
        let mut keys = Vec::new();
        for _ in 0..len {
            seed = seed.wrapping_mul(6364136223846793005).wrapping_add(1442695040888963407);
            keys.push((seed >> 59) as u64);
        }
        let mut expected: Vec<usize> = (0..len).collect();
        expected.sort_by(|&a, &b| keys[a].cmp(&keys[b]));
        assert_eq!(argsort_stable(&keys), expected);
    }
}

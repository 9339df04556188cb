use optimal_transport_rs::layout::{
    check_barycenter_shape, check_distribution_shape, choose_method, initial_support_indices,
    pairwise_table, BarycenterShapeError, Method, ShapeError,
};

#[test]
fn distribution_shape_errors() {
    assert_eq!(check_distribution_shape(3, 3), Ok(()));
    assert_eq!(check_distribution_shape(2, 3), Err(ShapeError::LengthMismatch));
    assert_eq!(check_distribution_shape(0, 1), Err(ShapeError::LengthMismatch));
    assert_eq!(check_distribution_shape(0, 0), Err(ShapeError::Empty));
}

#[test]
fn barycenter_shape_errors() {
    assert_eq!(check_barycenter_shape(2, 2, 4), Ok(()));
    assert_eq!(check_barycenter_shape(2, 1, 4), Err(BarycenterShapeError::LengthMismatch));
    assert_eq!(check_barycenter_shape(2, 1, 0), Err(BarycenterShapeError::LengthMismatch));
    assert_eq!(check_barycenter_shape(0, 0, 4), Err(BarycenterShapeError::NoDistributions));
    assert_eq!(check_barycenter_shape(0, 0, 0), Err(BarycenterShapeError::NoDistributions));
    assert_eq!(check_barycenter_shape(1, 1, 0), Err(BarycenterShapeError::NoSupport));
}

#[test]
fn method_choice() {
    assert_eq!(choose_method(&vec![1, 1, 1]), Method::OneDimensional);
    assert_eq!(choose_method(&vec![]), Method::OneDimensional);
    assert_eq!(choose_method(&vec![1, 2]), Method::General);
    assert_eq!(choose_method(&vec![3]), Method::General);
}

#[test]
fn support_indices_stride() {
    assert_eq!(initial_support_indices(10, 3), vec![0, 3, 6]);
    assert_eq!(initial_support_indices(6, 4), vec![0, 1, 2, 3]);
    assert_eq!(initial_support_indices(2, 5), vec![0, 1, 1, 1, 1]);
    assert_eq!(initial_support_indices(1, 1), vec![0]);
    assert_eq!(initial_support_indices(7, 2), vec![0, 3]);
}

#[test]
fn support_indices_count_and_range() {
    for total in 1..30usize {
        for n in 1..30usize {
            let idx = initial_support_indices(total, n);
            assert_eq!(idx.len(), n);
            assert!(idx.iter().all(|&i| i < total));
        }
    }
}

fn sq_dist(a: &Vec<f64>, b: &Vec<f64>) -> f64 {
    a.iter().zip(b.iter()).map(|(x, y)| (x - y) * (x - y)).sum()
}

#[test]
fn pairwise_cost_matrix() {
    let a = vec![vec![0.0], vec![1.0]];
    let b = vec![vec![0.0], vec![2.0]];
    let c = pairwise_table(&a, &b, sq_dist);
    assert!((c[0][0] - 0.0).abs() < 1e-10);
    assert!((c[0][1] - 4.0).abs() < 1e-10);
    assert!((c[1][0] - 1.0).abs() < 1e-10);
    assert!((c[1][1] - 1.0).abs() < 1e-10);
}

#[test]
fn pairwise_table_shape() {
    let rows = vec![1u32, 2, 3];
    let cols = vec![10u32, 20];
    let t = pairwise_table(&rows, &cols, |a: &u32, b: &u32| a * b);
    assert_eq!(t, vec![vec![10, 20], vec![20, 40], vec![30, 60]]);
    let empty: Vec<Vec<u32>> = pairwise_table(&Vec::<u32>::new(), &cols, |a: &u32, b: &u32| a + b);
    assert!(empty.is_empty());
    let no_cols = pairwise_table(&rows, &Vec::<u32>::new(), |a: &u32, b: &u32| a + b);
    assert_eq!(no_cols, vec![Vec::<u32>::new(); 3]);
}

use linfa_clustering::{KModesInit, Matrix};
use ndarray_rand::rand::SeedableRng;
use rand_xoshiro::Xoshiro256Plus;

fn rows_of<T>(rows: Vec<Vec<T>>) -> Matrix<T> {
    Matrix::from_rows(rows).unwrap()
}

fn check_autotraits<T: Send + Sync + Sized + Unpin>() {}

#[test]
fn init_autotraits() {
    check_autotraits::<KModesInit<usize>>();
}

#[test]
fn test_init_cao_deterministic() {
    let data = rows_of(vec![
        vec!["A", "X", "1"],
        vec!["A", "X", "1"],
        vec!["A", "X", "2"],
        vec!["B", "Y", "2"],
        vec!["B", "Y", "2"],
        vec!["C", "Z", "3"],
    ]);

    let c1 = KModesInit::Cao.run(2, &data, &mut Xoshiro256Plus::seed_from_u64(42));
    let c2 = KModesInit::Cao.run(2, &data, &mut Xoshiro256Plus::seed_from_u64(999));

    assert_eq!(c1.dim(), (2, 3));
    assert_eq!(c1, c2, "Cao initialization must be fully deterministic");

    // The first centroid in Cao must be the highest density point ("A", "X", "1" or "B", "Y", "2")
    let first_centroid = c1.row(0);
    assert!(
        (first_centroid[0] == "A" && first_centroid[1] == "X")
            || (first_centroid[0] == "B" && first_centroid[1] == "Y")
    );
}

#[test]
fn test_init_huang() {
    let data = rows_of(vec![
        vec!["A", "X"],
        vec!["A", "X"],
        vec!["B", "Y"],
        vec!["B", "Y"],
        vec!["C", "Z"],
        vec!["C", "Z"],
    ]);

    let mut rng = Xoshiro256Plus::seed_from_u64(42);
    let centroids = KModesInit::Huang.run(2, &data, &mut rng);

    assert_eq!(centroids.dim(), (2, 2));
    // Verify centroids are drawn from valid data points
    for k in 0..centroids.nrows() {
        let row = centroids.row(k);
        let matches = (0..data.nrows()).any(|i| data.row(i) == row);
        assert!(matches, "Huang centroid must match an existing data observation");
    }
}

#[test]
fn test_init_random_unique_indices() {
    let data = rows_of(vec![
        vec![1, 10],
        vec![2, 20],
        vec![3, 30],
        vec![4, 40],
        vec![5, 50],
    ]);

    let mut rng = Xoshiro256Plus::seed_from_u64(42);
    let centroids = KModesInit::Random.run(3, &data, &mut rng);

    assert_eq!(centroids.dim(), (3, 2));
    // Verify that 3 distinct rows from data were chosen
    let r0 = centroids.row(0);
    let r1 = centroids.row(1);
    let r2 = centroids.row(2);
    assert_ne!(r0, r1);
    assert_ne!(r0, r2);
    assert_ne!(r1, r2);
}

#[test]
fn test_init_precomputed() {
    let data = rows_of(vec![vec!["A", "X"], vec!["B", "Y"], vec!["C", "Z"]]);
    let precomputed = rows_of(vec![vec!["A", "X"], vec!["C", "Z"]]);

    let init = KModesInit::Precomputed(precomputed.clone());
    let mut rng = Xoshiro256Plus::seed_from_u64(42);
    let centroids = init.run(2, &data, &mut rng);

    assert_eq!(centroids, precomputed);
}

#[test]
fn test_init_single_cluster() {
    let data = rows_of(vec![vec!["A", "X"], vec!["B", "Y"], vec!["A", "X"]]);
    let mut rng = Xoshiro256Plus::seed_from_u64(42);

    let c_cao = KModesInit::Cao.run(1, &data, &mut rng);
    assert_eq!(c_cao.dim(), (1, 2));

    let c_huang = KModesInit::Huang.run(1, &data, &mut rng);
    assert_eq!(c_huang.dim(), (1, 2));

    let c_random = KModesInit::Random.run(1, &data, &mut rng);
    assert_eq!(c_random.dim(), (1, 2));
}

#[test]
fn test_init_n_clusters_eq_n_points() {
    let data = rows_of(vec![vec!["A", "X"], vec!["B", "Y"], vec!["C", "Z"]]);
    let mut rng = Xoshiro256Plus::seed_from_u64(42);

    let c_cao = KModesInit::Cao.run(3, &data, &mut rng);
    assert_eq!(c_cao.dim(), (3, 2));

    let c_huang = KModesInit::Huang.run(3, &data, &mut rng);
    assert_eq!(c_huang.dim(), (3, 2));

    let c_random = KModesInit::Random.run(3, &data, &mut rng);
    assert_eq!(c_random.dim(), (3, 2));
}

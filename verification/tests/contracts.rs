use linfa_clustering::algorithm::{closest_centroid, k_modes_single, matching_dissim};
use linfa_clustering::errors::cluster_count_message;
use linfa_clustering::freq::FrequencyTable;
use linfa_clustering::init::huang_select;
use linfa_clustering::{KModes, KModesError, KModesInit, KModesParams, KModesParamsError, Matrix};
use ndarray_rand::rand::SeedableRng;
use rand_xoshiro::Xoshiro256Plus;

fn grid<T>(rows: Vec<Vec<T>>) -> Matrix<T> {
    Matrix::from_rows(rows).unwrap()
}

fn parameters_message(result: Result<KModes<&'static str>, KModesError>) -> String {
    match result {
        Err(KModesError::LinfaError(linfa::error::Error::Parameters(message))) => message,
        other => panic!("expected a parameters error, got {:?}", other),
    }
}

#[test]
fn dissimilarity_counts_mismatches() {
    assert_eq!(matching_dissim(&["A", "X", "1"], &["A", "Y", "2"]), 2);
    assert_eq!(matching_dissim(&["A", "X"], &["A", "X"]), 0);
    assert_eq!(matching_dissim(&[1u8, 2, 3], &[4u8, 5, 6]), 3);
    // Only the common length counts.
    assert_eq!(matching_dissim(&['a', 'b', 'c'], &['a', 'z']), 1);
}

#[test]
fn dissimilarity_is_a_metric_on_examples() {
    let a = ["A", "X", "1"];
    let b = ["B", "X", "2"];
    let c = ["B", "Y", "1"];
    assert_eq!(matching_dissim(&a, &a), 0);
    assert_eq!(matching_dissim(&a, &b), matching_dissim(&b, &a));
    assert!(matching_dissim(&a, &c) <= matching_dissim(&a, &b) + matching_dissim(&b, &c));
}

#[test]
fn closest_centroid_prefers_first_of_equals() {
    let centroids = grid(vec![vec!["A", "Y"], vec!["B", "X"], vec!["A", "X"]]);
    assert_eq!(closest_centroid(&centroids, &["A", "X"]), (2, 0));
    assert_eq!(closest_centroid(&centroids, &["C", "Z"]), (0, 2));
    assert_eq!(closest_centroid(&centroids, &["B", "Y"]), (0, 1));
    let none: Matrix<&str> = grid(Vec::new());
    assert_eq!(closest_centroid(&none, &["A"]), (0, usize::MAX));
}

#[test]
fn single_cluster_cost_is_total_dissimilarity_to_the_mode() {
    let data = grid(vec![vec!["A", "X"], vec!["A", "X"], vec!["A", "Y"], vec!["B", "X"]]);
    let model = KModes::params(1).fit(&data).unwrap();
    assert_eq!(model.modes().row(0), &["A", "X"]);
    assert_eq!(model.cost(), 2);
    assert!(model.cost() <= data.nrows() * data.ncols());
}

#[test]
fn predictions_are_nearest_modes() {
    let data = grid(vec![vec!["A", "X"], vec!["A", "X"], vec!["B", "Y"], vec!["B", "Y"]]);
    let model = KModes::params(2).fit(&data).unwrap();
    let preds = model.predict(&data);
    for i in 0..data.nrows() {
        let (k, _) = closest_centroid(model.modes(), data.row(i));
        assert_eq!(preds[i], k);
    }
    let mut target = model.default_target(&data);
    assert_eq!(target, vec![0, 0, 0, 0]);
    model.predict_inplace(&data, &mut target);
    assert_eq!(target, preds);
}

#[test]
fn invalid_hyperparameters_are_refused_in_order() {
    let data = grid(vec![vec!["A"], vec!["B"]]);
    let r = KModesParams::<&str, _>::new(0).max_n_iterations(0).n_runs(0).fit(&data);
    assert!(matches!(r, Err(KModesError::InvalidParams(KModesParamsError::NClusters))));
    let r = KModesParams::<&str, _>::new(1).max_n_iterations(0).n_runs(0).fit(&data);
    assert!(matches!(r, Err(KModesError::InvalidParams(KModesParamsError::MaxIterations))));
    let r = KModesParams::<&str, _>::new(1).n_runs(0).fit(&data);
    assert!(matches!(r, Err(KModesError::InvalidParams(KModesParamsError::NRuns))));
    assert_eq!(KModesParamsError::NClusters.message(), "n_clusters cannot be 0");
    assert_eq!(KModesParamsError::MaxIterations.message(), "max_n_iterations cannot be 0");
    assert_eq!(KModesParamsError::NRuns.message(), "n_runs cannot be 0");
}

#[test]
fn dataset_errors_carry_their_messages() {
    let empty: Matrix<&'static str> = grid(Vec::new());
    assert_eq!(parameters_message(KModes::params(2).fit(&empty)), "Dataset cannot be empty");
    let data = grid(vec![vec!["A", "X"], vec!["B", "Y"]]);
    assert_eq!(
        parameters_message(KModes::params(5).fit(&data)),
        "Cannot have more clusters (5) than data points (2)"
    );
    assert_eq!(
        cluster_count_message(10, 7),
        "Cannot have more clusters (10) than data points (7)"
    );
    assert_eq!(cluster_count_message(0, 1234567), "Cannot have more clusters (0) than data points (1234567)");
}

#[test]
fn identical_observations_cost_nothing() {
    let data = grid(vec![vec!['q', 'r'], vec!['q', 'r'], vec!['q', 'r']]);
    for init in [KModesInit::Cao, KModesInit::Huang, KModesInit::Random] {
        let model = KModes::params(2).init_method(init).fit(&data).unwrap();
        assert_eq!(model.cost(), 0);
    }
}

#[test]
fn cao_ignores_the_generator() {
    let data = grid(vec![vec![1u32, 1], vec![1, 2], vec![2, 2], vec![3, 3], vec![3, 3]]);
    let a = KModesInit::Cao.run(3, &data, &mut Xoshiro256Plus::seed_from_u64(1));
    let b = KModesInit::Cao.run(3, &data, &mut Xoshiro256Plus::seed_from_u64(2));
    assert_eq!(a, b);
    // The densest observation (last of the most dense) comes first.
    assert_eq!(a.row(0), &[3, 3]);
}

#[test]
fn default_generator_is_seeded_with_42() {
    let data = grid(vec![vec!["A"], vec!["B"], vec!["C"], vec!["D"], vec!["E"]]);
    let a = KModes::params(2).init_method(KModesInit::Random).fit(&data).unwrap();
    let b = KModes::params_with_rng(2, Xoshiro256Plus::seed_from_u64(42))
        .init_method(KModesInit::Random)
        .fit(&data)
        .unwrap();
    assert_eq!(a, b);
}

#[test]
fn random_init_draws_distinct_observations() {
    let data = grid(vec![vec![10i64], vec![20], vec![30], vec![40]]);
    let mut rng = Xoshiro256Plus::seed_from_u64(7);
    let c = KModesInit::Random.run(4, &data, &mut rng);
    let mut seen: Vec<i64> = (0..4).map(|i| c.get(i, 0).clone()).collect();
    seen.sort_unstable();
    assert_eq!(seen, vec![10, 20, 30, 40]);
}

#[test]
fn huang_takes_each_observation_once() {
    let data = grid(vec![vec!["A", "X"], vec!["A", "X"], vec!["B", "Y"]]);
    let tentative = grid(vec![vec!["A", "X"], vec!["A", "X"], vec!["A", "X"]]);
    assert_eq!(huang_select(&data, &tentative), vec![0, 1, 2]);
}

#[test]
fn frequency_table_counts_and_modes() {
    let mut t: FrequencyTable<&str> = FrequencyTable::new();
    assert!(t.most_frequent().is_none());
    t.increment(&"a");
    t.increment(&"b");
    t.increment(&"b");
    assert_eq!(t.count_of(&"a"), 1);
    assert_eq!(t.count_of(&"b"), 2);
    assert_eq!(t.count_of(&"c"), 0);
    assert_eq!(t.most_frequent(), Some((&"b", 2)));
    t.decrement(&"b");
    t.decrement(&"b");
    assert_eq!(t.count_of(&"b"), 0);
    assert_eq!(t.most_frequent(), Some((&"a", 1)));
    t.decrement(&"c");
    assert_eq!(t.count_of(&"c"), 0);
}

#[test]
fn ragged_rows_are_refused() {
    assert!(Matrix::from_rows(vec![vec![1u8, 2], vec![3u8]]).is_none());
    let m = Matrix::from_rows(vec![vec![1u8, 2], vec![3u8, 4]]).unwrap();
    assert_eq!(m.dim(), (2, 2));
    assert_eq!(*m.get(1, 0), 3);
}

#[test]
fn cloned_model_is_equal() {
    let data = grid(vec![vec!["A", "X"], vec!["B", "Y"], vec!["B", "Y"]]);
    let model = KModes::params(2).fit(&data).unwrap();
    let copy = model.clone();
    assert_eq!(model, copy);
}

#[test]
fn fit_keeps_the_first_run_of_least_cost() {
    let data = grid(vec![
        vec!["A", "X", "1"],
        vec!["A", "X", "2"],
        vec!["B", "Y", "1"],
        vec!["B", "Y", "2"],
        vec!["C", "Z", "1"],
        vec!["C", "Z", "2"],
    ]);
    let model = KModes::params(3).init_method(KModesInit::Random).n_runs(6).fit(&data).unwrap();
    let runs = model.run_costs();
    assert_eq!(runs.len(), 6);
    assert_eq!(model.cost(), *runs.iter().min().unwrap());
    // A deterministic start makes a single run whatever n_runs says.
    let cao = KModes::params(3).init_method(KModesInit::Cao).n_runs(6).fit(&data).unwrap();
    assert_eq!(cao.run_costs(), &vec![cao.cost()]);
    // The kept run stopped after its first sweep without moves.
    let sweeps = cao.sweeps();
    assert!(sweeps.len() <= 100);
    if sweeps.len() < 100 {
        assert_eq!(*sweeps.last().unwrap(), 0);
    }
}

#[test]
fn single_run_reports_its_sweeps() {
    let data = grid(vec![vec!["A", "X"], vec!["A", "X"], vec!["B", "Y"], vec!["B", "Y"]]);
    let mut rng = Xoshiro256Plus::seed_from_u64(3);
    let (modes, cost, memberships, sweeps) = k_modes_single(&data, 2, 50, &KModesInit::Cao, &mut rng);
    assert_eq!(modes.dim(), (2, 2));
    assert_eq!(cost, 0);
    assert_eq!(memberships[0], memberships[1]);
    assert_ne!(memberships[0], memberships[2]);
    assert_eq!(*sweeps.last().unwrap(), 0);
    assert!(sweeps[..sweeps.len() - 1].iter().all(|&m| m > 0));
}

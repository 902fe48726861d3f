use linfa_clustering::{KModes, KModesInit, Matrix};
use ndarray_rand::rand::SeedableRng;
use rand_xoshiro::Xoshiro256Plus;

fn table<T>(rows: Vec<Vec<T>>) -> Matrix<T> {
    Matrix::from_rows(rows).unwrap()
}

fn has_autotraits<T: Send + Sync + Sized + Unpin>() {}

#[test]
fn algorithm_autotraits() {
    has_autotraits::<KModes<usize>>();
    has_autotraits::<KModes<&str>>();
    has_autotraits::<KModes<String>>();
    has_autotraits::<KModes<u8>>();
    has_autotraits::<KModes<char>>();
    has_autotraits::<KModes<bool>>();
}

#[test]
fn test_kmodes_simple_fitting() {
    let data = table(vec![
        vec!["A", "X"],
        vec!["A", "X"],
        vec!["B", "Y"],
        vec!["B", "Y"],
        vec!["A", "X"],
        vec!["B", "Y"],
    ]);

    let model = KModes::params(2)
        .max_n_iterations(50)
        .verbose(false)
        .fit(&data)
        .unwrap();

    assert_eq!(model.modes().dim(), (2, 2));

    let predictions = model.predict(&data);
    assert_eq!(predictions.len(), 6);

    assert_eq!(predictions[0], predictions[1]);
    assert_eq!(predictions[0], predictions[4]);

    assert_eq!(predictions[2], predictions[3]);
    assert_eq!(predictions[2], predictions[5]);
    assert_ne!(predictions[0], predictions[2]);
    assert_eq!(model.cost(), 0);
}

#[test]
fn test_kmodes_single_observation_predict() {
    let data = table(vec![vec!["A", "X"], vec!["B", "Y"]]);
    let model = KModes::params(2).fit(&data).unwrap();

    let single_sample = vec!["A", "X"];
    let pred: usize = model.predict_row(&single_sample);
    assert!(pred < 2);
}

#[test]
fn test_kmodes_empty_dataset_error() {
    let empty_data: Matrix<usize> = table(Vec::new());
    let result = KModes::params(2).fit(&empty_data);
    assert!(result.is_err());
}

#[test]
fn test_kmodes_n_clusters_exceeds_samples_error() {
    let data = table(vec![vec!["A", "X"], vec!["B", "Y"]]);
    let result = KModes::params(5).fit(&data);
    assert!(result.is_err());
}

#[test]
fn test_kmodes_single_cluster() {
    let data = table(vec![
        vec!["A", "X"],
        vec!["A", "X"],
        vec!["A", "Y"],
        vec!["B", "X"],
    ]);
    let model = KModes::params(1).fit(&data).unwrap();

    assert_eq!(model.modes().dim(), (1, 2));
    assert_eq!(*model.modes().get(0, 0), "A");
    assert_eq!(*model.modes().get(0, 1), "X");

    let predictions = model.predict(&data);
    assert_eq!(predictions, vec![0, 0, 0, 0]);
}

#[test]
fn test_kmodes_n_clusters_equals_n_samples() {
    let data = table(vec![vec!["A", "X"], vec!["B", "Y"], vec!["C", "Z"]]);
    let model = KModes::params(3)
        .init_method(KModesInit::Random)
        .fit(&data.clone())
        .unwrap();

    assert_eq!(model.modes().dim(), (3, 2));
    assert_eq!(model.cost(), 0);

    let predictions = model.predict(&data);
    let mut unique_labels: Vec<usize> = predictions.clone();
    unique_labels.sort_unstable();
    unique_labels.dedup();
    assert_eq!(unique_labels.len(), 3);
}

#[test]
fn test_kmodes_identical_observations() {
    let data = table(vec![
        vec!["A", "X", "1"],
        vec!["A", "X", "1"],
        vec!["A", "X", "1"],
        vec!["A", "X", "1"],
    ]);
    let model = KModes::params(2).fit(&data).unwrap();

    assert_eq!(model.cost(), 0);
    let predictions = model.predict(&data);
    assert_eq!(predictions.len(), 4);
}

#[test]
fn test_kmodes_high_dimensional_dataset() {
    let row_a = vec!["A"; 20];
    let row_b = vec!["B"; 20];
    let mut rows = Vec::new();
    for _ in 0..10 {
        rows.push(row_a.clone());
    }
    for _ in 0..10 {
        rows.push(row_b.clone());
    }
    let data = table(rows);
    assert_eq!(data.dim(), (20, 20));

    let model = KModes::params(2).max_n_iterations(20).fit(&data).unwrap();

    assert_eq!(model.modes().dim(), (2, 20));
    assert_eq!(model.cost(), 0);

    let preds = model.predict(&data);
    assert_eq!(preds[0..10].to_vec(), vec![preds[0]; 10]);
    assert_eq!(preds[10..20].to_vec(), vec![preds[10]; 10]);
    assert_ne!(preds[0], preds[10]);
}

#[test]
fn test_kmodes_max_iterations_bound() {
    let data = table(vec![
        vec!["A", "1"],
        vec!["A", "2"],
        vec!["B", "1"],
        vec!["B", "2"],
        vec!["C", "1"],
        vec!["C", "2"],
    ]);
    let model = KModes::params(3).max_n_iterations(1).fit(&data).unwrap();

    assert_eq!(model.modes().dim(), (3, 2));
}

#[test]
fn test_kmodes_n_runs_selects_minimal_cost() {
    let data = table(vec![
        vec!["A", "X", "1"],
        vec!["A", "X", "2"],
        vec!["B", "Y", "1"],
        vec!["B", "Y", "2"],
        vec!["C", "Z", "1"],
        vec!["C", "Z", "2"],
    ]);
    let model_multi = KModes::params(3)
        .init_method(KModesInit::Random)
        .n_runs(10)
        .fit(&data)
        .unwrap();

    let model_single = KModes::params(3)
        .init_method(KModesInit::Random)
        .n_runs(1)
        .fit(&data)
        .unwrap();

    assert!(model_multi.cost() <= model_single.cost() || model_single.cost() == 0);
}

#[test]
fn test_kmodes_with_custom_rng() {
    let data = table(vec![
        vec!["A", "X"],
        vec!["A", "X"],
        vec!["B", "Y"],
        vec!["B", "Y"],
        vec!["C", "Z"],
        vec!["C", "Z"],
    ]);

    let rng1 = Xoshiro256Plus::seed_from_u64(42);
    let rng2 = Xoshiro256Plus::seed_from_u64(42);

    let model1 = KModes::params_with_rng(3, rng1)
        .init_method(KModesInit::Random)
        .fit(&data)
        .unwrap();

    let model2 = KModes::params_with_rng(3, rng2)
        .init_method(KModesInit::Random)
        .fit(&data)
        .unwrap();

    assert_eq!(model1.modes(), model2.modes());
    assert_eq!(model1.cost(), model2.cost());
}

#[test]
fn test_kmodes_predict_unseen_categories() {
    let data = table(vec![
        vec!["A", "X"],
        vec!["A", "X"],
        vec!["B", "Y"],
        vec!["B", "Y"],
    ]);
    let model = KModes::params(2).fit(&data).unwrap();

    // Sample with category "Z" never seen in training
    let unseen = table(vec![vec!["A", "Z"]]);
    let pred: usize = model.predict_row(unseen.row(0));
    let expected_cluster = model.predict_row(&["A", "X"]);
    assert_eq!(pred, expected_cluster);
}

#[test]
fn test_kmodes_types_numeric() {
    let data = table(vec![
        vec![1usize, 10usize],
        vec![1usize, 10usize],
        vec![2usize, 20usize],
        vec![2usize, 20usize],
    ]);
    let model = KModes::params(2).fit(&data).unwrap();
    assert_eq!(model.modes().dim(), (2, 2));
    assert_eq!(model.cost(), 0);

    let u8_data = table(vec![vec![1u8, 2u8], vec![1u8, 2u8], vec![3u8, 4u8], vec![3u8, 4u8]]);
    let u8_model = KModes::params(2).fit(&u8_data).unwrap();
    assert_eq!(u8_model.modes().dim(), (2, 2));
    assert_eq!(u8_model.cost(), 0);

    let i32_data = table(vec![
        vec![-10i32, 100i32],
        vec![-10i32, 100i32],
        vec![50i32, -200i32],
        vec![50i32, -200i32],
    ]);
    let i32_model = KModes::params(2).fit(&i32_data).unwrap();
    assert_eq!(i32_model.modes().dim(), (2, 2));
    assert_eq!(i32_model.cost(), 0);
}

#[test]
fn test_kmodes_types_char_and_bool() {
    let char_data = table(vec![vec!['a', 'x'], vec!['a', 'x'], vec!['b', 'y'], vec!['b', 'y']]);
    let char_model = KModes::params(2).fit(&char_data).unwrap();
    assert_eq!(char_model.modes().dim(), (2, 2));
    assert_eq!(char_model.cost(), 0);

    let bool_data = table(vec![
        vec![true, false],
        vec![true, false],
        vec![false, true],
        vec![false, true],
    ]);
    let bool_model = KModes::params(2).fit(&bool_data).unwrap();
    assert_eq!(bool_model.modes().dim(), (2, 2));
    assert_eq!(bool_model.cost(), 0);
}

#[test]
fn test_kmodes_predict_dataset_and_records_consistency() {
    let data = table(vec![
        vec!["Cat", "Small"],
        vec!["Dog", "Large"],
        vec!["Cat", "Small"],
        vec!["Dog", "Large"],
    ]);
    let model = KModes::params(2).fit(&data.clone()).unwrap();

    let dataset_preds = model.predict(&data.clone());
    let records_preds = model.predict(&data);

    assert_eq!(dataset_preds, records_preds);
    for i in 0..data.nrows() {
        let single_pred: usize = model.predict_row(data.row(i));
        assert_eq!(dataset_preds[i], single_pred);
    }
}

#[test]
fn test_kmodes_all_init_strategies() {
    let data = table(vec![
        vec!["A", "1"],
        vec!["A", "1"],
        vec!["B", "2"],
        vec!["B", "2"],
        vec!["C", "3"],
        vec!["C", "3"],
    ]);

    let m_cao = KModes::params(3).init_method(KModesInit::Cao).fit(&data).unwrap();
    assert_eq!(m_cao.modes().dim(), (3, 2));

    let m_huang = KModes::params(3).init_method(KModesInit::Huang).fit(&data).unwrap();
    assert_eq!(m_huang.modes().dim(), (3, 2));

    let m_random = KModes::params(3).init_method(KModesInit::Random).fit(&data).unwrap();
    assert_eq!(m_random.modes().dim(), (3, 2));

    let precomputed = table(vec![vec!["A", "1"], vec!["B", "2"], vec!["C", "3"]]);
    let m_pre = KModes::params(3)
        .init_method(KModesInit::Precomputed(precomputed))
        .fit(&data)
        .unwrap();
    assert_eq!(m_pre.modes().dim(), (3, 2));
    assert_eq!(m_pre.cost(), 0);
}

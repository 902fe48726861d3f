use linfa_clustering::{KModesInit, KModesParams, KModesParamsError, KModesValidParams};
use ndarray_rand::rand::SeedableRng;
use rand_xoshiro::Xoshiro256Plus;

fn assert_autotraits<T: Send + Sync + Sized + Unpin>() {}

#[test]
fn hyperparams_autotraits() {
    assert_autotraits::<KModesParamsError>();
    assert_autotraits::<KModesParams<usize, Xoshiro256Plus>>();
    assert_autotraits::<KModesValidParams<usize, Xoshiro256Plus>>();
}

#[test]
fn invalid_params() {
    assert_eq!(
        KModesParams::<usize, _>::new(0).check(),
        Err(KModesParamsError::NClusters)
    );
    assert_eq!(
        KModesParams::<usize, _>::new(2).max_n_iterations(0).check(),
        Err(KModesParamsError::MaxIterations)
    );
    assert_eq!(
        KModesParams::<usize, _>::new(2).n_runs(0).check(),
        Err(KModesParamsError::NRuns)
    );
}

#[test]
fn test_getters_and_builder_options() {
    let params = KModesParams::<&str, _>::new(3)
        .max_n_iterations(200)
        .n_runs(15)
        .init_method(KModesInit::Huang)
        .verbose(true);

    assert!(params.check_ref().is_ok());
    let valid = params.check().unwrap();
    assert_eq!(valid.n_clusters(), 3);
    assert_eq!(valid.max_n_iterations(), 200);
    assert_eq!(valid.n_runs(), 15);
    assert_eq!(valid.init_method(), &KModesInit::Huang);
    assert!(valid.verbose());
    let _ = valid.rng();
}

#[test]
fn test_custom_rng() {
    let rng1 = Xoshiro256Plus::seed_from_u64(12345);
    let params1 = KModesParams::<usize, _>::new_with_rng(4, rng1);
    let valid1 = params1.check().unwrap();
    assert_eq!(valid1.n_clusters(), 4);

    let rng2 = Xoshiro256Plus::seed_from_u64(67890);
    let params2 = KModesParams::<usize, _>::new(2).with_rng(rng2);
    let valid2 = params2.check().unwrap();
    assert_eq!(valid2.n_clusters(), 2);
}

//! Hyperparameters of K-Modes and their validation.

use vstd::prelude::*;

use rand_xoshiro::Xoshiro256Plus;

use crate::element::EquivalenceTarget;
use crate::errors::KModesParamsError;
use crate::init::KModesInit;
use crate::rng::{seeded_generator, seeded_rng};

verus! {

/// Hyperparameters that can be specified for the K-Modes algorithm.
#[derive(Debug, PartialEq)]
pub struct KModesValidParams<T, R> {
    /// Maximum number of iterations for a single run.
    pub(crate) max_n_iterations: u64,
    /// Number of clusters to form.
    pub(crate) n_clusters: usize,
    /// Number of times the algorithm will run with different seeds.
    pub(crate) n_runs: usize,
    /// Centroid initialization method.
    pub(crate) init: KModesInit<T>,
    /// Verbose progress logging.
    pub(crate) verbose: bool,
    /// Random number generator.
    pub(crate) rng: R,
}

impl<T, R> KModesValidParams<T, R> {
    /// Number of clusters to form.
    pub closed spec fn n_clusters_spec(&self) -> usize {
        self.n_clusters
    }

    /// Number of clusters to form.
    #[verifier::when_used_as_spec(n_clusters_spec)]
    pub fn n_clusters(&self) -> (r: usize)
        ensures
            r == self.n_clusters_spec(),
    {
        self.n_clusters
    }

    /// Maximum number of iterations for a single run.
    pub closed spec fn max_n_iterations_spec(&self) -> u64 {
        self.max_n_iterations
    }

    /// Maximum number of iterations for a single run.
    #[verifier::when_used_as_spec(max_n_iterations_spec)]
    pub fn max_n_iterations(&self) -> (r: u64)
        ensures
            r == self.max_n_iterations_spec(),
    {
        self.max_n_iterations
    }

    /// Number of runs.
    pub closed spec fn n_runs_spec(&self) -> usize {
        self.n_runs
    }

    /// Number of runs.
    #[verifier::when_used_as_spec(n_runs_spec)]
    pub fn n_runs(&self) -> (r: usize)
        ensures
            r == self.n_runs_spec(),
    {
        self.n_runs
    }

    /// Centroid initialization method.
    pub closed spec fn init_method_spec(&self) -> &KModesInit<T> {
        &self.init
    }

    /// Centroid initialization method.
    #[verifier::when_used_as_spec(init_method_spec)]
    pub fn init_method(&self) -> (r: &KModesInit<T>)
        ensures
            r == self.init_method_spec(),
    {
        &self.init
    }

    /// Whether verbose progress logging is enabled.
    pub closed spec fn verbose_spec(&self) -> bool {
        self.verbose
    }

    /// Whether verbose progress logging is enabled.
    #[verifier::when_used_as_spec(verbose_spec)]
    pub fn verbose(&self) -> (r: bool)
        ensures
            r == self.verbose_spec(),
    {
        self.verbose
    }

    /// The random number generator.
    pub closed spec fn rng_spec(&self) -> &R {
        &self.rng
    }

    /// The random number generator.
    #[verifier::when_used_as_spec(rng_spec)]
    pub fn rng(&self) -> (r: &R)
        ensures
            r == self.rng_spec(),
    {
        &self.rng
    }
}


impl<T: EquivalenceTarget, R: Clone> Clone for KModesValidParams<T, R> {
    /// A copy of the parameters (the generator is cloned).
    fn clone(&self) -> (r: Self)
        ensures
            r.n_clusters() == self.n_clusters(),
            r.max_n_iterations() == self.max_n_iterations(),
            r.n_runs() == self.n_runs(),
            r.verbose() == self.verbose(),
            r.init_method().is_copy_of(self.init_method()),
            vstd::pervasive::cloned(*self.rng(), *r.rng()),
    {
        KModesValidParams {
            max_n_iterations: self.max_n_iterations,
            n_clusters: self.n_clusters,
            n_runs: self.n_runs,
            init: self.init.clone(),
            verbose: self.verbose,
            rng: self.rng.clone(),
        }
    }
}

/// Helper builder to configure hyperparameters for the K-Modes algorithm.
#[derive(Debug, PartialEq)]
pub struct KModesParams<T, R>(pub(crate) KModesValidParams<T, R>);

impl<T: EquivalenceTarget, R: Clone> Clone for KModesParams<T, R> {
    /// A copy of the builder (the generator is cloned).
    fn clone(&self) -> (r: Self)
        ensures
            r.valid().n_clusters() == self.valid().n_clusters(),
            r.valid().max_n_iterations() == self.valid().max_n_iterations(),
            r.valid().n_runs() == self.valid().n_runs(),
            r.valid().verbose() == self.valid().verbose(),
            r.valid().init_method().is_copy_of(self.valid().init_method()),
            vstd::pervasive::cloned(*self.valid().rng(), *r.valid().rng()),
    {
        KModesParams(self.0.clone())
    }
}

impl<T> KModesParams<T, Xoshiro256Plus> {
    /// A parameter builder with the default generator (`Xoshiro256Plus` seeded
    /// with 42) and the defaults of `new_with_rng`.
    pub fn new(n_clusters: usize) -> (r: Self)
        ensures
            r.valid().n_clusters() == n_clusters,
            r.valid().max_n_iterations() == 100,
            r.valid().n_runs() == 10,
            *r.valid().init_method() is Cao,
            !r.valid().verbose(),
            *r.valid().rng() == seeded_generator(42),
    {
        Self::new_with_rng(n_clusters, seeded_rng(42))
    }
}

impl<T, R> KModesParams<T, R> {
    /// The parameters as they stand, checked or not.
    pub closed spec fn valid(&self) -> KModesValidParams<T, R> {
        self.0
    }

    /// A parameter builder with a custom generator and the defaults
    /// `max_n_iterations = 100`, `n_runs = 10`, `init = Cao`, `verbose = false`.
    pub fn new_with_rng(n_clusters: usize, rng: R) -> (r: Self)
        ensures
            r.valid().n_clusters() == n_clusters,
            r.valid().max_n_iterations() == 100,
            r.valid().n_runs() == 10,
            *r.valid().init_method() is Cao,
            !r.valid().verbose(),
            *r.valid().rng() == rng,
    {
        KModesParams(
            KModesValidParams {
                n_clusters,
                max_n_iterations: 100,
                n_runs: 10,
                init: KModesInit::Cao,
                verbose: false,
                rng,
            },
        )
    }

    /// Sets the maximum number of iterations of a single run.
    pub fn max_n_iterations(self, max_n_iterations: u64) -> (r: Self)
        ensures
            r.valid().max_n_iterations() == max_n_iterations,
            r.valid().n_clusters() == self.valid().n_clusters(),
            r.valid().n_runs() == self.valid().n_runs(),
            r.valid().init_method() == self.valid().init_method(),
            r.valid().verbose() == self.valid().verbose(),
            r.valid().rng() == self.valid().rng(),
    {
        let mut p = self;
        p.0.max_n_iterations = max_n_iterations;
        p
    }

    /// Sets the number of runs (the run of least cost is kept).
    pub fn n_runs(self, n_runs: usize) -> (r: Self)
        ensures
            r.valid().n_runs() == n_runs,
            r.valid().n_clusters() == self.valid().n_clusters(),
            r.valid().max_n_iterations() == self.valid().max_n_iterations(),
            r.valid().init_method() == self.valid().init_method(),
            r.valid().verbose() == self.valid().verbose(),
            r.valid().rng() == self.valid().rng(),
    {
        let mut p = self;
        p.0.n_runs = n_runs;
        p
    }

    /// Sets the centroid initialization method.
    pub fn init_method(self, init: KModesInit<T>) -> (r: Self)
        ensures
            *r.valid().init_method() == init,
            r.valid().n_clusters() == self.valid().n_clusters(),
            r.valid().max_n_iterations() == self.valid().max_n_iterations(),
            r.valid().n_runs() == self.valid().n_runs(),
            r.valid().verbose() == self.valid().verbose(),
            r.valid().rng() == self.valid().rng(),
    {
        let mut p = self;
        p.0.init = init;
        p
    }

    /// Enables or disables verbose progress logging.
    pub fn verbose(self, verbose: bool) -> (r: Self)
        ensures
            r.valid().verbose() == verbose,
            r.valid().n_clusters() == self.valid().n_clusters(),
            r.valid().max_n_iterations() == self.valid().max_n_iterations(),
            r.valid().n_runs() == self.valid().n_runs(),
            r.valid().init_method() == self.valid().init_method(),
            r.valid().rng() == self.valid().rng(),
    {
        let mut p = self;
        p.0.verbose = verbose;
        p
    }

    /// Replaces the random number generator.
    pub fn with_rng<R2>(self, rng: R2) -> (r: KModesParams<T, R2>)
        ensures
            *r.valid().rng() == rng,
            r.valid().n_clusters() == self.valid().n_clusters(),
            r.valid().max_n_iterations() == self.valid().max_n_iterations(),
            r.valid().n_runs() == self.valid().n_runs(),
            r.valid().init_method() == self.valid().init_method(),
            r.valid().verbose() == self.valid().verbose(),
    {
        let KModesParams(p) = self;
        KModesParams(
            KModesValidParams {
                n_clusters: p.n_clusters,
                max_n_iterations: p.max_n_iterations,
                n_runs: p.n_runs,
                init: p.init,
                verbose: p.verbose,
                rng,
            },
        )
    }

    /// The first hyperparameter that is invalid, in the order `n_clusters`,
    /// `max_n_iterations`, `n_runs`; `None` when all are valid.
    pub open spec fn first_error(&self) -> Option<KModesParamsError> {
        if self.valid().n_clusters() == 0 {
            Some(KModesParamsError::NClusters)
        } else if self.valid().max_n_iterations() == 0 {
            Some(KModesParamsError::MaxIterations)
        } else if self.valid().n_runs() == 0 {
            Some(KModesParamsError::NRuns)
        } else {
            None
        }
    }

    /// Checks the hyperparameters and hands out a reference to them when valid.
    pub fn check_ref(&self) -> (r: Result<&KModesValidParams<T, R>, KModesParamsError>)
        ensures
            match r {
                Ok(v) => self.first_error() is None && *v == self.valid(),
                Err(e) => self.first_error() == Some(e),
            },
    {
        if self.0.n_clusters == 0 {
            Err(KModesParamsError::NClusters)
        } else if self.0.max_n_iterations == 0 {
            Err(KModesParamsError::MaxIterations)
        } else if self.0.n_runs == 0 {
            Err(KModesParamsError::NRuns)
        } else {
            Ok(&self.0)
        }
    }

    /// Checks the hyperparameters and turns them into valid ones.
    pub fn check(self) -> (r: Result<KModesValidParams<T, R>, KModesParamsError>)
        ensures
            match r {
                Ok(v) => self.first_error() is None && v == self.valid(),
                Err(e) => self.first_error() == Some(e),
            },
    {
        match self.check_ref() {
            Err(e) => {
                return Err(e);
            },
            Ok(_) => {},
        }
        Ok(self.0)
    }
}

} // verus!

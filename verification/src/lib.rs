//! K-Modes clustering for categorical data, with machine-checked contracts.
//!
//! `algorithm` holds the clustering loop and the fitted model, `init` the
//! initialization methods, `hyperparams` the parameter builder, `model` the
//! mathematical definitions the contracts are written in.

pub mod algorithm;
pub mod element;
pub mod errors;
pub mod freq;
pub mod hyperparams;
pub mod init;
pub mod matrix;
pub mod model;
pub mod rng;
pub mod run;

pub use algorithm::KModes;
pub use element::EquivalenceTarget;
pub use errors::{KModesError, KModesParamsError};
pub use hyperparams::{KModesParams, KModesValidParams};
pub use init::KModesInit;
pub use matrix::Matrix;
pub use rng::RandomSource;

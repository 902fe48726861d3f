//! Error types of K-Modes.

use vstd::prelude::*;

verus! {

/// `linfa::error::Error`, the error type of `linfa`, known to Verus as an
/// opaque type: nothing inside a value is visible to the proofs.
#[verifier::external_type_specification]
#[verifier::external_body]
pub struct ExLinfaError(linfa::error::Error);

/// An invalid hyperparameter.
#[derive(Debug, Clone, Copy, PartialEq, Eq)]
pub enum KModesParamsError {
    /// `n_clusters` cannot be 0.
    NClusters,
    /// `max_n_iterations` cannot be 0.
    MaxIterations,
    /// `n_runs` cannot be 0.
    NRuns,
}

impl KModesParamsError {
    /// The message that describes the error.
    pub fn message(&self) -> (r: &'static str)
        ensures
            r@ == match self {
                KModesParamsError::NClusters => "n_clusters cannot be 0"@,
                KModesParamsError::MaxIterations => "max_n_iterations cannot be 0"@,
                KModesParamsError::NRuns => "n_runs cannot be 0"@,
            },
    {
        match self {
            KModesParamsError::NClusters => "n_clusters cannot be 0",
            KModesParamsError::MaxIterations => "max_n_iterations cannot be 0",
            KModesParamsError::NRuns => "n_runs cannot be 0",
        }
    }
}

/// Why fitting K-Modes failed.
#[derive(Debug)]
pub enum KModesError {
    /// Invalid hyperparameter.
    InvalidParams(KModesParamsError),
    /// A parameter that does not suit the dataset, as a `linfa` error.
    LinfaError(linfa::error::Error),
}

/// The `linfa` error `Error::Parameters(message)`, for a message given by its characters.
pub uninterp spec fn parameters_error_of(message: Seq<char>) -> linfa::error::Error;

/// Builds `linfa::error::Error::Parameters(message)`, the variant of `linfa`'s
/// error for an invalid parameter. The value is opaque here; the contract says
/// that it is the same for the same message.
#[verifier::external_body]
pub(crate) fn parameters_error(message: String) -> (r: linfa::error::Error)
    ensures
        r == parameters_error_of(message@),
{
    linfa::error::Error::Parameters(message)
}

/// The decimal digits of `n` (no sign, no leading zeros; `0` is `"0"`).
pub open spec fn decimal(n: nat) -> Seq<char>
    decreases n,
{
    let digit = (('0' as int) + (n % 10) as int) as char;
    if n < 10 {
        seq![digit]
    } else {
        decimal(n / 10).push(digit)
    }
}

/// The one-character text of the decimal digit `d`.
fn digit_text(d: usize) -> (r: &'static str)
    requires
        d < 10,
    ensures
        r@ == seq![(('0' as int) + d as int) as char],
{
    proof {
        reveal_strlit("0");
        reveal_strlit("1");
        reveal_strlit("2");
        reveal_strlit("3");
        reveal_strlit("4");
        reveal_strlit("5");
        reveal_strlit("6");
        reveal_strlit("7");
        reveal_strlit("8");
        reveal_strlit("9");
    }
    let r = match d {
        0 => "0",
        1 => "1",
        2 => "2",
        3 => "3",
        4 => "4",
        5 => "5",
        6 => "6",
        7 => "7",
        8 => "8",
        _ => "9",
    };
    assert(r@ =~= seq![(('0' as int) + d as int) as char]);
    r
}

/// Appends the decimal digits of `n` to `s`.
fn append_decimal(s: &mut String, n: usize)
    ensures
        final(s)@ == old(s)@ + decimal(n as nat),
    decreases n,
{
    if n >= 10 {
        append_decimal(s, n / 10);
    }
    s.append(digit_text(n % 10));
    proof {
        if n >= 10 {
            assert(decimal(n as nat) == decimal((n / 10) as nat).push((('0' as int) + (n % 10) as int) as char));
        }
        assert(final(s)@ =~= old(s)@ + decimal(n as nat)) by {
            if n < 10 {
                assert(decimal(n as nat) =~= seq![(('0' as int) + (n % 10) as int) as char]);
            }
        }
    }
}

/// The text of the error for a request of more clusters than observations.
pub open spec fn cluster_count_text(n_clusters: nat, n_points: nat) -> Seq<char> {
    "Cannot have more clusters ("@ + decimal(n_clusters) + ") than data points ("@ + decimal(n_points)
        + ")"@
}

/// The message of the error for a request of more clusters than observations.
pub fn cluster_count_message(n_clusters: usize, n_points: usize) -> (r: String)
    ensures
        r@ == cluster_count_text(n_clusters as nat, n_points as nat),
{
    let mut s = String::from_str("Cannot have more clusters (");
    append_decimal(&mut s, n_clusters);
    s.append(") than data points (");
    append_decimal(&mut s, n_points);
    s.append(")");
    s
}

} // verus!

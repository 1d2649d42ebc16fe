//! Phenotype-match scoring: an information-content similarity metric over an
//! ontology of phenotype terms, a population ranking engine built on it, and a
//! permutation-based significance estimator that prepares two p-values for
//! combination via a scaled chi-square approximation.
//!
//! All arithmetic is exact: information content is carried as scaled integer
//! units, pairwise similarities as rationals, and group scores in fixed-point
//! units of `SIM_SCALE`.

use vstd::prelude::*;

pub mod bytes;
pub mod group;
pub mod ontology;
pub mod population;
pub mod rank;
pub mod ratio;
pub mod rng;
pub mod sample;
pub mod significance;
pub mod similarity;
pub mod termset;

verus! {

use vstd::string::StringExecFns;

/// The error taxonomy of the library.
///
/// `ConfigurationError` is fatal and raised before any simulation starts
/// (unknown background-profile label). `DataError` rejects a malformed or
/// unresolvable record. `ResourceExhaustion` is raised when more unique
/// samples are requested than the universe holds, instead of looping.
#[derive(Clone, Copy, Debug, PartialEq, Eq, Structural)]
pub enum SimError {
    ConfigurationError,
    DataError,
    ResourceExhaustion,
}

/// Path of the gene/term association database consumed by the serving layer.
pub fn get_db_path() -> (r: String)
    ensures
        r@ == "/hpoAssociations/hpo.db"@,
{
    String::from_str("/hpoAssociations/hpo.db")
}

} // verus!

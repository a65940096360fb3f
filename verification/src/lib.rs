//! An evolutionary optimizer that fits a linear weight vector to a tabular
//! dataset by minimizing total absolute prediction error.
//!
//! Real-valued quantities (dataset cells, genes, probabilities) are held in
//! fixed-point form: an `i64` counts millionths, so `1_000_000` stands for
//! the real number one.  All arithmetic on them is exact integer arithmetic,
//! which lets every operator of the optimizer carry a full functional
//! contract.

use vstd::prelude::*;

pub mod codec;
pub mod fixed;
pub mod individual;
pub mod population;
pub mod rng;
pub mod score;
pub mod select;
pub mod training;

verus! {

/// The failure conditions the optimizer surfaces to its caller.
#[derive(Clone, Copy, Debug, PartialEq, Eq, Structural)]
pub enum Error {
    /// A genotype's length disagrees with the dataset's genotype size,
    /// or a row's length disagrees with the rows already present.
    ShapeMismatch,
    /// A fixed-point value lies outside the supported magnitude range.
    ValueOutOfRange,
    /// `get_best` was asked for the best of zero candidates.
    EmptyPopulation,
    /// A serialized form does not parse back into the expected structure.
    MalformedInput,
    /// A configuration value is degenerate: a probability outside `[0, 1]`
    /// or a maximum age of zero.
    InvalidConfig,
}

} // verus!

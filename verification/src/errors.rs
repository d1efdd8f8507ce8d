//! The failures that the engine reports to its caller.

use vstd::prelude::*;

verus! {

/// Every way in which an operation of this crate can fail.
#[derive(Clone, Copy, Debug, PartialEq, Eq, Structural)]
pub enum TyrosineError {
    /// A genome breaks one of the structural invariants of [`crate::genome::Genome`].
    InvalidGenome,
    /// No species would receive a reproductive slot: the total fitness is zero,
    /// or a population of size zero was asked for.
    EmptyPopulation,
    /// The enabled connections of a genome form a cycle.
    InvalidTopology,
    /// An activation was asked for with the wrong number of inputs.
    InputArityMismatch,
    /// The fitness vector does not have one entry per specimen.
    FitnessArityMismatch,
    /// The counters of a population leave no room for another generation.
    CountersExhausted,
    /// A file could not be created.
    CouldntCreateFile,
    /// A file could not be written.
    CouldntWriteFile,
    /// A file could not be read.
    CouldntReadFile,
    /// A stored generation does not follow the layout of its file.
    InvalidFileFormat,
    /// The bytes of a stored genome do not follow the layout.
    InvalidGenomeFormat,
}

} // verus!

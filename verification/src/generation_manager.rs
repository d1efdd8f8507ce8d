//! Policies for the step from one generation to the next.

use vstd::prelude::*;

verus! {

/// How to handle the creatures of the current generation.
#[derive(Clone, Copy, Debug, PartialEq, Eq, Structural)]
pub enum Handling {
    /// All generations must have unique creatures.
    UniqueCreatures,
    /// Creatures may continue existing into the next generation.
    PersistentCreatures,
}

} // verus!

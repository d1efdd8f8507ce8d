//! Kinds of networks that can be built from a genome.

use vstd::prelude::*;

verus! {

/// A kind of network that holds nothing yet.
#[derive(Clone, Copy, Debug, PartialEq, Eq, Structural)]
pub struct FleekCreature {}

} // verus!

//! A neuroevolution engine in the style of NEAT.
//!
//! A population of feed-forward networks is encoded as genomes: graphs of
//! node genes and weighted connection genes whose structural identity is
//! tracked by innovation numbers. The caller scores every network of a
//! generation, and the population then advances by selection, crossover and
//! mutation, with the individuals grouped into species.
//!
//! All numbers are integers. A weight is a fixed-point value with
//! [`genome::WEIGHT_UNIT`] standing for one; a fitness is any non-negative
//! integer score. Two things are left to the caller, because they are
//! floating-point work: the forward pass of a network, for which
//! [`phenotype::Phenotype::activation_plan`] lays out the order of work, and
//! the Gaussian nudges of the weight mutation, which the caller hands in as
//! a table of fixed-point samples.
//!
//! The modules, leaves first:
//!
//! - [`innovation`]: the counter and the registry of innovation numbers;
//! - [`genome`]: genomes, their mutations and crossover;
//! - [`alignment`]: the innovation numbers of two genomes, in order;
//! - [`persistence`]: genomes as bytes;
//! - [`phenotype`]: the check for cycles and the plan of an activation;
//! - [`species`]: the compatibility distance, clustering and breeding;
//! - [`selection`]: ranking by fitness and the allotment of slots;
//! - [`population`]: the first generation and the step to the next;
//! - [`random`]: the random draws, taken from `rand`;
//! - [`topo`]: the renumbering of node ids;
//! - [`generation_manager`], [`creature`]: policies and kinds of networks;
//! - [`bits`]: a readable rendering of bytes.

use vstd::prelude::*;

pub mod alignment;
pub mod bits;
pub mod creature;
pub mod errors;
pub mod generation_manager;
pub mod genome;
pub mod innovation;
pub mod persistence;
pub mod phenotype;
pub mod population;
pub mod random;
pub mod selection;
pub mod species;
pub mod topo;

pub use crate::bits::{bytes_to_unicode_bits, unicode_bits_to_bytes};

verus! {

/// The sum of two numbers.
pub fn add(left: u64, right: u64) -> (sum: u64)
    requires
        left + right <= u64::MAX,
    ensures
        sum == left + right,
{
    left + right
}

} // verus!

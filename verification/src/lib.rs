//! NEAT-style neuroevolution of small neural networks, together with the
//! bitboard game and negamax solver that can serve as a fitness source.
//!
//! Scalars (weights, activations, fitness values) are fixed-point integers
//! (see [`fixed`]), so evaluation is exact and fully specified.

pub mod fixed;
pub mod game;
pub mod genes;
pub mod graph;
pub mod neat;
pub mod network;
pub mod registry;
pub mod rng;
pub mod solver;
pub mod species;

use vstd::prelude::*;

verus! {

} // verus!

//! A small NEAT-style neuroevolution library: genomes are layered
//! feed-forward networks whose topology and parameters evolve under a
//! fitness signal, plus the tile board of the light game that drives them.
//!
//! Real-number parameters (weights, biases, fitness) are carried as IEEE-754
//! binary32 bit patterns in `u32` fields; the arithmetic on them is performed
//! by outside libraries behind the trusted items in `fbits`.

#![verifier::loop_isolation(false)]

pub mod fbits;
pub mod rng;
pub mod helpers;
pub mod activation_functions;
pub mod genes;
pub mod nn;
pub mod mutation;
pub mod environment;
pub mod game;

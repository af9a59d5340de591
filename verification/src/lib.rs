//! Growth-simulation core of a tile-based garden game.
//!
//! A branching structure is built on a hexagonal lattice with two interleaved
//! sublattices: "branch" sites carry the structure, "gift" sites carry small
//! organisms that appear and evolve by a neighbour-counting automaton rule.
//! The organisms feed a two-resource economy that in turn gates construction.
//!
//! The crate also carries the small pure helpers of the racing variant that
//! shares the lattice: checkpoint arithmetic and the racer state machine.

pub mod cell;
pub mod checkpoint;
pub mod race;
pub mod store;
pub mod hex;
pub mod garden;
pub mod life;

use vstd::prelude::*;

verus! {

} // verus!

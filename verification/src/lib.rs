//! Netlist passes over `safety_net` gate netlists, with their contracts.
//!
//! [`netlist::Design`] holds a netlist of gates; the passes in [`passes`] and
//! [`rewrites`] read and rewrite it.
use vstd::prelude::*;

pub mod text;
pub mod netlist;
pub mod usage;
pub mod listing;
pub mod passes;
pub mod rewrites;

verus! {

} // verus!

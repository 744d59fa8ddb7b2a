use vstd::prelude::*;

pub mod circuit;
pub mod globals;
pub mod logic;
pub mod netlist;
pub mod run_circuit;

verus! {
} // verus!

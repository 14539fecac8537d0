//! Summaries of collective function calls.

pub mod call_laws;
pub mod cases;
pub mod coverage;
pub mod demand_laws;
pub mod entry;
pub mod erased;
pub mod laws;
pub mod outcome;
pub mod participants;
pub mod rendezvous;
pub mod runtime;
pub mod step_laws;
pub mod symmetry;
pub mod tuples;
pub mod value;

//! Symbolic values of the modelled program.

pub mod events;
pub mod expr;
pub mod meaning;
pub mod scopes;
pub mod solver;
pub mod terms;
pub mod written;

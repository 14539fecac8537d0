//! Pictures of graphs, for finding out what a program did.

pub mod gallery;
pub mod tikz_log;

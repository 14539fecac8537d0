//! Communication in rounds.

pub mod ballot;
pub mod counter;
pub mod laws;
pub mod round;
pub mod rounds;
pub mod set;
pub mod transport;

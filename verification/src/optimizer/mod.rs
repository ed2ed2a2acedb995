//! The orientation moves of the optimizer, and the phase that makes them.
pub mod anneal;
pub mod assignment;
pub mod disrupt;
pub mod explore;
pub mod flip;
pub mod resolve;
pub mod run;
pub mod search;

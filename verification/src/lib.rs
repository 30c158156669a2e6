//! Simulated elections: plurality and instant-runoff counting over ballots
//! that are drawn at random or supplied by the caller.

pub mod ballot;
pub mod create_ballot;
pub mod election;
pub mod extrema;
pub mod plurality;
pub mod ranked;
pub mod runoff;
pub mod simulation;

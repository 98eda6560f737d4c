//! Monte Carlo estimates of how many rolls a game of Tenzi takes under
//! three keep/re-roll policies, with the mode arithmetic they rest on.

pub mod dice;
pub mod histogram;
pub mod mode;
pub mod runner;
pub mod simulation;

//! A vote-tally register: candidates are registered once, each voter votes
//! once, and the register reports tallies and the current leader.

mod error;
pub mod model;
mod register;

pub use error::Error;
pub use register::VotingContract;

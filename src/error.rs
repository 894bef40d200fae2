use vstd::prelude::*;

verus! {

/// The ways an operation on the register can fail.
#[derive(Debug, Clone, Copy, PartialEq, Eq, Structural)]
pub enum Error {
    /// A candidate with that name is already registered.
    CandidateAlreadyExists,
    /// No candidate with that name is registered.
    CandidateNotFound,
    /// Left for integrators' own authorization checks; no operation here returns it.
    NotAuthorized,
    /// The voter has already cast a vote.
    AlreadyVoted,
    /// The register holds no candidate, so there is no leader.
    NoVoteRecorded,
}

} // verus!

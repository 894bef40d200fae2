use voting::Error;
use voting::VotingContract;

#[test]
fn test_voting_contract() {
    let mut contract = VotingContract::new();
    contract.propose_candidate("Candidate A".to_string()).unwrap();
    contract.propose_candidate("Candidate B".to_string()).unwrap();
    contract.propose_candidate("Candidate C".to_string()).unwrap();

    assert_eq!(contract.vote_for_candidate("Voter1".to_string(), "Candidate A".to_string()), Ok(()));
    assert_eq!(contract.vote_for_candidate("Voter2".to_string(), "Candidate B".to_string()), Ok(()));
    assert_eq!(contract.vote_for_candidate("Voter3".to_string(), "Candidate C".to_string()), Ok(()));
    assert_eq!(contract.vote_for_candidate("Voter4".to_string(), "Candidate A".to_string()), Ok(()));

    assert_eq!(contract.get_candidate_votes("Candidate A"), Ok(2));
    assert_eq!(contract.get_candidate_votes("Candidate B"), Ok(1));
    assert_eq!(contract.get_candidate_votes("Candidate C"), Ok(1));

    assert_eq!(contract.get_winner(), Ok("Candidate A"));
}

#[test]
fn fresh_candidates_have_no_votes() {
    let mut contract = VotingContract::new();
    for name in ["Ada", "Brook", "Cyd", "Dale"] {
        assert_eq!(contract.propose_candidate(name.to_string()), Ok(()));
    }
    for name in ["Ada", "Brook", "Cyd", "Dale"] {
        assert_eq!(contract.get_candidate_votes(name), Ok(0));
    }
}

#[test]
fn candidate_registered_after_votes_starts_at_zero() {
    let mut contract = VotingContract::new();
    contract.propose_candidate("Ada".to_string()).unwrap();
    contract.vote_for_candidate("v1".to_string(), "Ada".to_string()).unwrap();
    assert_eq!(contract.propose_candidate("Brook".to_string()), Ok(()));
    assert_eq!(contract.get_candidate_votes("Brook"), Ok(0));
    assert_eq!(contract.get_candidate_votes("Ada"), Ok(1));
}

#[test]
fn duplicate_registration_is_refused() {
    let mut contract = VotingContract::new();
    assert_eq!(contract.propose_candidate("Ada".to_string()), Ok(()));
    contract.vote_for_candidate("v1".to_string(), "Ada".to_string()).unwrap();
    assert_eq!(
        contract.propose_candidate("Ada".to_string()),
        Err(Error::CandidateAlreadyExists)
    );
    assert_eq!(contract.get_candidate_votes("Ada"), Ok(1));
    assert_eq!(contract.get_winner(), Ok("Ada"));
}

#[test]
fn second_vote_by_same_voter_is_refused() {
    let mut contract = VotingContract::new();
    contract.propose_candidate("Ada".to_string()).unwrap();
    contract.propose_candidate("Brook".to_string()).unwrap();
    assert_eq!(contract.vote_for_candidate("v1".to_string(), "Ada".to_string()), Ok(()));
    assert_eq!(
        contract.vote_for_candidate("v1".to_string(), "Brook".to_string()),
        Err(Error::AlreadyVoted)
    );
    assert_eq!(
        contract.vote_for_candidate("v1".to_string(), "Ada".to_string()),
        Err(Error::AlreadyVoted)
    );
    assert_eq!(contract.get_candidate_votes("Ada"), Ok(1));
    assert_eq!(contract.get_candidate_votes("Brook"), Ok(0));
}

#[test]
fn repeat_voter_is_refused_before_candidate_lookup() {
    let mut contract = VotingContract::new();
    contract.propose_candidate("Ada".to_string()).unwrap();
    contract.vote_for_candidate("v1".to_string(), "Ada".to_string()).unwrap();
    assert_eq!(
        contract.vote_for_candidate("v1".to_string(), "Nobody".to_string()),
        Err(Error::AlreadyVoted)
    );
}

#[test]
fn vote_for_unknown_candidate_changes_nothing() {
    let mut contract = VotingContract::new();
    contract.propose_candidate("Ada".to_string()).unwrap();
    assert_eq!(
        contract.vote_for_candidate("v1".to_string(), "Nobody".to_string()),
        Err(Error::CandidateNotFound)
    );
    assert_eq!(contract.get_candidate_votes("Ada"), Ok(0));
    // The refused voter was not recorded: a later vote is accepted.
    assert_eq!(contract.vote_for_candidate("v1".to_string(), "Ada".to_string()), Ok(()));
    assert_eq!(contract.get_candidate_votes("Ada"), Ok(1));
}

#[test]
fn tally_of_unknown_candidate_is_refused() {
    let mut contract = VotingContract::new();
    assert_eq!(contract.get_candidate_votes("Ada"), Err(Error::CandidateNotFound));
    contract.propose_candidate("Ada".to_string()).unwrap();
    assert_eq!(contract.get_candidate_votes("Brook"), Err(Error::CandidateNotFound));
    assert_eq!(contract.get_candidate_votes("ada"), Err(Error::CandidateNotFound));
}

#[test]
fn empty_register_has_no_winner() {
    let contract = VotingContract::new();
    assert_eq!(contract.get_winner(), Err(Error::NoVoteRecorded));
}

#[test]
fn winner_without_votes_is_first_registered() {
    let mut contract = VotingContract::new();
    contract.propose_candidate("Ada".to_string()).unwrap();
    contract.propose_candidate("Brook".to_string()).unwrap();
    assert_eq!(contract.get_winner(), Ok("Ada"));
}

#[test]
fn three_way_scenario() {
    let mut contract = VotingContract::new();
    for name in ["A", "B", "C"] {
        contract.propose_candidate(name.to_string()).unwrap();
    }
    assert_eq!(contract.vote_for_candidate("V1".to_string(), "A".to_string()), Ok(()));
    assert_eq!(contract.vote_for_candidate("V2".to_string(), "B".to_string()), Ok(()));
    assert_eq!(contract.vote_for_candidate("V3".to_string(), "C".to_string()), Ok(()));
    assert_eq!(contract.vote_for_candidate("V4".to_string(), "A".to_string()), Ok(()));
    assert_eq!(contract.get_candidate_votes("A"), Ok(2));
    assert_eq!(contract.get_candidate_votes("B"), Ok(1));
    assert_eq!(contract.get_candidate_votes("C"), Ok(1));
    assert_eq!(contract.get_winner(), Ok("A"));
}

#[test]
fn tie_goes_to_earliest_registered() {
    let mut contract = VotingContract::new();
    contract.propose_candidate("A".to_string()).unwrap();
    contract.propose_candidate("B".to_string()).unwrap();
    contract.vote_for_candidate("V1".to_string(), "A".to_string()).unwrap();
    contract.vote_for_candidate("V2".to_string(), "B".to_string()).unwrap();
    assert_eq!(contract.get_winner(), Ok("A"));
}

#[test]
fn later_candidate_overtakes_leader() {
    let mut contract = VotingContract::new();
    for name in ["A", "B", "C"] {
        contract.propose_candidate(name.to_string()).unwrap();
    }
    contract.vote_for_candidate("V1".to_string(), "A".to_string()).unwrap();
    contract.vote_for_candidate("V2".to_string(), "C".to_string()).unwrap();
    contract.vote_for_candidate("V3".to_string(), "C".to_string()).unwrap();
    assert_eq!(contract.get_winner(), Ok("C"));
    contract.vote_for_candidate("V4".to_string(), "A".to_string()).unwrap();
    assert_eq!(contract.get_winner(), Ok("A"));
}

#[test]
fn not_authorized_is_a_distinct_error() {
    assert_ne!(Error::NotAuthorized, Error::AlreadyVoted);
    assert_eq!(Error::NotAuthorized, Error::NotAuthorized);
}

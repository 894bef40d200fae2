use vstd::prelude::*;

use crate::error::Error;
use crate::model::{
    credited, lemma_entry_within_total, lemma_leader_unique, lemma_position_of,
    lemma_register_keeps_valid, lemma_vote_keeps_valid, RegisterView,
};

verus! {

/// A ballot register: candidates in registration order with their tallies,
/// and the voters who have voted.
pub struct VotingContract {
    candidates: Vec<(String, u32)>,
    voters: Vec<String>,
}

impl View for VotingContract {
    type V = RegisterView;

    closed spec fn view(&self) -> RegisterView {
        RegisterView {
            entries: self.candidates@.map_values(|c: (String, u32)| (c.0@, c.1 as nat)),
            voters: self.voter_names().to_set(),
        }
    }
}

impl VotingContract {
    spec fn voter_names(&self) -> Seq<Seq<char>> {
        self.voters@.map_values(|s: String| s@)
    }

    /// The register is valid and holds each voter once.
    pub closed spec fn wf(&self) -> bool {
        &&& self@.valid()
        &&& self.voter_names().no_duplicates()
    }

    /// An empty register.
    pub fn new() -> (r: Self)
        ensures
            r.wf(),
            r@ == RegisterView::empty(),
    {
        let r = VotingContract { candidates: Vec::new(), voters: Vec::new() };
        assert(r@.entries =~= Seq::empty());
        assert(r@.voters =~= Set::empty());
        r
    }

    /// The index of the candidate named `name`, if there is one.
    fn find(&self, name: &String) -> (r: Option<usize>)
        ensures
            match r {
                Some(i) => i < self.candidates.len() && self@.entries[i as int].0 == name@,
                None => !self@.has_candidate(name@),
            },
    {
        let mut i: usize = 0;
        while i < self.candidates.len()
            invariant
                i <= self.candidates.len(),
                forall|j: int| 0 <= j < i ==> #[trigger] self@.entries[j].0 != name@,
            decreases self.candidates.len() - i,
        {
            if self.candidates[i].0 == *name {
                return Some(i);
            }
            i = i + 1;
        }
        None
    }

    /// Whether `voter` has already voted.
    fn has_voted(&self, voter: &String) -> (r: bool)
        ensures
            r == self@.voters.contains(voter@),
    {
        let mut i: usize = 0;
        while i < self.voters.len()
            invariant
                i <= self.voters.len(),
                forall|j: int| 0 <= j < i ==> #[trigger] self.voter_names()[j] != voter@,
            decreases self.voters.len() - i,
        {
            if self.voters[i] == *voter {
                assert(self.voter_names()[i as int] == voter@);
                return true;
            }
            i = i + 1;
        }
        false
    }

    /// Registers `candidate` with no votes, after the candidates already
    /// registered; refused if that name is taken.
    pub fn propose_candidate(&mut self, candidate: String) -> (r: Result<(), Error>)
        requires
            old(self).wf(),
        ensures
            final(self).wf(),
            (final(self)@, r) == old(self)@.register(candidate@),
    {
        if self.find(&candidate).is_some() {
            return Err(Error::CandidateAlreadyExists);
        }
        proof {
            lemma_register_keeps_valid(self@, candidate@);
        }
        let ghost before = self@;
        self.candidates.push((candidate, 0));
        assert(self@.entries =~= before.entries.push((candidate@, 0nat)));
        Ok(())
    }

    /// Records a vote of `voter` for `candidate`. A voter who has voted is
    /// refused first, whatever candidate is named; then an unknown candidate.
    /// On a refusal nothing changes. Tallies are `u32` and add up to the
    /// number of voters, so that number must stay below `u32::MAX`.
    pub fn vote_for_candidate(&mut self, voter: String, candidate: String) -> (r: Result<(), Error>)
        requires
            old(self).wf(),
            old(self)@.voters.len() < u32::MAX,
        ensures
            final(self).wf(),
            (final(self)@, r) == old(self)@.vote(voter@, candidate@),
    {
        if self.has_voted(&voter) {
            return Err(Error::AlreadyVoted);
        }
        match self.find(&candidate) {
            None => Err(Error::CandidateNotFound),
            Some(i) => {
                let ghost before = self@;
                let ghost names = self.voter_names();
                proof {
                    lemma_entry_within_total(before.entries, i as int);
                    lemma_vote_keeps_valid(before, voter@, candidate@);
                }
                let count = self.candidates[i].1;
                self.candidates[i].1 = count + 1;
                assert(self@.entries =~= credited(before.entries, candidate@)) by {
                    assert forall|j: int| 0 <= j < before.entries.len() && j != i implies before.entries[j].0 != candidate@ by {
                        if j < i {
                            assert(before.entries[j].0 != before.entries[i as int].0);
                        } else {
                            assert(before.entries[i as int].0 != before.entries[j].0);
                        }
                    }
                }
                self.voters.push(voter);
                assert(self.voter_names() =~= names.push(voter@));
                assert(self@.voters =~= before.voters.insert(voter@)) by {
                    names.lemma_push_to_set_commute(voter@);
                }
                Ok(())
            },
        }
    }

    /// The tally of `candidate`.
    pub fn get_candidate_votes(&self, candidate: &str) -> (r: Result<u32, Error>)
        requires
            self.wf(),
        ensures
            match r {
                Ok(n) => self@.votes(candidate@) == Ok::<nat, Error>(n as nat),
                Err(e) => self@.votes(candidate@) == Err::<nat, Error>(e),
            },
    {
        let key = candidate.to_owned();
        match self.find(&key) {
            Some(i) => {
                proof {
                    lemma_position_of(self@, i as int);
                }
                Ok(self.candidates[i].1)
            },
            None => Err(Error::CandidateNotFound),
        }
    }

    /// The name of the candidate with the largest tally, the earliest
    /// registered among equals; refused on a register with no candidate.
    pub fn get_winner(&self) -> (r: Result<&str, Error>)
        ensures
            match r {
                Ok(s) => self@.winner() == Ok::<Seq<char>, Error>(s@),
                Err(e) => self@.winner() == Err::<Seq<char>, Error>(e),
            },
    {
        if self.candidates.len() == 0 {
            return Err(Error::NoVoteRecorded);
        }
        let ghost v = self@;
        let mut best: usize = 0;
        let mut i: usize = 1;
        while i < self.candidates.len()
            invariant
                v == self@,
                1 <= i <= self.candidates.len(),
                best < i,
                forall|j: int| 0 <= j < i ==> #[trigger] v.entries[j].1 <= v.entries[best as int].1,
                forall|j: int| 0 <= j < best ==> #[trigger] v.entries[j].1 < v.entries[best as int].1,
            decreases self.candidates.len() - i,
        {
            if self.candidates[i].1 > self.candidates[best].1 {
                best = i;
            }
            i = i + 1;
        }
        proof {
            assert(v.leads(best as int));
            let w = choose|k: int| v.leads(k);
            lemma_leader_unique(v, w, best as int);
        }
        Ok(self.candidates[best].0.as_str())
    }
}

} // verus!

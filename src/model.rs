use vstd::prelude::*;

use crate::error::Error;

verus! {

/// The abstract state of a register: the candidates in registration order,
/// each with its tally, and the set of voters who have voted.
pub struct RegisterView {
    pub entries: Seq<(Seq<char>, nat)>,
    pub voters: Set<Seq<char>>,
}

/// The sum of all tallies.
pub open spec fn total_votes(entries: Seq<(Seq<char>, nat)>) -> nat
    decreases entries.len(),
{
    if entries.len() == 0 {
        0
    } else {
        total_votes(entries.drop_last()) + entries.last().1
    }
}

/// No two entries carry the same name.
pub open spec fn names_distinct(entries: Seq<(Seq<char>, nat)>) -> bool {
    forall|i: int, j: int|
        0 <= i < j < entries.len() ==> #[trigger] entries[i].0 != #[trigger] entries[j].0
}

/// The entries with one more vote for every entry named `name`.
pub open spec fn credited(entries: Seq<(Seq<char>, nat)>, name: Seq<char>) -> Seq<(Seq<char>, nat)> {
    entries.map_values(
        |e: (Seq<char>, nat)|
            if e.0 == name {
                (e.0, (e.1 + 1) as nat)
            } else {
                e
            },
    )
}

impl RegisterView {
    /// The register as it is created: no candidate, no voter.
    pub open spec fn empty() -> RegisterView {
        RegisterView { entries: Seq::empty(), voters: Set::empty() }
    }

    /// Candidate names are distinct and every tally stands for one recorded
    /// voter: the tallies add up to the number of voters.
    pub open spec fn valid(self) -> bool {
        &&& names_distinct(self.entries)
        &&& self.voters.finite()
        &&& total_votes(self.entries) == self.voters.len()
    }

    /// Some entry is named `name`.
    pub open spec fn has_candidate(self, name: Seq<char>) -> bool {
        exists|i: int| 0 <= i < self.entries.len() && #[trigger] self.entries[i].0 == name
    }

    /// Where the candidate `name` stands in registration order.
    pub open spec fn position(self, name: Seq<char>) -> int {
        choose|i: int| 0 <= i < self.entries.len() && #[trigger] self.entries[i].0 == name
    }

    /// The votes recorded for the candidate `name`.
    pub open spec fn tally(self, name: Seq<char>) -> nat {
        self.entries[self.position(name)].1
    }

    /// The state after a registration of `name`, and its outcome.
    pub open spec fn register(self, name: Seq<char>) -> (RegisterView, Result<(), Error>) {
        if self.has_candidate(name) {
            (self, Err(Error::CandidateAlreadyExists))
        } else {
            (RegisterView { entries: self.entries.push((name, 0nat)), voters: self.voters }, Ok(()))
        }
    }

    /// The state after `voter` votes for `name`, and its outcome. A repeat
    /// voter is refused before the candidate is looked up.
    pub open spec fn vote(self, voter: Seq<char>, name: Seq<char>) -> (RegisterView, Result<(), Error>) {
        if self.voters.contains(voter) {
            (self, Err(Error::AlreadyVoted))
        } else if !self.has_candidate(name) {
            (self, Err(Error::CandidateNotFound))
        } else {
            (
                RegisterView { entries: credited(self.entries, name), voters: self.voters.insert(voter) },
                Ok(()),
            )
        }
    }

    /// The outcome of asking for the tally of `name`.
    pub open spec fn votes(self, name: Seq<char>) -> Result<nat, Error> {
        if self.has_candidate(name) {
            Ok(self.tally(name))
        } else {
            Err(Error::CandidateNotFound)
        }
    }

    /// Entry `i` has the largest tally, and every earlier entry a smaller one.
    pub open spec fn leads(self, i: int) -> bool {
        &&& 0 <= i < self.entries.len()
        &&& forall|j: int| 0 <= j < self.entries.len() ==> #[trigger] self.entries[j].1 <= self.entries[i].1
        &&& forall|j: int| 0 <= j < i ==> #[trigger] self.entries[j].1 < self.entries[i].1
    }

    /// The outcome of asking for the leader: the earliest registered among
    /// the candidates with the largest tally.
    pub open spec fn winner(self) -> Result<Seq<char>, Error> {
        if self.entries.len() == 0 {
            Err(Error::NoVoteRecorded)
        } else {
            Ok(self.entries[choose|i: int| self.leads(i)].0)
        }
    }

    /// The state after registering each of `names` in turn.
    pub open spec fn register_all(self, names: Seq<Seq<char>>) -> RegisterView
        decreases names.len(),
    {
        if names.len() == 0 {
            self
        } else {
            self.register_all(names.drop_last()).register(names.last()).0
        }
    }
}

/// Appending an entry adds its tally to the sum.
pub proof fn lemma_total_push(entries: Seq<(Seq<char>, nat)>, e: (Seq<char>, nat))
    ensures
        total_votes(entries.push(e)) == total_votes(entries) + e.1,
{
    assert(entries.push(e).drop_last() =~= entries);
}

/// No tally exceeds the sum of all tallies.
pub proof fn lemma_entry_within_total(entries: Seq<(Seq<char>, nat)>, i: int)
    requires
        0 <= i < entries.len(),
    ensures
        entries[i].1 <= total_votes(entries),
    decreases entries.len(),
{
    if i < entries.len() - 1 {
        lemma_entry_within_total(entries.drop_last(), i);
    }
}

/// Crediting a name that appears exactly once adds one to the sum.
pub proof fn lemma_total_credited(entries: Seq<(Seq<char>, nat)>, name: Seq<char>, k: int)
    requires
        names_distinct(entries),
        0 <= k < entries.len(),
        entries[k].0 == name,
    ensures
        total_votes(credited(entries, name)) == total_votes(entries) + 1,
    decreases entries.len(),
{
    let c = credited(entries, name);
    let rest = entries.drop_last();
    assert(c.drop_last() =~= credited(rest, name));
    if k == entries.len() - 1 {
        assert(credited(rest, name) =~= rest) by {
            assert forall|j: int| 0 <= j < rest.len() implies rest[j].0 != name by {
                assert(entries[j].0 != entries[k].0);
            }
        }
    } else {
        lemma_total_credited(rest, name, k);
    }
}

/// Two leading entries are the same entry.
pub proof fn lemma_leader_unique(v: RegisterView, i: int, j: int)
    requires
        v.leads(i),
        v.leads(j),
    ensures
        i == j,
{
    if i < j {
        assert(v.entries[i].1 < v.entries[j].1);
        assert(v.entries[j].1 <= v.entries[i].1);
    } else if j < i {
        assert(v.entries[j].1 < v.entries[i].1);
        assert(v.entries[i].1 <= v.entries[j].1);
    }
}

/// With distinct names, the position of a name is the index that holds it.
pub proof fn lemma_position_of(v: RegisterView, k: int)
    requires
        names_distinct(v.entries),
        0 <= k < v.entries.len(),
    ensures
        v.has_candidate(v.entries[k].0),
        v.position(v.entries[k].0) == k,
{
    let name = v.entries[k].0;
    assert(v.entries[k].0 == name);
    let p = v.position(name);
    if p != k {
        if p < k {
            assert(v.entries[p].0 != v.entries[k].0);
        } else {
            assert(v.entries[k].0 != v.entries[p].0);
        }
    }
}

/// A registration keeps the register valid.
pub proof fn lemma_register_keeps_valid(v: RegisterView, name: Seq<char>)
    requires
        v.valid(),
    ensures
        v.register(name).0.valid(),
{
    if !v.has_candidate(name) {
        let e = v.entries.push((name, 0nat));
        lemma_total_push(v.entries, (name, 0nat));
        assert forall|i: int, j: int| 0 <= i < j < e.len() implies #[trigger] e[i].0 != #[trigger] e[j].0 by {
            if j == e.len() - 1 {
                assert(v.entries[i].0 != name);
            } else {
                assert(v.entries[i].0 != v.entries[j].0);
            }
        }
    }
}

/// A vote keeps the register valid.
pub proof fn lemma_vote_keeps_valid(v: RegisterView, voter: Seq<char>, name: Seq<char>)
    requires
        v.valid(),
    ensures
        v.vote(voter, name).0.valid(),
{
    if !v.voters.contains(voter) && v.has_candidate(name) {
        let k = choose|i: int| 0 <= i < v.entries.len() && #[trigger] v.entries[i].0 == name;
        lemma_total_credited(v.entries, name, k);
        let c = credited(v.entries, name);
        assert forall|i: int, j: int| 0 <= i < j < c.len() implies #[trigger] c[i].0 != #[trigger] c[j].0 by {
            assert(v.entries[i].0 != v.entries[j].0);
        }
    }
}

/// Candidates registered one after another under distinct fresh names all
/// start with a tally of zero, and the voters stay as they were.
pub proof fn lemma_fresh_candidates_start_at_zero(v: RegisterView, names: Seq<Seq<char>>)
    requires
        names.no_duplicates(),
        forall|k: int| 0 <= k < names.len() ==> !v.has_candidate(#[trigger] names[k]),
    ensures
        v.register_all(names).voters == v.voters,
        forall|k: int| 0 <= k < names.len() ==> #[trigger] v.register_all(names).votes(names[k]) == Ok::<nat, Error>(0),
    decreases names.len(),
{
    lemma_register_all_appends(v, names);
    let w = v.register_all(names);
    assert forall|k: int| 0 <= k < names.len() implies #[trigger] w.votes(names[k]) == Ok::<nat, Error>(0) by {
        let n = names[k];
        assert(w.entries[v.entries.len() + k].0 == n);
        let p = w.position(n);
        if p < v.entries.len() {
            assert(v.entries[p].0 == n);
        }
    }
}

/// Registering fresh distinct names appends them, each with no votes.
proof fn lemma_register_all_appends(v: RegisterView, names: Seq<Seq<char>>)
    requires
        names.no_duplicates(),
        forall|k: int| 0 <= k < names.len() ==> !v.has_candidate(#[trigger] names[k]),
    ensures
        v.register_all(names).voters == v.voters,
        v.register_all(names).entries =~= v.entries + names.map_values(|n: Seq<char>| (n, 0nat)),
    decreases names.len(),
{
    if names.len() > 0 {
        let prefix = names.drop_last();
        let last = names.last();
        lemma_register_all_appends(v, prefix);
        let w = v.register_all(prefix);
        if w.has_candidate(last) {
            let i = choose|i: int| 0 <= i < w.entries.len() && #[trigger] w.entries[i].0 == last;
            if i < v.entries.len() {
                assert(v.entries[i].0 == last);
            } else {
                let k = i - v.entries.len();
                assert(prefix[k] == names[k]);
                assert(names[k] == names[names.len() - 1]);
            }
        }
        assert(names.map_values(|n: Seq<char>| (n, 0nat)) =~= prefix.map_values(|n: Seq<char>| (n, 0nat)).push((last, 0nat)));
    }
}

/// A name registered twice: the first registration succeeds and the second is
/// refused with `CandidateAlreadyExists`, leaving the register as the first
/// left it, the new candidate with no votes.
pub proof fn lemma_register_twice(v: RegisterView, name: Seq<char>)
    requires
        v.valid(),
        !v.has_candidate(name),
    ensures
        v.register(name).1 == Ok::<(), Error>(()),
        v.register(name).0.register(name).1 == Err::<(), Error>(Error::CandidateAlreadyExists),
        v.register(name).0.register(name).0 == v.register(name).0,
        v.register(name).0.entries.len() == v.entries.len() + 1,
        v.register(name).0.votes(name) == Ok::<nat, Error>(0),
{
    let w = v.register(name).0;
    lemma_register_keeps_valid(v, name);
    lemma_position_of(w, v.entries.len() as int);
}

/// A voter who votes twice is refused the second time with `AlreadyVoted`,
/// whatever candidate is named; only the first vote is counted.
pub proof fn lemma_vote_twice(v: RegisterView, voter: Seq<char>, first: Seq<char>, second: Seq<char>)
    requires
        v.valid(),
        !v.voters.contains(voter),
        v.has_candidate(first),
    ensures
        v.vote(voter, first).1 == Ok::<(), Error>(()),
        v.vote(voter, first).0.vote(voter, second).1 == Err::<(), Error>(Error::AlreadyVoted),
        v.vote(voter, first).0.vote(voter, second).0 == v.vote(voter, first).0,
        v.vote(voter, first).0.votes(first) == Ok::<nat, Error>(v.tally(first) + 1),
{
    let w = v.vote(voter, first).0;
    let k = choose|i: int| 0 <= i < v.entries.len() && #[trigger] v.entries[i].0 == first;
    lemma_position_of(v, k);
    lemma_vote_keeps_valid(v, voter, first);
    assert(w.entries[k].0 == first);
    lemma_position_of(w, k);
}

/// A vote for an unknown candidate by a voter who has not voted is refused
/// with `CandidateNotFound`, and nothing changes.
pub proof fn lemma_vote_for_unknown(v: RegisterView, voter: Seq<char>, name: Seq<char>)
    requires
        v.valid(),
        !v.voters.contains(voter),
        !v.has_candidate(name),
    ensures
        v.vote(voter, name) == (v, Err::<(), Error>(Error::CandidateNotFound)),
{
}

/// An empty register has no leader.
pub proof fn lemma_empty_has_no_winner()
    ensures
        RegisterView::empty().winner() == Err::<Seq<char>, Error>(Error::NoVoteRecorded),
{
}

} // verus!

//! Ballots: a single choice, or a full ranking of the candidates.

use vstd::prelude::*;

verus! {

/// What one voter hands in.
#[derive(Clone, Debug, PartialEq, Eq)]
pub enum Ballot {
    /// The voter's one choice.
    Plurality(usize),
    /// Every candidate, the most preferred first.
    Ranked(Vec<usize>),
}

/// `choices` ranks the candidates `0 .. num_candidates`: it has that many
/// entries, each names a candidate, and none is named twice.
pub open spec fn is_ranking(choices: Seq<usize>, num_candidates: nat) -> bool {
    &&& choices.len() == num_candidates
    &&& forall|i: int| 0 <= i < choices.len() ==> #[trigger] choices[i] < num_candidates
    &&& forall|i: int, j: int|
        0 <= i < j < choices.len() ==> #[trigger] choices[i] != #[trigger] choices[j]
}

/// A ranking leaves no candidate out.
pub proof fn lemma_ranking_names_everyone(choices: Seq<usize>, num_candidates: nat)
    requires
        is_ranking(choices, num_candidates),
    ensures
        forall|c: usize| c < num_candidates ==> choices.contains(c),
{
    let widened = choices.map_values(|c: usize| c as int);
    let everyone = vstd::set_lib::set_int_range(0, num_candidates as int);
    assert(widened.no_duplicates());
    widened.unique_seq_to_set();
    vstd::set_lib::lemma_int_range(0, num_candidates as int);
    assert(widened.to_set().subset_of(everyone)) by {
        assert forall|v: int| widened.to_set().contains(v) implies everyone.contains(v) by {
            let i = choose|i: int| 0 <= i < widened.len() && widened[i] == v;
            assert(choices[i] < num_candidates);
        }
    }
    vstd::seq_lib::seq_to_set_is_finite(widened);
    vstd::set_lib::lemma_subset_equality(widened.to_set(), everyone);
    assert forall|c: usize| c < num_candidates implies choices.contains(c) by {
        assert(everyone.contains(c as int));
        assert(widened.to_set().contains(c as int));
        let i = choose|i: int| 0 <= i < widened.len() && widened[i] == c as int;
        assert(choices[i] == c);
    }
}

impl Ballot {
    /// The ballot is one that a voter may cast when `num_candidates` stand.
    pub open spec fn valid_for(self, num_candidates: nat) -> bool {
        match self {
            Ballot::Plurality(choice) => choice < num_candidates,
            Ballot::Ranked(choices) => is_ranking(choices@, num_candidates),
        }
    }

    /// The candidate whom the ballot prefers to all others.
    pub open spec fn top_choice(self) -> usize {
        match self {
            Ballot::Plurality(choice) => choice,
            Ballot::Ranked(choices) => choices@[0],
        }
    }

    /// Tells whether the ballot may be cast when `num_candidates` stand.
    pub fn is_valid(&self, num_candidates: usize) -> (valid: bool)
        ensures
            valid == self.valid_for(num_candidates as nat),
    {
        match self {
            Ballot::Plurality(choice) => *choice < num_candidates,
            Ballot::Ranked(choices) => {
                if choices.len() != num_candidates {
                    return false;
                }
                let mut seen: Vec<bool> = Vec::new();
                while seen.len() < num_candidates
                    invariant
                        seen@.len() <= num_candidates,
                        forall|c: int| 0 <= c < seen@.len() ==> !seen@[c],
                    decreases num_candidates - seen@.len(),
                {
                    seen.push(false);
                }
                let mut i: usize = 0;
                while i < choices.len()
                    invariant
                        0 <= i <= choices@.len(),
                        choices@.len() == num_candidates,
                        seen@.len() == num_candidates,
                        self.valid_for(num_candidates as nat) == is_ranking(
                            choices@,
                            num_candidates as nat,
                        ),
                        forall|j: int| 0 <= j < i ==> #[trigger] choices@[j] < num_candidates,
                        forall|j: int, k: int|
                            0 <= j < k < i ==> #[trigger] choices@[j] != #[trigger] choices@[k],
                        forall|c: int|
                            0 <= c < num_candidates ==> (#[trigger] seen@[c] <==> exists|j: int|
                                0 <= j < i && choices@[j] == c),
                    decreases choices@.len() - i,
                {
                    let choice = choices[i];
                    if choice >= num_candidates {
                        assert(choices@[i as int] >= num_candidates);
                        return false;
                    }
                    if seen[choice] {
                        proof {
                            let j = choose|j: int| 0 <= j < i && choices@[j] == choice;
                            assert(choices@[j] == choices@[i as int]);
                        }
                        return false;
                    }
                    seen.set(choice, true);
                    proof {
                        assert forall|c: int| 0 <= c < num_candidates implies (#[trigger] seen@[c]
                            <==> exists|j: int| 0 <= j < i + 1 && choices@[j] == c) by {
                            if c == choice {
                                assert(choices@[i as int] == c);
                            }
                        }
                    }
                    i += 1;
                }
                true
            },
        }
    }

    /// Keeps only the first preference: a ranked ballot becomes a vote for
    /// the candidate at its head, a plurality ballot stays as it is.
    pub fn as_plurality(&self) -> (projected: Ballot)
        requires
            self matches Ballot::Ranked(choices) ==> choices@.len() > 0,
        ensures
            projected == Ballot::Plurality(self.top_choice()),
            forall|num_candidates: nat|
                self.valid_for(num_candidates) ==> projected.valid_for(num_candidates),
    {
        match self {
            Ballot::Plurality(choice) => Ballot::Plurality(*choice),
            Ballot::Ranked(choices) => Ballot::Plurality(choices[0]),
        }
    }
}

} // verus!

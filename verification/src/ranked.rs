//! The roster of an instant-runoff election and the count of one round.
//!
//! The roster is an ordered list of records, one for each candidate still
//! in the race, and not a map from candidate to count: a record keeps its
//! candidate when the records before it are dropped, and ties are reported
//! in the order of the roster.

use crate::ballot::Ballot;
use vstd::prelude::*;

verus! {

/// One candidate on the roster: `key` is the candidate, which never changes,
/// `value` the votes counted for the candidate in the current round.
#[derive(Clone, Copy, Debug, PartialEq, Eq)]
pub struct Hash {
    pub key: usize,
    pub value: usize,
}

/// The candidates on a roster, in roster order.
pub open spec fn keys_of(roster: Seq<Hash>) -> Seq<usize> {
    roster.map_values(|record: Hash| record.key)
}

/// The vote counts on a roster, in roster order.
pub open spec fn values_of(roster: Seq<Hash>) -> Seq<usize> {
    roster.map_values(|record: Hash| record.value)
}

/// Position `i` is the first on the roster that belongs to `candidate`.
pub open spec fn is_slot_of(keys: Seq<usize>, candidate: usize, i: int) -> bool {
    &&& 0 <= i < keys.len()
    &&& keys[i] == candidate
    &&& forall|j: int| 0 <= j < i ==> keys[j] != candidate
}

/// The most preferred of `choices` that is still on the roster, if any is.
pub open spec fn first_available(keys: Seq<usize>, choices: Seq<usize>) -> Option<usize>
    decreases choices.len(),
{
    if choices.len() == 0 {
        None
    } else if keys.contains(choices.first()) {
        Some(choices.first())
    } else {
        first_available(keys, choices.drop_first())
    }
}

/// The ballot has a vote to give in a round with these candidates: plurality
/// ballots are passed over, a ranked ballot must name one of the candidates.
pub open spec fn can_vote(keys: Seq<usize>, ballot: Ballot) -> bool {
    ballot matches Ballot::Ranked(choices) ==> first_available(keys, choices@) is Some
}

/// The ballot's vote goes to roster position `i`.
pub open spec fn votes_at(keys: Seq<usize>, ballot: Ballot, i: int) -> bool {
    match ballot {
        Ballot::Plurality(_) => false,
        Ballot::Ranked(choices) => match first_available(keys, choices@) {
            Some(candidate) => is_slot_of(keys, candidate, i),
            None => false,
        },
    }
}

/// How many of `ballots` give their vote to roster position `i`.
pub open spec fn votes_for(keys: Seq<usize>, ballots: Seq<Ballot>, i: int) -> nat
    decreases ballots.len(),
{
    if ballots.len() == 0 {
        0
    } else {
        votes_for(keys, ballots.drop_last(), i) + if votes_at(keys, ballots.last(), i) {
            1nat
        } else {
            0nat
        }
    }
}

/// The roster after a counting round: the same candidates in the same
/// order, each with the votes that `ballots` give it.
pub open spec fn tallied(roster: Seq<Hash>, ballots: Seq<Ballot>) -> Seq<Hash> {
    Seq::new(
        roster.len(),
        |i: int| Hash { key: roster[i].key, value: votes_for(keys_of(roster), ballots, i) as usize },
    )
}

/// What `first_available` finds is on the roster and on the ballot, and it
/// finds something whenever the two have a candidate in common.
pub proof fn lemma_first_available(keys: Seq<usize>, choices: Seq<usize>)
    ensures
        match first_available(keys, choices) {
            Some(candidate) => keys.contains(candidate) && choices.contains(candidate),
            None => forall|k: int| 0 <= k < choices.len() ==> !keys.contains(#[trigger] choices[k]),
        },
    decreases choices.len(),
{
    if choices.len() > 0 {
        let rest = choices.drop_first();
        lemma_first_available(keys, rest);
        if keys.contains(choices.first()) {
            assert(choices[0] == choices.first());
        } else {
            match first_available(keys, rest) {
                Some(candidate) => {
                    let k = choose|k: int| 0 <= k < rest.len() && rest[k] == candidate;
                    assert(choices[k + 1] == candidate);
                },
                None => {
                    assert forall|k: int| 0 <= k < choices.len() implies !keys.contains(
                        #[trigger] choices[k],
                    ) by {
                        if k > 0 {
                            assert(rest[k - 1] == choices[k]);
                        }
                    }
                },
            }
        }
    }
}

/// No position gets more votes than there are ballots.
pub proof fn lemma_votes_bounded(keys: Seq<usize>, ballots: Seq<Ballot>, i: int)
    ensures
        votes_for(keys, ballots, i) <= ballots.len(),
    decreases ballots.len(),
{
    if ballots.len() > 0 {
        lemma_votes_bounded(keys, ballots.drop_last(), i);
    }
}

/// Finds the position of the first record on `hash_map` whose key is `key`.
pub fn get_hash_index(hash_map: &[Hash], key: usize) -> (found: Option<usize>)
    ensures
        match found {
            Some(i) => is_slot_of(keys_of(hash_map@), key, i as int),
            None => !keys_of(hash_map@).contains(key),
        },
{
    let mut i: usize = 0;
    while i < hash_map.len()
        invariant
            0 <= i <= hash_map@.len(),
            forall|j: int| 0 <= j < i ==> keys_of(hash_map@)[j] != key,
        decreases hash_map@.len() - i,
    {
        if hash_map[i].key == key {
            return Some(i);
        }
        i += 1;
    }
    None
}

/// The most preferred of `choices` that is still on the roster, if any is.
fn first_on_roster(candidates_votes: &[Hash], choices: &[usize]) -> (found: Option<usize>)
    ensures
        found == first_available(keys_of(candidates_votes@), choices@),
{
    let ghost keys = keys_of(candidates_votes@);
    let mut k: usize = 0;
    assert(choices@.skip(0) == choices@);
    while k < choices.len()
        invariant
            0 <= k <= choices@.len(),
            keys == keys_of(candidates_votes@),
            first_available(keys, choices@) == first_available(keys, choices@.skip(k as int)),
        decreases choices@.len() - k,
    {
        let choice = choices[k];
        proof {
            let rest = choices@.skip(k as int);
            assert(rest.first() == choice);
            assert(rest.drop_first() == choices@.skip(k + 1));
        }
        if get_hash_index(candidates_votes, choice).is_some() {
            return Some(choice);
        }
        k += 1;
    }
    None
}

/// Counts one round: sets every count on the roster to zero, then gives each
/// ranked ballot's vote to the most preferred candidate that is still on it.
pub fn count_votes_ranked(candidates_votes: &mut [Hash], ballots: &[Ballot])
    requires
        forall|b: int|
            0 <= b < ballots@.len() ==> can_vote(
                keys_of(old(candidates_votes)@),
                #[trigger] ballots@[b],
            ),
    ensures
        final(candidates_votes)@ == tallied(old(candidates_votes)@, ballots@),
{
    let ghost keys = keys_of(candidates_votes@);
    let mut i: usize = 0;
    while i < candidates_votes.len()
        invariant
            0 <= i <= candidates_votes@.len(),
            keys_of(candidates_votes@) == keys,
            forall|j: int| 0 <= j < i ==> (#[trigger] candidates_votes@[j]).value == 0,
        decreases candidates_votes@.len() - i,
    {
        candidates_votes[i].value = 0;
        i += 1;
    }
    let mut b: usize = 0;
    while b < ballots.len()
        invariant
            0 <= b <= ballots@.len(),
            keys_of(candidates_votes@) == keys,
            forall|b: int| 0 <= b < ballots@.len() ==> can_vote(keys, #[trigger] ballots@[b]),
            forall|j: int|
                0 <= j < candidates_votes@.len() ==> (#[trigger] candidates_votes@[j]).value
                    == votes_for(keys, ballots@.take(b as int), j),
        decreases ballots@.len() - b,
    {
        proof {
            assert(ballots@.take(b + 1).drop_last() == ballots@.take(b as int));
            assert(ballots@.take(b + 1).last() == ballots@[b as int]);
            assert(can_vote(keys, ballots@[b as int]));
        }
        if let Ballot::Ranked(choices) = &ballots[b] {
            let first_available = first_on_roster(candidates_votes, choices.as_slice());
            proof {
                lemma_first_available(keys, choices@);
            }
            let fac_index = get_hash_index(candidates_votes, first_available.unwrap()).unwrap();
            proof {
                lemma_votes_bounded(keys, ballots@.take(b as int), fac_index as int);
            }
            candidates_votes[fac_index].value += 1;
        }
        b += 1;
    }
    proof {
        assert(ballots@.take(ballots@.len() as int) == ballots@);
        let counted = tallied(old(candidates_votes)@, ballots@);
        assert(candidates_votes@.len() == keys_of(candidates_votes@).len());
        assert forall|j: int| 0 <= j < candidates_votes@.len() implies candidates_votes@[j]
            == counted[j] by {
            assert(keys_of(candidates_votes@)[j] == keys[j]);
            assert(candidates_votes@[j].value == votes_for(keys, ballots@, j));
        }
        assert(candidates_votes@ =~= counted);
    }
}

} // verus!

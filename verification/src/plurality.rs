//! Plurality voting: one pass over the ballots, the most votes win.

use crate::ballot::Ballot;
use crate::election::{outcome_of, ElectionResult, Outcome};
use crate::extrema::{extrema, extrema_indeces, MinOrMax};
use vstd::prelude::*;

verus! {

/// How many of `ballots` are plurality ballots for `candidate`.
pub open spec fn votes_cast(ballots: Seq<Ballot>, candidate: int) -> nat
    decreases ballots.len(),
{
    if ballots.len() == 0 {
        0
    } else {
        votes_cast(ballots.drop_last(), candidate) + if ballots.last() matches Ballot::Plurality(
            choice,
        ) && choice == candidate {
            1nat
        } else {
            0nat
        }
    }
}

/// The plurality count: for each candidate, in order, the ballots cast for it.
pub open spec fn plurality_tally(ballots: Seq<Ballot>, num_candidates: nat) -> Seq<usize> {
    Seq::new(num_candidates, |candidate: int| votes_cast(ballots, candidate) as usize)
}

/// No candidate gets more votes than there are ballots.
pub proof fn lemma_votes_cast_bounded(ballots: Seq<Ballot>, candidate: int)
    ensures
        votes_cast(ballots, candidate) <= ballots.len(),
    decreases ballots.len(),
{
    if ballots.len() > 0 {
        lemma_votes_cast_bounded(ballots.drop_last(), candidate);
    }
}

/// Counts the plurality ballots among `ballots` for each of the candidates
/// `0 .. num_candidates`. Ranked ballots are passed over.
pub fn count_votes_plurality(ballots: &[Ballot], num_candidates: usize) -> (candidates_votes: Vec<
    usize,
>)
    requires
        forall|b: int|
            0 <= b < ballots@.len() ==> (#[trigger] ballots@[b] matches Ballot::Plurality(choice)
                ==> choice < num_candidates),
    ensures
        candidates_votes@ == plurality_tally(ballots@, num_candidates as nat),
{
    let mut candidates_votes: Vec<usize> = vec![0; num_candidates];
    let mut b: usize = 0;
    while b < ballots.len()
        invariant
            0 <= b <= ballots@.len(),
            candidates_votes@.len() == num_candidates,
            forall|b: int|
                0 <= b < ballots@.len() ==> (#[trigger] ballots@[b] matches Ballot::Plurality(
                    choice,
                ) ==> choice < num_candidates),
            forall|c: int|
                0 <= c < num_candidates ==> #[trigger] candidates_votes@[c] == votes_cast(
                    ballots@.take(b as int),
                    c,
                ),
        decreases ballots@.len() - b,
    {
        proof {
            assert(ballots@.take(b + 1).drop_last() == ballots@.take(b as int));
            assert(ballots@.take(b + 1).last() == ballots@[b as int]);
        }
        if let Ballot::Plurality(choice) = &ballots[b] {
            proof {
                lemma_votes_cast_bounded(ballots@.take(b as int), *choice as int);
            }
            candidates_votes[*choice] += 1;
        }
        b += 1;
    }
    proof {
        assert(ballots@.take(ballots@.len() as int) == ballots@);
    }
    candidates_votes
}

/// Holds a plurality election among the candidates `0 .. num_candidates`:
/// the candidate with the most ballots wins, and candidates level at the top
/// are reported as tied.
pub fn simulate_plurality(ballots: &[Ballot], num_candidates: usize) -> (result: ElectionResult)
    requires
        ballots@.len() > 0,
        num_candidates > 0,
        forall|b: int|
            0 <= b < ballots@.len() ==> (#[trigger] ballots@[b] matches Ballot::Plurality(choice)
                ==> choice < num_candidates),
    ensures
        result@ == outcome_of(
            extrema(plurality_tally(ballots@, num_candidates as nat), MinOrMax::Max),
        ),
        result@ matches Outcome::Tie(tied) ==> tied.len() >= 2,
{
    let candidates_votes = count_votes_plurality(ballots, num_candidates);
    let winners = extrema_indeces(candidates_votes.as_slice(), MinOrMax::Max);
    ElectionResult::from_winners(winners)
}

} // verus!

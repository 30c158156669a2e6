//! One run: a set of ranked ballots is drawn, and both kinds of election
//! are held over it, the plurality election over the first preferences.

use crate::ballot::{is_ranking, Ballot};
use crate::create_ballot::create_ballot_ranked;
use crate::election::{outcome_of, ElectionResult, Outcome};
use crate::extrema::{extrema, extrema_indeces, MinOrMax};
use crate::plurality::{count_votes_plurality, plurality_tally};
use crate::runoff::{
    hold_runoff, rounds_view, runoff_final_count, runoff_outcome, runoff_rounds, Runoff,
};
use vstd::prelude::*;

verus! {

/// A run and all that it counted.
#[derive(Clone, Debug, PartialEq, Eq)]
pub struct Simulation {
    /// The ballots as they were drawn.
    pub ranked_ballots: Vec<Ballot>,
    /// The first preference of each of them, in the same order.
    pub plurality_ballots: Vec<Ballot>,
    /// The first preferences counted, for each candidate in order.
    pub plurality_votes: Vec<usize>,
    /// How the plurality election ended.
    pub plurality_result: ElectionResult,
    /// The instant-runoff election as it went.
    pub runoff: Runoff,
}

/// Every one of `ballots` is a ranking of the candidates `0 .. num_candidates`.
pub open spec fn all_rankings(ballots: Seq<Ballot>, num_candidates: nat) -> bool {
    forall|b: int|
        0 <= b < ballots.len() ==> (#[trigger] ballots[b] matches Ballot::Ranked(choices)
            && is_ranking(choices@, num_candidates))
}

/// `projected` holds the first preference of each of `ballots`, in the same order.
pub open spec fn first_preferences_of(projected: Seq<Ballot>, ballots: Seq<Ballot>) -> bool {
    &&& projected.len() == ballots.len()
    &&& forall|b: int|
        0 <= b < ballots.len() ==> #[trigger] projected[b] == Ballot::Plurality(
            ballots[b].top_choice(),
        )
}

/// Draws `num_ballots` ranked ballots over the candidates `0 .. num_candidates`.
pub fn draw_ranked_ballots(
    rng: &mut rand::rngs::StdRng,
    num_candidates: usize,
    num_ballots: usize,
) -> (ballots: Vec<Ballot>)
    ensures
        ballots@.len() == num_ballots,
        all_rankings(ballots@, num_candidates as nat),
{
    let mut ballots: Vec<Ballot> = Vec::new();
    let mut b: usize = 0;
    while b < num_ballots
        invariant
            0 <= b <= num_ballots,
            ballots@.len() == b,
            all_rankings(ballots@, num_candidates as nat),
        decreases num_ballots - b,
    {
        let ballot = create_ballot_ranked(rng, num_candidates);
        ballots.push(ballot);
        b += 1;
    }
    ballots
}

/// Keeps the first preference of each ballot.
pub fn first_preferences(ballots: &[Ballot]) -> (projected: Vec<Ballot>)
    requires
        forall|b: int|
            0 <= b < ballots@.len() ==> (#[trigger] ballots@[b] matches Ballot::Ranked(choices)
                ==> choices@.len() > 0),
    ensures
        first_preferences_of(projected@, ballots@),
{
    let mut projected: Vec<Ballot> = Vec::new();
    let mut b: usize = 0;
    while b < ballots.len()
        invariant
            0 <= b <= ballots@.len(),
            forall|b: int|
                0 <= b < ballots@.len() ==> (#[trigger] ballots@[b] matches Ballot::Ranked(
                    choices,
                ) ==> choices@.len() > 0),
            first_preferences_of(projected@, ballots@.take(b as int)),
        decreases ballots@.len() - b,
    {
        let first = ballots[b].as_plurality();
        projected.push(first);
        b += 1;
    }
    proof {
        assert(ballots@.take(ballots@.len() as int) == ballots@);
    }
    projected
}

/// Draws `num_ballots` ranked ballots over the candidates
/// `0 .. num_candidates` and holds both elections over them: the plurality
/// election over the first preferences, the instant-runoff election over
/// the rankings.
pub fn simulate(rng: &mut rand::rngs::StdRng, num_candidates: usize, num_ballots: usize) -> (run:
    Simulation)
    requires
        num_candidates > 0,
        num_ballots > 0,
    ensures
        run.ranked_ballots@.len() == num_ballots,
        all_rankings(run.ranked_ballots@, num_candidates as nat),
        first_preferences_of(run.plurality_ballots@, run.ranked_ballots@),
        run.plurality_votes@ == plurality_tally(run.plurality_ballots@, num_candidates as nat),
        run.plurality_result@ == outcome_of(extrema(run.plurality_votes@, MinOrMax::Max)),
        run.plurality_result@ matches Outcome::Tie(tied) ==> tied.len() >= 2,
        rounds_view(run.runoff.rounds@) == runoff_rounds(
            run.ranked_ballots@,
            num_candidates as nat,
        ),
        run.runoff.final_count@ == runoff_final_count(run.ranked_ballots@, num_candidates as nat),
        run.runoff.result@ == runoff_outcome(run.ranked_ballots@, num_candidates as nat),
        run.runoff.result@ matches Outcome::Tie(tied) ==> tied.len() >= 2,
{
    let ranked_ballots = draw_ranked_ballots(rng, num_candidates, num_ballots);
    let plurality_ballots = first_preferences(ranked_ballots.as_slice());
    proof {
        assert forall|b: int| 0 <= b < plurality_ballots@.len() implies (
        #[trigger] plurality_ballots@[b] matches Ballot::Plurality(choice) ==> choice
            < num_candidates) by {
            assert(ranked_ballots@[b].valid_for(num_candidates as nat));
            assert(plurality_ballots@[b] == Ballot::Plurality(ranked_ballots@[b].top_choice()));
        }
    }
    let plurality_votes = count_votes_plurality(plurality_ballots.as_slice(), num_candidates);
    let winners = extrema_indeces(plurality_votes.as_slice(), MinOrMax::Max);
    let plurality_result = ElectionResult::from_winners(winners);
    let runoff = hold_runoff(ranked_ballots.as_slice(), num_candidates);
    Simulation { ranked_ballots, plurality_ballots, plurality_votes, plurality_result, runoff }
}

} // verus!

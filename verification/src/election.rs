//! What an election ends in: one winner, or several candidates level at the top.

use vstd::prelude::*;

verus! {

/// How an election ended.
#[derive(Clone, Debug, PartialEq, Eq)]
pub enum ElectionResult {
    /// The one candidate with the most votes.
    SingleWinner(usize),
    /// All the candidates that share the most votes.
    Tie(Vec<usize>),
}

/// An `ElectionResult` as a mathematical value.
pub enum Outcome {
    SingleWinner(usize),
    Tie(Seq<usize>),
}

impl View for ElectionResult {
    type V = Outcome;

    open spec fn view(&self) -> Outcome {
        match self {
            ElectionResult::SingleWinner(winner) => Outcome::SingleWinner(*winner),
            ElectionResult::Tie(tied) => Outcome::Tie(tied@),
        }
    }
}

/// The result that the candidates with the most votes stand for: the winner
/// where there is exactly one of them, a tie between all of them otherwise.
pub open spec fn outcome_of(winners: Seq<usize>) -> Outcome {
    if winners.len() == 1 {
        Outcome::SingleWinner(winners[0])
    } else {
        Outcome::Tie(winners)
    }
}

impl ElectionResult {
    /// Turns the list of candidates with the most votes into a result.
    pub fn from_winners(winners: Vec<usize>) -> (result: ElectionResult)
        ensures
            result@ == outcome_of(winners@),
            winners@.len() > 0 ==> (result@ matches Outcome::Tie(tied) ==> tied.len() >= 2),
    {
        if winners.len() == 1 {
            return ElectionResult::SingleWinner(winners[0]);
        }
        ElectionResult::Tie(winners)
    }
}

} // verus!

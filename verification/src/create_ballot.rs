//! Drawing ballots at random.
//!
//! The random numbers come from `rand`'s `StdRng`, which the caller hands
//! in, so that a run can be repeated from a seed. What a ballot looks like
//! for given draws is fixed by `ranked_from_draws`.

use crate::ballot::{is_ranking, Ballot};
use rand::Rng;
use vstd::prelude::*;

verus! {

/// `rand::rngs::StdRng`, the generator that the ballots are drawn from.
/// Nothing is known here of what it holds.
#[verifier::external_type_specification]
#[verifier::external_body]
pub struct ExStdRng(rand::rngs::StdRng);

/// Draws a number from `0 .. bound` by `rand::Rng::gen_range`.
///
/// Not proved: that `gen_range` stays inside the range it is given, here
/// `0 .. bound`. It panics on an empty range, which `bound > 0` rules out.
/// Which number comes is left open.
#[verifier::external_body]
fn draw_below(rng: &mut rand::rngs::StdRng, bound: usize) -> (drawn: usize)
    requires
        bound > 0,
    ensures
        drawn < bound,
{
    rng.gen_range(0..bound)
}

/// The pool with the entry at `at` taken out and the last entry moved
/// into the gap.
pub open spec fn taken_out(pool: Seq<usize>, at: int) -> Seq<usize> {
    pool.update(at, pool.last()).drop_last()
}

/// Each draw points into the pool as it is when the draw is made: the pool
/// starts with all `num_candidates` and loses one with every draw.
pub open spec fn draws_fit(draws: Seq<usize>, num_candidates: nat) -> bool {
    &&& draws.len() <= num_candidates
    &&& forall|i: int| 0 <= i < draws.len() ==> (#[trigger] draws[i]) < num_candidates - i
}

/// The candidates not yet ranked once `draws` have been made.
pub open spec fn pool_after(num_candidates: nat, draws: Seq<usize>) -> Seq<usize>
    decreases draws.len(),
{
    if draws.len() == 0 {
        Seq::new(num_candidates, |i: int| i as usize)
    } else {
        taken_out(pool_after(num_candidates, draws.drop_last()), draws.last() as int)
    }
}

/// The ranking that `draws` have made so far: each draw ranks the
/// candidate that it points at in the pool next.
pub open spec fn ranking_after(num_candidates: nat, draws: Seq<usize>) -> Seq<usize>
    decreases draws.len(),
{
    if draws.len() == 0 {
        Seq::empty()
    } else {
        ranking_after(num_candidates, draws.drop_last()).push(
            pool_after(num_candidates, draws.drop_last())[draws.last() as int],
        )
    }
}

/// Where the entry at `i` of ranking and pool, laid end to end, stood before
/// the draw that moved the pool's entry at `drawn` to the ranking's end at
/// `ranked`.
spec fn stood_at(i: int, ranked: int, drawn: int, last: int) -> int {
    if i < ranked {
        i
    } else if i == ranked {
        ranked + drawn
    } else if i - ranked - 1 == drawn {
        last
    } else {
        i - 1
    }
}

/// Whatever is drawn, ranking and pool together hold every candidate once:
/// a full set of draws gives a ranking of all the candidates.
pub proof fn lemma_draws_give_ranking(num_candidates: nat, draws: Seq<usize>)
    requires
        num_candidates <= usize::MAX,
        draws_fit(draws, num_candidates),
    ensures
        ranking_after(num_candidates, draws).len() == draws.len(),
        pool_after(num_candidates, draws).len() == num_candidates - draws.len(),
        is_ranking(
            ranking_after(num_candidates, draws) + pool_after(num_candidates, draws),
            num_candidates,
        ),
        draws.len() == num_candidates ==> is_ranking(
            ranking_after(num_candidates, draws),
            num_candidates,
        ),
    decreases draws.len(),
{
    let ranking = ranking_after(num_candidates, draws);
    let pool = pool_after(num_candidates, draws);
    if draws.len() == 0 {
        assert(ranking + pool =~= pool);
    } else {
        let earlier = draws.drop_last();
        assert(draws_fit(earlier, num_candidates)) by {
            assert forall|i: int| 0 <= i < earlier.len() implies (#[trigger] earlier[i])
                < num_candidates - i by {
                assert(earlier[i] == draws[i]);
            }
        }
        lemma_draws_give_ranking(num_candidates, earlier);
        let ranked = ranking_after(num_candidates, earlier);
        let left = pool_after(num_candidates, earlier);
        let drawn = draws.last() as int;
        let before = ranked + left;
        let now = ranking + pool;
        let r = ranked.len() as int;
        assert(drawn < left.len());
        assert(ranking == ranked.push(left[drawn]));
        assert(pool == taken_out(left, drawn));
        let last = num_candidates - 1;
        assert forall|i: int| 0 <= i < now.len() implies #[trigger] now[i] < num_candidates by {
            let from = stood_at(i, r, drawn, last);
            assert(now[i] == before[from]);
        }
        assert forall|i: int, j: int| 0 <= i < j < now.len() implies #[trigger] now[i]
            != #[trigger] now[j] by {
            let from_i = stood_at(i, r, drawn, last);
            let from_j = stood_at(j, r, drawn, last);
            assert(now[i] == before[from_i]);
            assert(now[j] == before[from_j]);
            if from_i < from_j {
                assert(before[from_i] != before[from_j]);
            } else {
                assert(before[from_j] != before[from_i]);
            }
        }
    }
    if draws.len() == num_candidates {
        assert(ranking + pool =~= ranking);
    }
}

/// Draws a plurality ballot: a vote for one of the candidates
/// `0 .. num_candidates`, each as likely as the others.
pub fn create_ballot_plurality(rng: &mut rand::rngs::StdRng, num_candidates: usize) -> (ballot:
    Ballot)
    requires
        num_candidates > 0,
    ensures
        ballot matches Ballot::Plurality(choice) && choice < num_candidates,
        ballot.valid_for(num_candidates as nat),
{
    let choice: usize = draw_below(rng, num_candidates);
    Ballot::Plurality(choice)
}

/// Draws a ranked ballot: the candidates `0 .. num_candidates` in an order
/// in which every order is as likely as the others.
///
/// Position by position, a candidate is drawn from the pool of those not
/// yet ranked and leaves the pool.
pub fn create_ballot_ranked(rng: &mut rand::rngs::StdRng, num_candidates: usize) -> (ballot: Ballot)
    ensures
        ballot matches Ballot::Ranked(choices) && is_ranking(choices@, num_candidates as nat),
        ballot.valid_for(num_candidates as nat),
        exists|draws: Seq<usize>|
            draws.len() == num_candidates && draws_fit(draws, num_candidates as nat) && (
            ballot matches Ballot::Ranked(choices) && choices@ == #[trigger] ranking_after(
                num_candidates as nat,
                draws,
            )),
{
    let mut index_choices: Vec<usize> = Vec::new();
    let mut c: usize = 0;
    while c < num_candidates
        invariant
            0 <= c <= num_candidates,
            index_choices@ == Seq::new(c as nat, |i: int| i as usize),
        decreases num_candidates - c,
    {
        index_choices.push(c);
        c += 1;
    }

    let mut choices: Vec<usize> = Vec::new();
    let ghost mut draws: Seq<usize> = Seq::empty();
    let mut i: usize = 0;
    while i < num_candidates
        invariant
            0 <= i <= num_candidates,
            draws.len() == i,
            draws_fit(draws, num_candidates as nat),
            index_choices@ == pool_after(num_candidates as nat, draws),
            choices@ == ranking_after(num_candidates as nat, draws),
        decreases num_candidates - i,
    {
        proof {
            lemma_draws_give_ranking(num_candidates as nat, draws);
        }
        let random_choice = draw_below(rng, num_candidates - i);
        let choice = index_choices.swap_remove(random_choice);
        choices.push(choice);
        proof {
            let earlier = draws;
            draws = draws.push(random_choice);
            assert(draws.drop_last() == earlier);
        }
        i += 1;
    }
    proof {
        lemma_draws_give_ranking(num_candidates as nat, draws);
    }
    Ballot::Ranked(choices)
}

/// Builds the ranked ballot that `create_ballot_ranked` makes when the
/// numbers it draws are `draws`. There is none where `draws` has not one
/// draw for each candidate, or where a draw points past the end of the pool
/// it is made from.
pub fn ranked_from_draws(num_candidates: usize, draws: &[usize]) -> (made: Option<Ballot>)
    ensures
        made is Some <==> draws@.len() == num_candidates && draws_fit(
            draws@,
            num_candidates as nat,
        ),
        made matches Some(ballot) ==> ballot.valid_for(num_candidates as nat) && (
        ballot matches Ballot::Ranked(choices) && choices@ == ranking_after(
            num_candidates as nat,
            draws@,
        )),
{
    if draws.len() != num_candidates {
        return None;
    }
    let mut index_choices: Vec<usize> = Vec::new();
    let mut c: usize = 0;
    while c < num_candidates
        invariant
            0 <= c <= num_candidates,
            index_choices@ == Seq::new(c as nat, |i: int| i as usize),
        decreases num_candidates - c,
    {
        index_choices.push(c);
        c += 1;
    }

    let mut choices: Vec<usize> = Vec::new();
    let mut i: usize = 0;
    while i < num_candidates
        invariant
            0 <= i <= num_candidates,
            draws@.len() == num_candidates,
            draws_fit(draws@.take(i as int), num_candidates as nat),
            index_choices@ == pool_after(num_candidates as nat, draws@.take(i as int)),
            choices@ == ranking_after(num_candidates as nat, draws@.take(i as int)),
        decreases num_candidates - i,
    {
        proof {
            lemma_draws_give_ranking(num_candidates as nat, draws@.take(i as int));
            assert(draws@.take(i + 1).drop_last() == draws@.take(i as int));
        }
        let drawn = draws[i];
        if drawn >= num_candidates - i {
            return None;
        }
        let choice = index_choices.swap_remove(drawn);
        choices.push(choice);
        i += 1;
    }
    proof {
        assert(draws@.take(num_candidates as int) == draws@);
        lemma_draws_give_ranking(num_candidates as nat, draws@);
    }
    Some(Ballot::Ranked(choices))
}

} // verus!

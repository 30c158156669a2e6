//! The instant-runoff election: count, drop whoever came last, count again,
//! until a candidate has enough votes or nobody can be dropped.
//!
//! Whether a candidate has enough votes is asked before a round is counted,
//! of the counts that the round before left on the roster: the votes of the
//! candidates just dropped have not moved on yet when it is asked. Whoever
//! is ahead in the final count wins, whether or not the rounds ended on that
//! candidate's count.

use crate::ballot::{is_ranking, lemma_ranking_names_everyone, Ballot};
use crate::election::{outcome_of, ElectionResult, Outcome};
use crate::extrema::{
    extrema, extrema_indeces, is_extremum_at, lemma_extrema, lemma_extremum_exists, MinOrMax,
};
use crate::ranked;
use crate::ranked::{
    can_vote, count_votes_ranked, keys_of, lemma_first_available, tallied, values_of,
};
use vstd::prelude::*;

verus! {

/// Every candidate on the roster has the same number of votes.
pub open spec fn all_tied(roster: Seq<ranked::Hash>) -> bool {
    forall|i: int, j: int|
        0 <= i < roster.len() && 0 <= j < roster.len() ==> (#[trigger] roster[i]).value == (
        #[trigger] roster[j]).value
}

/// Tells the records that have more votes than some record on `roster`, that
/// is, those that did not come last.
pub open spec fn beats_someone(roster: Seq<ranked::Hash>) -> spec_fn(ranked::Hash) -> bool {
    |record: ranked::Hash|
        exists|j: int| 0 <= j < roster.len() && (#[trigger] roster[j]).value < record.value
}

/// The roster without the candidates that came last, the others in their
/// old order.
pub open spec fn survivors(roster: Seq<ranked::Hash>) -> Seq<ranked::Hash> {
    roster.filter(beats_someone(roster))
}

/// A filter keeps a sequence whole where every entry passes.
proof fn lemma_filter_keeps_all<A>(s: Seq<A>, pred: spec_fn(A) -> bool)
    requires
        forall|i: int| 0 <= i < s.len() ==> pred(#[trigger] s[i]),
    ensures
        s.filter(pred) == s,
    decreases s.len(),
{
    reveal(Seq::filter);
    if s.len() > 0 {
        lemma_filter_keeps_all(s.drop_last(), pred);
        assert(s.drop_last().push(s.last()) == s);
    }
}

/// A filter shortens a sequence where some entry fails.
proof fn lemma_filter_drops_one<A>(s: Seq<A>, pred: spec_fn(A) -> bool, i: int)
    requires
        0 <= i < s.len(),
        !pred(s[i]),
    ensures
        s.filter(pred).len() < s.len(),
    decreases s.len(),
{
    reveal(Seq::filter);
    if i == s.len() - 1 {
        s.drop_last().lemma_filter_len(pred);
    } else {
        lemma_filter_drops_one(s.drop_last(), pred, i);
    }
}

/// Coming last on the roster is the same as beating nobody.
proof fn lemma_last_place(roster: Seq<ranked::Hash>, i: int)
    requires
        0 <= i < roster.len(),
    ensures
        is_extremum_at(values_of(roster), MinOrMax::Min, i) <==> !beats_someone(roster)(roster[i]),
{
    let values = values_of(roster);
    if !beats_someone(roster)(roster[i]) {
        assert forall|j: int| 0 <= j < values.len() implies values[i] <= #[trigger] values[j] by {
            assert(!(roster[j].value < roster[i].value));
        }
    }
    if is_extremum_at(values, MinOrMax::Min, i) {
        if beats_someone(roster)(roster[i]) {
            let j = choose|j: int|
                0 <= j < roster.len() && (#[trigger] roster[j]).value < roster[i].value;
            assert(values[i] <= values[j]);
        }
    }
}

/// The list of those in last place is as long as the roster exactly when
/// everyone is tied.
proof fn lemma_everyone_last(roster: Seq<ranked::Hash>)
    requires
        0 < roster.len() <= usize::MAX,
    ensures
        extrema(values_of(roster), MinOrMax::Min).len() == roster.len() <==> all_tied(roster),
{
    let values = values_of(roster);
    let losers = extrema(values, MinOrMax::Min);
    lemma_extrema(values, MinOrMax::Min);
    if all_tied(roster) {
        assert forall|i: int| 0 <= i < roster.len() implies is_extremum_at(
            values,
            MinOrMax::Min,
            i,
        ) by {
            assert forall|j: int| 0 <= j < values.len() implies values[i] <= #[trigger] values[j] by {
                assert(roster[i].value == roster[j].value);
            }
        }
        assert forall|i: usize| i < roster.len() implies losers.contains(i) by {
            assert(is_extremum_at(values, MinOrMax::Min, i as int));
        }
        lemma_ascending_holds_all(losers, roster.len() as int);
    }
    if losers.len() == roster.len() {
        lemma_ascending_is_identity(losers, roster.len() as int, roster.len() as int);
        assert forall|i: int, j: int|
            0 <= i < roster.len() && 0 <= j < roster.len() implies (#[trigger] roster[i]).value == (
        #[trigger] roster[j]).value by {
            assert(losers[i] == i);
            assert(losers[j] == j);
            assert(is_extremum_at(values, MinOrMax::Min, losers[i] as int));
            assert(is_extremum_at(values, MinOrMax::Min, losers[j] as int));
            assert(values[i] <= values[j]);
            assert(values[j] <= values[i]);
        }
    }
}

/// An ascending list of `n` numbers below `bound` starts no lower than it counts:
/// with as many entries as the bound allows it is `0, 1, 2, ...`.
proof fn lemma_ascending_is_identity(list: Seq<usize>, bound: int, n: int)
    requires
        list.len() == bound,
        0 <= n <= bound,
        forall|k: int| 0 <= k < list.len() ==> (#[trigger] list[k]) < bound,
        forall|k: int, l: int| 0 <= k < l < list.len() ==> (#[trigger] list[k]) < (#[trigger] list[l]),
    ensures
        forall|k: int| bound - n <= k < bound ==> (#[trigger] list[k]) == k,
    decreases n,
{
    if n > 0 {
        lemma_ascending_is_identity(list, bound, n - 1);
        let k = bound - n;
        lemma_ascending_at_least(list, k);
        if k + 1 < bound {
            assert(list[k] < list[k + 1]);
        }
    }
}

/// The entry at position `k` of an ascending list is at least `k`.
proof fn lemma_ascending_at_least(list: Seq<usize>, k: int)
    requires
        0 <= k < list.len(),
        forall|k: int, l: int| 0 <= k < l < list.len() ==> (#[trigger] list[k]) < (#[trigger] list[l]),
    ensures
        list[k] >= k,
    decreases k,
{
    if k > 0 {
        lemma_ascending_at_least(list, k - 1);
        assert(list[k - 1] < list[k]);
    }
}

/// An ascending list that holds every number below `n` has at least `n` entries.
proof fn lemma_ascending_holds_all(list: Seq<usize>, n: int)
    requires
        0 <= n <= usize::MAX,
        forall|i: usize| i < n ==> list.contains(i),
        forall|k: int, l: int| 0 <= k < l < list.len() ==> (#[trigger] list[k]) < (#[trigger] list[l]),
    ensures
        list.len() >= n,
        forall|i: int| 0 <= i < n ==> list[i] == i,
    decreases n,
{
    if n > 0 {
        lemma_ascending_holds_all(list, n - 1);
        assert(list.contains((n - 1) as usize));
        let k = choose|k: int| 0 <= k < list.len() && list[k] == (n - 1) as usize;
        if k < n - 1 {
            assert(list[k] == k);
        }
        if k > n - 1 {
            lemma_ascending_at_least(list, n - 1);
            assert(list[n - 1] < list[k]);
        }
    }
}

/// Where the roster is still as it was while the last places `losers[k..]`
/// have been taken out of it from the back.
spec fn untouched_below(losers: Seq<usize>, k: int, len: int) -> int {
    if k < losers.len() {
        losers[k] as int
    } else {
        len
    }
}

/// Taking the entry at `c` out of a sequence that is filtered from `next`
/// on leaves it filtered from `c` on, where `c` fails the filter and all
/// between `c` and `next` pass it.
proof fn lemma_filter_grows_down<A>(s: Seq<A>, pred: spec_fn(A) -> bool, c: int, next: int)
    requires
        0 <= c < next <= s.len(),
        !pred(s[c]),
        forall|i: int| c < i < next ==> pred(#[trigger] s[i]),
    ensures
        (s.take(next) + s.skip(next).filter(pred)).remove(c) == s.take(c) + s.skip(c).filter(pred),
{
    let tail = s.skip(next);
    let middle = s.subrange(c + 1, next);
    let failing = seq![s[c]];
    assert((s.take(next) + tail.filter(pred)).remove(c) =~= s.take(c) + (middle + tail.filter(
        pred,
    )));
    assert(s.skip(c) =~= (failing + middle) + tail);
    Seq::filter_distributes_over_add(failing + middle, tail, pred);
    Seq::filter_distributes_over_add(failing, middle, pred);
    lemma_filter_keeps_all(middle, pred);
    assert(failing.filter(pred) =~= Seq::<A>::empty()) by {
        reveal_with_fuel(Seq::filter, 2);
    }
    assert(s.skip(c).filter(pred) =~= middle + tail.filter(pred));
}

/// A sequence that is filtered from `c` on is filtered as a whole where
/// all before `c` pass the filter.
proof fn lemma_filter_from_start<A>(s: Seq<A>, pred: spec_fn(A) -> bool, c: int)
    requires
        0 <= c <= s.len(),
        forall|i: int| 0 <= i < c ==> pred(#[trigger] s[i]),
    ensures
        s.take(c) + s.skip(c).filter(pred) == s.filter(pred),
{
    assert(s =~= s.take(c) + s.skip(c));
    Seq::filter_distributes_over_add(s.take(c), s.skip(c), pred);
    lemma_filter_keeps_all(s.take(c), pred);
}

/// A record whose position is not listed among the last places beats someone.
proof fn lemma_unlisted_survives(roster: Seq<ranked::Hash>, i: int)
    requires
        0 <= i < roster.len() <= usize::MAX,
        !extrema(values_of(roster), MinOrMax::Min).contains(i as usize),
    ensures
        beats_someone(roster)(roster[i]),
{
    lemma_extrema(values_of(roster), MinOrMax::Min);
    lemma_last_place(roster, i);
}

/// Ends a counting round: takes every candidate in last place off the
/// roster, all of them at once. Where all the candidates are level there is
/// no last place, and the roster stays as it is.
pub fn eliminate_losers(candidates_votes: &mut Vec<ranked::Hash>) -> (eliminated: bool)
    requires
        old(candidates_votes)@.len() > 0,
    ensures
        eliminated == !all_tied(old(candidates_votes)@),
        final(candidates_votes)@ == if eliminated {
            survivors(old(candidates_votes)@)
        } else {
            old(candidates_votes)@
        },
        0 < final(candidates_votes)@.len() <= old(candidates_votes)@.len(),
        eliminated ==> final(candidates_votes)@.len() < old(candidates_votes)@.len(),
        forall|i: int|
            0 <= i < final(candidates_votes)@.len() ==> old(candidates_votes)@.contains(
                #[trigger] final(candidates_votes)@[i],
            ),
{
    let ghost before = candidates_votes@;
    let ghost pred = beats_someone(before);
    let values_only = values_only(candidates_votes.as_slice());
    let losers = extrema_indeces(values_only.as_slice(), MinOrMax::Min);
    proof {
        lemma_everyone_last(before);
    }
    if losers.len() == candidates_votes.len() {
        assert forall|i: int| 0 <= i < before.len() implies before.contains(
            #[trigger] before[i],
        ) by {}
        return false;
    }
    proof {
        lemma_extrema(values_of(before), MinOrMax::Min);
        assert(before.take(before.len() as int) =~= before);
        assert(before.skip(before.len() as int).filter(pred) =~= Seq::empty()) by {
            reveal(Seq::filter);
        }
        assert forall|i: int| 0 <= i < before.len() implies before.contains(
            #[trigger] before[i],
        ) by {}
    }
    // from the back, so that the positions still to go stay where they are
    let mut k: usize = losers.len();
    while k > 0
        invariant
            0 <= k <= losers@.len() < before.len() <= usize::MAX,
            losers@ == extrema(values_of(before), MinOrMax::Min),
            pred == beats_someone(before),
            candidates_votes@.len() == before.len() - (losers@.len() - k),
            candidates_votes@ == before.take(untouched_below(losers@, k as int, before.len() as int))
                + before.skip(untouched_below(losers@, k as int, before.len() as int)).filter(
                pred,
            ),
            forall|i: int|
                0 <= i < candidates_votes@.len() ==> before.contains(#[trigger] candidates_votes@[i]),
        decreases k,
    {
        let ghost next = untouched_below(losers@, k as int, before.len() as int);
        let ghost roster = candidates_votes@;
        k -= 1;
        let loser = losers[k];
        proof {
            lemma_extrema(values_of(before), MinOrMax::Min);
            assert(is_extremum_at(values_of(before), MinOrMax::Min, losers@[k as int] as int));
            if k + 1 < losers@.len() {
                assert(losers@[k as int] < losers@[k + 1]);
            }
            lemma_last_place(before, loser as int);
            assert forall|i: int| loser < i < next implies pred(#[trigger] before[i]) by {
                if losers@.contains(i as usize) {
                    let m = choose|m: int| 0 <= m < losers@.len() && losers@[m] == i as usize;
                    if m < k {
                        assert(losers@[m] < losers@[k as int]);
                    }
                    if m > k + 1 {
                        assert(losers@[k + 1] < losers@[m]);
                    }
                }
                lemma_unlisted_survives(before, i);
            }
            lemma_filter_grows_down(before, pred, loser as int, next);
        }
        candidates_votes.remove(loser);
        proof {
            assert forall|i: int| 0 <= i < candidates_votes@.len() implies before.contains(
                #[trigger] candidates_votes@[i],
            ) by {
                if i < loser {
                    assert(candidates_votes@[i] == roster[i]);
                } else {
                    assert(candidates_votes@[i] == roster[i + 1]);
                }
            }
        }
    }
    proof {
        lemma_extrema(values_of(before), MinOrMax::Min);
        let first = losers@[0] as int;
        assert forall|i: int| 0 <= i < first implies pred(#[trigger] before[i]) by {
            if losers@.contains(i as usize) {
                let m = choose|m: int| 0 <= m < losers@.len() && losers@[m] == i as usize;
                if m > 0 {
                    assert(losers@[0] < losers@[m]);
                }
            }
            lemma_unlisted_survives(before, i);
        }
        lemma_filter_from_start(before, pred, first);
    }
    true
}

/// The vote counts on the roster, in roster order.
fn values_only(candidates_votes: &[ranked::Hash]) -> (values: Vec<usize>)
    ensures
        values@ == values_of(candidates_votes@),
{
    let mut values: Vec<usize> = Vec::new();
    let mut i: usize = 0;
    while i < candidates_votes.len()
        invariant
            0 <= i <= candidates_votes@.len(),
            values@ == values_of(candidates_votes@.take(i as int)),
        decreases candidates_votes@.len() - i,
    {
        values.push(candidates_votes[i].value);
        proof {
            assert(candidates_votes@.take(i + 1) == candidates_votes@.take(i as int).push(
                candidates_votes@[i as int],
            ));
        }
        i += 1;
    }
    proof {
        assert(candidates_votes@.take(candidates_votes@.len() as int) == candidates_votes@);
    }
    values
}

/// The roster before the first round: every candidate, none with a vote yet.
pub open spec fn fresh_roster(num_candidates: nat) -> Seq<ranked::Hash> {
    Seq::new(num_candidates, |i: int| ranked::Hash { key: i as usize, value: 0 })
}

/// The votes that end the rounds once a candidate has them: half of all
/// the ballots, rounded down.
pub open spec fn threshold_of(ballots: Seq<Ballot>) -> nat {
    ballots.len() / 2
}

/// Some candidate on the roster has as many votes as the threshold asks.
pub open spec fn majority_reached(roster: Seq<ranked::Hash>, threshold: nat) -> bool {
    exists|i: int| 0 <= i < roster.len() && (#[trigger] roster[i]).value >= threshold
}

/// The rounds that follow from `roster`, each as the roster stood when the
/// round had been counted. There is no further round once a candidate's
/// count from the round before has reached the threshold, once a round
/// leaves all candidates level, or once two candidates or fewer are left.
pub open spec fn rounds_from(
    roster: Seq<ranked::Hash>,
    ballots: Seq<Ballot>,
    threshold: nat,
) -> Seq<Seq<ranked::Hash>>
    decreases roster.len(),
{
    if majority_reached(roster, threshold) {
        Seq::empty()
    } else {
        let counted = tallied(roster, ballots);
        if all_tied(counted) || survivors(counted).len() <= 2 {
            seq![counted]
        } else {
            proof {
                lemma_survivors_fewer(counted);
            }
            seq![counted] + rounds_from(survivors(counted), ballots, threshold)
        }
    }
}

/// The roster that the rounds from `roster` on leave for the final count.
pub open spec fn settled_roster(
    roster: Seq<ranked::Hash>,
    ballots: Seq<Ballot>,
    threshold: nat,
) -> Seq<ranked::Hash>
    decreases roster.len(),
{
    if majority_reached(roster, threshold) {
        roster
    } else {
        let counted = tallied(roster, ballots);
        if all_tied(counted) {
            counted
        } else if survivors(counted).len() <= 2 {
            survivors(counted)
        } else {
            proof {
                lemma_survivors_fewer(counted);
            }
            settled_roster(survivors(counted), ballots, threshold)
        }
    }
}

/// The candidates with the most votes on the roster, in roster order.
pub open spec fn winners_on(roster: Seq<ranked::Hash>) -> Seq<usize> {
    extrema(values_of(roster), MinOrMax::Max).map_values(|i: usize| roster[i as int].key)
}

/// The rounds of an instant-runoff election among `num_candidates`.
pub open spec fn runoff_rounds(ballots: Seq<Ballot>, num_candidates: nat) -> Seq<
    Seq<ranked::Hash>,
> {
    rounds_from(fresh_roster(num_candidates), ballots, threshold_of(ballots))
}

/// The count that decides an instant-runoff election: the one over the
/// candidates that its rounds have left.
pub open spec fn runoff_final_count(ballots: Seq<Ballot>, num_candidates: nat) -> Seq<
    ranked::Hash,
> {
    tallied(settled_roster(fresh_roster(num_candidates), ballots, threshold_of(ballots)), ballots)
}

/// How an instant-runoff election among `num_candidates` ends.
pub open spec fn runoff_outcome(ballots: Seq<Ballot>, num_candidates: nat) -> Outcome {
    outcome_of(winners_on(runoff_final_count(ballots, num_candidates)))
}

/// Somebody always comes last: dropping the last places shortens the roster.
pub proof fn lemma_survivors_fewer(roster: Seq<ranked::Hash>)
    requires
        roster.len() > 0,
    ensures
        survivors(roster).len() < roster.len(),
{
    let values = values_of(roster);
    let last = lemma_extremum_exists(values, MinOrMax::Min, values.len() as int);
    assert(is_extremum_at(values, MinOrMax::Min, last));
    lemma_last_place(roster, last);
    lemma_filter_drops_one(roster, beats_someone(roster), last);
}

/// Where the candidates are not all level, somebody stays on the roster.
pub proof fn lemma_survivors_some(roster: Seq<ranked::Hash>)
    requires
        !all_tied(roster),
    ensures
        survivors(roster).len() > 0,
{
    let (i, j) = choose|i: int, j: int|
        0 <= i < roster.len() && 0 <= j < roster.len() && (#[trigger] roster[i]).value != (
        #[trigger] roster[j]).value;
    let ahead = if roster[i].value > roster[j].value {
        i
    } else {
        j
    };
    assert(beats_someone(roster)(roster[ahead]));
    roster.lemma_filter_contains(beats_someone(roster), ahead);
}

/// With the leader's position known, the threshold is reached exactly when
/// the leader has reached it.
proof fn lemma_leader_decides(roster: Seq<ranked::Hash>, leader: int, threshold: nat)
    requires
        is_extremum_at(values_of(roster), MinOrMax::Max, leader),
    ensures
        majority_reached(roster, threshold) <==> roster[leader].value >= threshold,
{
    let values = values_of(roster);
    if majority_reached(roster, threshold) {
        let i = choose|i: int| 0 <= i < roster.len() && (#[trigger] roster[i]).value >= threshold;
        assert(values[i] <= values[leader]);
    }
}

/// A ballot that ranks all the candidates has a vote to give as long as
/// one of them is on the roster.
proof fn lemma_ranking_can_vote(keys: Seq<usize>, ballot: Ballot, num_candidates: nat)
    requires
        keys.len() > 0,
        keys[0] < num_candidates,
        ballot matches Ballot::Ranked(choices) ==> is_ranking(choices@, num_candidates),
    ensures
        can_vote(keys, ballot),
{
    if let Ballot::Ranked(choices) = ballot {
        lemma_ranking_names_everyone(choices@, num_candidates);
        assert(choices@.contains(keys[0]));
        let k = choose|k: int| 0 <= k < choices@.len() && choices@[k] == keys[0];
        assert(keys.contains(choices@[k]));
        lemma_first_available(keys, choices@);
    }
}

/// A copy of the roster as it stands.
fn snapshot(candidates_votes: &[ranked::Hash]) -> (copy: Vec<ranked::Hash>)
    ensures
        copy@ == candidates_votes@,
{
    let mut copy: Vec<ranked::Hash> = Vec::new();
    let mut i: usize = 0;
    while i < candidates_votes.len()
        invariant
            0 <= i <= candidates_votes@.len(),
            copy@ == candidates_votes@.take(i as int),
        decreases candidates_votes@.len() - i,
    {
        copy.push(candidates_votes[i]);
        i += 1;
    }
    copy
}

/// The candidates with the most votes on the roster, in roster order.
pub fn winners_of(candidates_votes: &[ranked::Hash]) -> (winners: Vec<usize>)
    requires
        candidates_votes@.len() > 0,
    ensures
        winners@ == winners_on(candidates_votes@),
        winners@.len() > 0,
{
    let values_only = values_only(candidates_votes);
    let winner_indeces = extrema_indeces(values_only.as_slice(), MinOrMax::Max);
    let mut winners: Vec<usize> = Vec::new();
    let mut k: usize = 0;
    while k < winner_indeces.len()
        invariant
            0 <= k <= winner_indeces@.len(),
            winner_indeces@ == extrema(values_of(candidates_votes@), MinOrMax::Max),
            forall|m: int|
                0 <= m < winner_indeces@.len() ==> (#[trigger] winner_indeces@[m])
                    < candidates_votes@.len(),
            winners@ == winners_on(candidates_votes@).take(k as int),
        decreases winner_indeces@.len() - k,
    {
        winners.push(candidates_votes[winner_indeces[k]].key);
        k += 1;
    }
    winners
}

/// An instant-runoff election as it went.
#[derive(Clone, Debug, PartialEq, Eq)]
pub struct Runoff {
    /// The roster as each round counted it, the first round first.
    pub rounds: Vec<Vec<ranked::Hash>>,
    /// The count that decided: the one over the candidates that the rounds left.
    pub final_count: Vec<ranked::Hash>,
    /// Who won.
    pub result: ElectionResult,
}

/// The rounds of a `Runoff` as mathematical sequences.
pub open spec fn rounds_view(rounds: Seq<Vec<ranked::Hash>>) -> Seq<Seq<ranked::Hash>> {
    rounds.map_values(|round: Vec<ranked::Hash>| round@)
}

/// Holds an instant-runoff election among the candidates
/// `0 .. num_candidates` and keeps the count of every round.
///
/// Each round counts every ranked ballot for its most preferred candidate
/// still on the roster, then takes all the candidates in last place off the
/// roster at once. The rounds end when all candidates are level, when two or
/// fewer are left, or when the best count among those left, as the round
/// just held counted them, has reached half the number of ballots. A last
/// count over the candidates left decides. Plurality ballots among `ballots`
/// count towards that half and are otherwise passed over.
pub fn hold_runoff(ballots: &[Ballot], num_candidates: usize) -> (runoff: Runoff)
    requires
        ballots@.len() > 0,
        num_candidates > 0,
        forall|b: int|
            0 <= b < ballots@.len() ==> (#[trigger] ballots@[b] matches Ballot::Ranked(choices)
                ==> is_ranking(choices@, num_candidates as nat)),
    ensures
        rounds_view(runoff.rounds@) == runoff_rounds(ballots@, num_candidates as nat),
        runoff.final_count@ == runoff_final_count(ballots@, num_candidates as nat),
        runoff.result@ == runoff_outcome(ballots@, num_candidates as nat),
        runoff.result@ matches Outcome::Tie(tied) ==> tied.len() >= 2,
{
    let win_threshold: usize = ballots.len() / 2;
    let ghost threshold = threshold_of(ballots@);
    let ghost start = fresh_roster(num_candidates as nat);

    let mut candidates_votes: Vec<ranked::Hash> = Vec::new();
    let mut i: usize = 0;
    while i < num_candidates
        invariant
            0 <= i <= num_candidates,
            candidates_votes@ == fresh_roster(i as nat),
        decreases num_candidates - i,
    {
        candidates_votes.push(ranked::Hash { key: i, value: 0 });
        i += 1;
    }

    let mut top_candidate_index: usize = 0;
    let mut rounds: Vec<Vec<ranked::Hash>> = Vec::new();
    proof {
        assert(rounds_view(rounds@) =~= Seq::empty());
        assert(rounds_view(rounds@) + rounds_from(start, ballots@, threshold) =~= rounds_from(
            start,
            ballots@,
            threshold,
        ));
    }

    while candidates_votes[top_candidate_index].value < win_threshold
        invariant_except_break
            top_candidate_index < candidates_votes@.len(),
            is_extremum_at(
                values_of(candidates_votes@),
                MinOrMax::Max,
                top_candidate_index as int,
            ),
            settled_roster(candidates_votes@, ballots@, threshold) == settled_roster(
                start,
                ballots@,
                threshold,
            ),
            rounds_view(rounds@) + rounds_from(candidates_votes@, ballots@, threshold)
                == rounds_from(start, ballots@, threshold),
        invariant
            0 < candidates_votes@.len() <= num_candidates,
            threshold == win_threshold,
            forall|i: int|
                0 <= i < candidates_votes@.len() ==> (#[trigger] candidates_votes@[i]).key
                    < num_candidates,
            forall|b: int|
                0 <= b < ballots@.len() ==> (#[trigger] ballots@[b] matches Ballot::Ranked(
                    choices,
                ) ==> is_ranking(choices@, num_candidates as nat)),
        ensures
            candidates_votes@ == settled_roster(start, ballots@, threshold),
            rounds_view(rounds@) == rounds_from(start, ballots@, threshold),
        decreases candidates_votes@.len(),
    {
        let ghost roster = candidates_votes@;
        let ghost earlier = rounds_view(rounds@);
        proof {
            lemma_leader_decides(roster, top_candidate_index as int, threshold);
            assert forall|b: int| 0 <= b < ballots@.len() implies can_vote(
                keys_of(roster),
                #[trigger] ballots@[b],
            ) by {
                assert(roster[0].key < num_candidates);
                lemma_ranking_can_vote(keys_of(roster), ballots@[b], num_candidates as nat);
            }
        }
        count_votes_ranked(candidates_votes.as_mut_slice(), ballots);
        let ghost counted = candidates_votes@;
        rounds.push(snapshot(candidates_votes.as_slice()));
        proof {
            assert(rounds_view(rounds@) =~= earlier.push(counted));
            assert forall|i: int| 0 <= i < counted.len() implies (#[trigger] counted[i]).key
                < num_candidates by {
                assert(roster[i].key < num_candidates);
            }
        }

        if !eliminate_losers(&mut candidates_votes) {
            proof {
                assert(earlier.push(counted) =~= earlier + seq![counted]);
            }
            break ;
        }
        proof {
            assert forall|i: int| 0 <= i < candidates_votes@.len() implies (
            #[trigger] candidates_votes@[i]).key < num_candidates by {
                let j = choose|j: int|
                    0 <= j < counted.len() && counted[j] == candidates_votes@[i];
                assert(counted[j].key < num_candidates);
            }
        }

        if candidates_votes.len() <= 2 {
            proof {
                assert(earlier.push(counted) =~= earlier + seq![counted]);
            }
            break ;
        }
        let values_only = values_only(candidates_votes.as_slice());
        let top_candidates = extrema_indeces(values_only.as_slice(), MinOrMax::Max);
        top_candidate_index = top_candidates[0];
        proof {
            assert(is_extremum_at(
                values_of(candidates_votes@),
                MinOrMax::Max,
                top_candidates@[0] as int,
            ));
            assert(earlier.push(counted) + rounds_from(candidates_votes@, ballots@, threshold)
                =~= earlier + (seq![counted] + rounds_from(
                candidates_votes@,
                ballots@,
                threshold,
            )));
        }
    }

    proof {
        let roster = candidates_votes@;
        assert forall|b: int| 0 <= b < ballots@.len() implies can_vote(
            keys_of(roster),
            #[trigger] ballots@[b],
        ) by {
            assert(roster[0].key < num_candidates);
            lemma_ranking_can_vote(keys_of(roster), ballots@[b], num_candidates as nat);
        }
    }
    count_votes_ranked(candidates_votes.as_mut_slice(), ballots);
    let winners = winners_of(candidates_votes.as_slice());
    let result = ElectionResult::from_winners(winners);
    Runoff { rounds, final_count: candidates_votes, result }
}

/// Holds an instant-runoff election among the candidates
/// `0 .. num_candidates` and says how it ended.
pub fn simulate_ranked(ballots: &[Ballot], num_candidates: usize) -> (result: ElectionResult)
    requires
        ballots@.len() > 0,
        num_candidates > 0,
        forall|b: int|
            0 <= b < ballots@.len() ==> (#[trigger] ballots@[b] matches Ballot::Ranked(choices)
                ==> is_ranking(choices@, num_candidates as nat)),
    ensures
        result@ == runoff_outcome(ballots@, num_candidates as nat),
        result@ matches Outcome::Tie(tied) ==> tied.len() >= 2,
{
    let runoff = hold_runoff(ballots, num_candidates);
    runoff.result
}

/// From round to round the roster only gets shorter, and it never runs
/// empty: every round counts at least one candidate and fewer than the
/// round before it, and the final count has at least one candidate and no
/// more than the last round had.
pub proof fn lemma_roster_only_shrinks(
    roster: Seq<ranked::Hash>,
    ballots: Seq<Ballot>,
    threshold: nat,
)
    requires
        roster.len() > 0,
    ensures
        forall|r: int|
            0 <= r < rounds_from(roster, ballots, threshold).len() ==> 0 < (#[trigger] rounds_from(
                roster,
                ballots,
                threshold,
            )[r]).len() <= roster.len(),
        forall|r: int, s: int|
            0 <= r < s < rounds_from(roster, ballots, threshold).len() ==> (#[trigger] rounds_from(
                roster,
                ballots,
                threshold,
            )[s]).len() < (#[trigger] rounds_from(roster, ballots, threshold)[r]).len(),
        0 < settled_roster(roster, ballots, threshold).len() <= roster.len(),
        rounds_from(roster, ballots, threshold).len() > 0 ==> settled_roster(
            roster,
            ballots,
            threshold,
        ).len() <= rounds_from(roster, ballots, threshold).last().len(),
    decreases roster.len(),
{
    if !majority_reached(roster, threshold) {
        let counted = tallied(roster, ballots);
        if !all_tied(counted) {
            let left = survivors(counted);
            lemma_survivors_fewer(counted);
            lemma_survivors_some(counted);
            if left.len() > 2 {
                lemma_roster_only_shrinks(left, ballots, threshold);
                let later = rounds_from(left, ballots, threshold);
                let rounds = rounds_from(roster, ballots, threshold);
                assert(rounds == seq![counted] + later);
                assert forall|r: int| 0 <= r < rounds.len() implies 0 < (#[trigger] rounds[r]).len()
                    <= roster.len() by {
                    if r > 0 {
                        assert(rounds[r] == later[r - 1]);
                    }
                }
                assert forall|r: int, s: int| 0 <= r < s < rounds.len() implies (
                #[trigger] rounds[s]).len() < (#[trigger] rounds[r]).len() by {
                    assert(rounds[s] == later[s - 1]);
                    if r > 0 {
                        assert(rounds[r] == later[r - 1]);
                    }
                }
                if later.len() > 0 {
                    assert(rounds.last() == later.last());
                }
            }
        }
    }
}

/// Counting a roster that was just counted changes nothing.
pub proof fn lemma_count_again(roster: Seq<ranked::Hash>, ballots: Seq<Ballot>)
    ensures
        tallied(tallied(roster, ballots), ballots) == tallied(roster, ballots),
{
    let counted = tallied(roster, ballots);
    assert(keys_of(counted) =~= keys_of(roster));
    assert(tallied(counted, ballots) =~= counted);
}

/// On a roster where all are level, all have the most votes.
pub proof fn lemma_level_roster_all_win(roster: Seq<ranked::Hash>)
    requires
        0 < roster.len() <= usize::MAX,
        all_tied(roster),
    ensures
        winners_on(roster) == keys_of(roster),
{
    let values = values_of(roster);
    let top = extrema(values, MinOrMax::Max);
    lemma_extrema(values, MinOrMax::Max);
    assert forall|i: usize| i < roster.len() implies top.contains(i) by {
        assert forall|j: int| 0 <= j < values.len() implies #[trigger] values[j] <= values[i as int] by {
            assert(roster[i as int].value == roster[j].value);
        }
        assert(is_extremum_at(values, MinOrMax::Max, i as int));
    }
    lemma_ascending_holds_all(top, roster.len() as int);
    assert(winners_on(roster) =~= keys_of(roster));
}

/// A round that leaves all the candidates level is the last one: nobody is
/// taken off the roster after it, the final count repeats it, and with two
/// candidates or more it ends in a tie between exactly those of that round.
pub proof fn lemma_full_tie_ends_rounds(
    roster: Seq<ranked::Hash>,
    ballots: Seq<Ballot>,
    threshold: nat,
    r: int,
)
    requires
        roster.len() <= usize::MAX,
        0 <= r < rounds_from(roster, ballots, threshold).len(),
        all_tied(rounds_from(roster, ballots, threshold)[r]),
    ensures
        r == rounds_from(roster, ballots, threshold).len() - 1,
        settled_roster(roster, ballots, threshold) == rounds_from(roster, ballots, threshold)[r],
        tallied(settled_roster(roster, ballots, threshold), ballots) == rounds_from(
            roster,
            ballots,
            threshold,
        )[r],
        rounds_from(roster, ballots, threshold)[r].len() >= 2 ==> outcome_of(
            winners_on(tallied(settled_roster(roster, ballots, threshold), ballots)),
        ) == Outcome::Tie(keys_of(rounds_from(roster, ballots, threshold)[r])),
    decreases roster.len(),
{
    let counted = tallied(roster, ballots);
    let rounds = rounds_from(roster, ballots, threshold);
    if r == 0 {
        assert(rounds[0] == counted);
        lemma_count_again(roster, ballots);
        if counted.len() > 0 {
            lemma_level_roster_all_win(counted);
        }
    } else {
        let left = survivors(counted);
        lemma_survivors_fewer(counted);
        let later = rounds_from(left, ballots, threshold);
        assert(rounds == seq![counted] + later);
        assert(rounds[r] == later[r - 1]);
        lemma_full_tie_ends_rounds(left, ballots, threshold, r - 1);
    }
}

/// In an instant-runoff election among `num_candidates` the roster only
/// gets shorter from round to round and never runs empty.
pub proof fn lemma_runoff_roster_only_shrinks(ballots: Seq<Ballot>, num_candidates: nat)
    requires
        num_candidates > 0,
    ensures
        forall|r: int|
            0 <= r < runoff_rounds(ballots, num_candidates).len() ==> 0 < (
            #[trigger] runoff_rounds(ballots, num_candidates)[r]).len() <= num_candidates,
        forall|r: int, s: int|
            0 <= r < s < runoff_rounds(ballots, num_candidates).len() ==> (
            #[trigger] runoff_rounds(ballots, num_candidates)[s]).len() < (
            #[trigger] runoff_rounds(ballots, num_candidates)[r]).len(),
        0 < runoff_final_count(ballots, num_candidates).len() <= num_candidates,
        runoff_rounds(ballots, num_candidates).len() > 0 ==> runoff_final_count(
            ballots,
            num_candidates,
        ).len() <= runoff_rounds(ballots, num_candidates).last().len(),
{
    lemma_roster_only_shrinks(fresh_roster(num_candidates), ballots, threshold_of(ballots));
}

/// In an instant-runoff election, a round that leaves all the remaining
/// candidates level ends the election at once: it is the last round, the
/// final count repeats it, and with two candidates or more the result is a
/// tie between exactly the candidates of that round.
pub proof fn lemma_runoff_full_tie(ballots: Seq<Ballot>, num_candidates: nat, r: int)
    requires
        num_candidates <= usize::MAX,
        0 <= r < runoff_rounds(ballots, num_candidates).len(),
        all_tied(runoff_rounds(ballots, num_candidates)[r]),
    ensures
        r == runoff_rounds(ballots, num_candidates).len() - 1,
        runoff_final_count(ballots, num_candidates) == runoff_rounds(ballots, num_candidates)[r],
        runoff_rounds(ballots, num_candidates)[r].len() >= 2 ==> runoff_outcome(
            ballots,
            num_candidates,
        ) == Outcome::Tie(keys_of(runoff_rounds(ballots, num_candidates)[r])),
{
    lemma_full_tie_ends_rounds(fresh_roster(num_candidates), ballots, threshold_of(ballots), r);
}

} // verus!

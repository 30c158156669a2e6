use vote_sim::ballot::Ballot;
use vote_sim::election::ElectionResult;
use vote_sim::plurality::{count_votes_plurality, simulate_plurality};

fn plurality_ballots(choices: &[usize]) -> Vec<Ballot> {
    let mut ballots: Vec<Ballot> = Vec::new();
    for choice in choices {
        ballots.push(Ballot::Plurality(*choice));
    }
    ballots
}

#[test]
fn three_of_four_votes_win() {
    let ballots = plurality_ballots(&[0, 0, 0, 1]);
    assert_eq!(simulate_plurality(&ballots, 2), ElectionResult::SingleWinner(0));
}

#[test]
fn two_against_two_is_a_tie() {
    let ballots = plurality_ballots(&[0, 0, 1, 1]);
    assert_eq!(simulate_plurality(&ballots, 2), ElectionResult::Tie(vec![0, 1]));
}

#[test]
fn plurality_count_is_exact() {
    let ballots = plurality_ballots(&[4, 1, 1, 3, 1, 4, 0]);
    assert_eq!(count_votes_plurality(&ballots, 5), vec![1, 3, 0, 1, 2]);
    assert_eq!(simulate_plurality(&ballots, 5), ElectionResult::SingleWinner(1));
}

#[test]
fn plurality_count_of_no_ballots_is_all_zero() {
    let ballots: Vec<Ballot> = Vec::new();
    assert_eq!(count_votes_plurality(&ballots, 3), vec![0, 0, 0]);
}

#[test]
fn one_ballot_decides() {
    let ballots = plurality_ballots(&[2]);
    assert_eq!(simulate_plurality(&ballots, 3), ElectionResult::SingleWinner(2));
}

#[test]
fn tie_leaves_out_who_is_behind() {
    let ballots = plurality_ballots(&[3, 0, 3, 0, 1]);
    assert_eq!(simulate_plurality(&ballots, 4), ElectionResult::Tie(vec![0, 3]));
}

#[test]
fn candidate_without_votes_can_not_win() {
    let ballots = plurality_ballots(&[1, 1]);
    assert_eq!(count_votes_plurality(&ballots, 3), vec![0, 2, 0]);
    assert_eq!(simulate_plurality(&ballots, 3), ElectionResult::SingleWinner(1));
}

#[test]
fn ranked_ballots_are_passed_over_by_the_plurality_count() {
    let ballots: Vec<Ballot> = vec![
        Ballot::Plurality(1),
        Ballot::Ranked(vec![0, 1, 2]),
        Ballot::Ranked(vec![0, 2, 1]),
        Ballot::Plurality(2),
        Ballot::Plurality(1),
    ];
    assert_eq!(count_votes_plurality(&ballots, 3), vec![0, 2, 1]);
    assert_eq!(simulate_plurality(&ballots, 3), ElectionResult::SingleWinner(1));
}

#[test]
fn only_ranked_ballots_leave_all_tied_at_zero() {
    let ballots: Vec<Ballot> = vec![Ballot::Ranked(vec![0, 1])];
    assert_eq!(simulate_plurality(&ballots, 2), ElectionResult::Tie(vec![0, 1]));
}

#[test]
fn projected_ballots_count_first_preferences() {
    let ranked: Vec<Ballot> = vec![
        Ballot::Ranked(vec![0, 1, 2]),
        Ballot::Ranked(vec![0, 1, 2]),
        Ballot::Ranked(vec![1, 0, 2]),
        Ballot::Ranked(vec![2, 1, 0]),
    ];
    let mut projected: Vec<Ballot> = Vec::new();
    for ballot in &ranked {
        projected.push(ballot.as_plurality());
    }
    assert_eq!(count_votes_plurality(&projected, 3), vec![2, 1, 1]);
    assert_eq!(simulate_plurality(&projected, 3), ElectionResult::SingleWinner(0));
}

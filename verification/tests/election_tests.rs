use vote_sim::election::ElectionResult;

#[test]
fn one_winner_wins_alone() {
    assert_eq!(ElectionResult::from_winners(vec![3]), ElectionResult::SingleWinner(3));
}

#[test]
fn two_winners_tie() {
    assert_eq!(ElectionResult::from_winners(vec![1, 4]), ElectionResult::Tie(vec![1, 4]));
}

#[test]
fn many_winners_tie_in_the_order_given() {
    assert_eq!(ElectionResult::from_winners(vec![2, 0, 1]), ElectionResult::Tie(vec![2, 0, 1]));
}

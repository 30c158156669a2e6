use vote_sim::ballot::Ballot;

#[test]
fn ranked_ballot_projects_to_its_first_entry() {
    let ballot = Ballot::Ranked(vec![2, 0, 1]);
    assert_eq!(ballot.as_plurality(), Ballot::Plurality(2));
}

#[test]
fn plurality_ballot_projects_to_itself() {
    let ballot = Ballot::Plurality(4);
    assert_eq!(ballot.as_plurality(), Ballot::Plurality(4));
}

#[test]
fn projection_of_a_valid_ranking_is_valid() {
    let ballot = Ballot::Ranked(vec![3, 1, 0, 2]);
    assert!(ballot.is_valid(4));
    let projected = ballot.as_plurality();
    assert!(projected.is_valid(4));
    assert_eq!(projected, Ballot::Plurality(3));
}

#[test]
fn ranking_of_all_candidates_is_valid() {
    assert!(Ballot::Ranked(vec![0, 1, 2]).is_valid(3));
    assert!(Ballot::Ranked(vec![2, 1, 0]).is_valid(3));
    assert!(Ballot::Ranked(vec![4, 2, 0, 3, 1]).is_valid(5));
}

#[test]
fn ranking_with_a_repeat_is_not_valid() {
    assert!(!Ballot::Ranked(vec![0, 1, 1]).is_valid(3));
    assert!(!Ballot::Ranked(vec![2, 2, 2]).is_valid(3));
}

#[test]
fn ranking_with_a_stranger_is_not_valid() {
    assert!(!Ballot::Ranked(vec![0, 1, 3]).is_valid(3));
    assert!(!Ballot::Ranked(vec![usize::MAX, 1, 0]).is_valid(3));
}

#[test]
fn ranking_of_the_wrong_length_is_not_valid() {
    assert!(!Ballot::Ranked(vec![0, 1]).is_valid(3));
    assert!(!Ballot::Ranked(vec![0, 1, 2, 3]).is_valid(3));
    assert!(!Ballot::Ranked(vec![]).is_valid(1));
}

#[test]
fn empty_ranking_is_valid_for_no_candidates() {
    assert!(Ballot::Ranked(vec![]).is_valid(0));
}

#[test]
fn plurality_ballot_is_valid_for_a_standing_candidate() {
    assert!(Ballot::Plurality(0).is_valid(1));
    assert!(Ballot::Plurality(4).is_valid(5));
    assert!(!Ballot::Plurality(5).is_valid(5));
    assert!(!Ballot::Plurality(0).is_valid(0));
}

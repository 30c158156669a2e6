use vote_sim::ballot::Ballot;
use vote_sim::ranked;
use vote_sim::ranked::{count_votes_ranked, get_hash_index};

fn roster(records: &[(usize, usize)]) -> Vec<ranked::Hash> {
    let mut made: Vec<ranked::Hash> = Vec::new();
    for (key, value) in records {
        made.push(ranked::Hash { key: *key, value: *value });
    }
    made
}

fn four_ballots() -> Vec<Ballot> {
    vec![
        Ballot::Ranked(vec![0, 1, 2]),
        Ballot::Ranked(vec![0, 1, 2]),
        Ballot::Ranked(vec![1, 0, 2]),
        Ballot::Ranked(vec![2, 1, 0]),
    ]
}

#[test]
fn key_is_found_where_it_stands() {
    let records = roster(&[(0, 5), (3, 1), (4, 2)]);
    assert_eq!(get_hash_index(&records, 0), Some(0));
    assert_eq!(get_hash_index(&records, 3), Some(1));
    assert_eq!(get_hash_index(&records, 4), Some(2));
}

#[test]
fn key_off_the_roster_is_not_found() {
    let records = roster(&[(0, 5), (3, 1), (4, 2)]);
    assert_eq!(get_hash_index(&records, 1), None);
    assert_eq!(get_hash_index(&records, 2), None);
    assert_eq!(get_hash_index(&records, 5), None);
}

#[test]
fn key_is_looked_up_by_key_and_not_by_count() {
    let records = roster(&[(7, 0), (0, 7)]);
    assert_eq!(get_hash_index(&records, 7), Some(0));
    assert_eq!(get_hash_index(&records, 0), Some(1));
}

#[test]
fn first_of_two_equal_keys_is_found() {
    let records = roster(&[(2, 0), (1, 0), (2, 9)]);
    assert_eq!(get_hash_index(&records, 2), Some(0));
}

#[test]
fn nothing_is_found_on_an_empty_roster() {
    let records = roster(&[]);
    assert_eq!(get_hash_index(&records, 0), None);
}

#[test]
fn first_round_counts_first_preferences() {
    let mut records = roster(&[(0, 0), (1, 0), (2, 0)]);
    count_votes_ranked(&mut records, &four_ballots());
    assert_eq!(records, roster(&[(0, 2), (1, 1), (2, 1)]));
}

#[test]
fn counting_starts_from_zero_each_round() {
    let mut records = roster(&[(0, 40), (1, 7), (2, 100)]);
    count_votes_ranked(&mut records, &four_ballots());
    assert_eq!(records, roster(&[(0, 2), (1, 1), (2, 1)]));
    count_votes_ranked(&mut records, &four_ballots());
    assert_eq!(records, roster(&[(0, 2), (1, 1), (2, 1)]));
}

#[test]
fn votes_move_on_to_the_next_preference_still_standing() {
    let mut records = roster(&[(0, 2)]);
    count_votes_ranked(&mut records, &four_ballots());
    assert_eq!(records, roster(&[(0, 4)]));

    let mut records = roster(&[(1, 0), (2, 0)]);
    count_votes_ranked(&mut records, &four_ballots());
    assert_eq!(records, roster(&[(1, 3), (2, 1)]));

    let mut records = roster(&[(0, 0), (2, 0)]);
    count_votes_ranked(&mut records, &four_ballots());
    assert_eq!(records, roster(&[(0, 3), (2, 1)]));
}

#[test]
fn votes_are_counted_by_key_whatever_the_position() {
    let mut records = roster(&[(2, 0), (0, 0), (1, 0)]);
    count_votes_ranked(&mut records, &four_ballots());
    assert_eq!(records, roster(&[(2, 1), (0, 2), (1, 1)]));
}

#[test]
fn counting_no_ballots_resets_the_roster() {
    let mut records = roster(&[(0, 3), (1, 4)]);
    let ballots: Vec<Ballot> = Vec::new();
    count_votes_ranked(&mut records, &ballots);
    assert_eq!(records, roster(&[(0, 0), (1, 0)]));
}

#[test]
fn plurality_ballots_are_passed_over_by_the_ranked_count() {
    let mut records = roster(&[(0, 0), (1, 0)]);
    let ballots: Vec<Ballot> = vec![
        Ballot::Plurality(1),
        Ballot::Ranked(vec![0, 1]),
        Ballot::Plurality(1),
        Ballot::Ranked(vec![1, 0]),
        Ballot::Ranked(vec![0, 1]),
    ];
    count_votes_ranked(&mut records, &ballots);
    assert_eq!(records, roster(&[(0, 2), (1, 1)]));
}

#[test]
fn every_ranked_ballot_is_counted_once() {
    let mut records = roster(&[(0, 0), (1, 0), (2, 0)]);
    let ballots = four_ballots();
    count_votes_ranked(&mut records, &ballots);
    let mut total: usize = 0;
    for record in &records {
        total += record.value;
    }
    assert_eq!(total, ballots.len());
}

use rand::rngs::StdRng;
use rand::SeedableRng;
use vote_sim::ballot::Ballot;
use vote_sim::create_ballot::{create_ballot_plurality, create_ballot_ranked, ranked_from_draws};

#[test]
fn plurality_ballot_names_a_candidate() {
    let mut rng = StdRng::seed_from_u64(17);
    for _ in 0..200 {
        let ballot = create_ballot_plurality(&mut rng, 5);
        assert!(ballot.is_valid(5));
        assert!(matches!(ballot, Ballot::Plurality(choice) if choice < 5));
    }
}

#[test]
fn plurality_ballot_for_one_candidate_names_that_candidate() {
    let mut rng = StdRng::seed_from_u64(3);
    for _ in 0..20 {
        assert_eq!(create_ballot_plurality(&mut rng, 1), Ballot::Plurality(0));
    }
}

#[test]
fn plurality_ballots_reach_every_candidate() {
    let mut rng = StdRng::seed_from_u64(99);
    let mut seen: Vec<bool> = vec![false; 4];
    for _ in 0..400 {
        if let Ballot::Plurality(choice) = create_ballot_plurality(&mut rng, 4) {
            seen[choice] = true;
        }
    }
    assert_eq!(seen, vec![true; 4]);
}

#[test]
fn ranked_ballot_is_a_permutation() {
    let mut rng = StdRng::seed_from_u64(42);
    for _ in 0..200 {
        let ballot = create_ballot_ranked(&mut rng, 5);
        assert!(ballot.is_valid(5));
        if let Ballot::Ranked(choices) = ballot {
            let mut sorted = choices.clone();
            sorted.sort();
            assert_eq!(sorted, vec![0, 1, 2, 3, 4]);
        } else {
            panic!("a ranked ballot was asked for");
        }
    }
}

#[test]
fn ranked_ballot_for_few_candidates() {
    let mut rng = StdRng::seed_from_u64(5);
    assert_eq!(create_ballot_ranked(&mut rng, 0), Ballot::Ranked(vec![]));
    assert_eq!(create_ballot_ranked(&mut rng, 1), Ballot::Ranked(vec![0]));
    let two = create_ballot_ranked(&mut rng, 2);
    assert!(two == Ballot::Ranked(vec![0, 1]) || two == Ballot::Ranked(vec![1, 0]));
}

#[test]
fn ranked_ballots_vary() {
    let mut rng = StdRng::seed_from_u64(8);
    let first = create_ballot_ranked(&mut rng, 6);
    let mut differs = false;
    for _ in 0..50 {
        if create_ballot_ranked(&mut rng, 6) != first {
            differs = true;
        }
    }
    assert!(differs);
}

#[test]
fn same_seed_gives_same_ballots() {
    let mut one = StdRng::seed_from_u64(2024);
    let mut other = StdRng::seed_from_u64(2024);
    for _ in 0..20 {
        assert_eq!(create_ballot_ranked(&mut one, 5), create_ballot_ranked(&mut other, 5));
        assert_eq!(create_ballot_plurality(&mut one, 5), create_ballot_plurality(&mut other, 5));
    }
}

#[test]
fn projection_of_a_drawn_ballot_keeps_the_top_choice() {
    let mut rng = StdRng::seed_from_u64(11);
    for _ in 0..50 {
        let ballot = create_ballot_ranked(&mut rng, 5);
        let projected = ballot.as_plurality();
        assert!(projected.is_valid(5));
        match (&ballot, &projected) {
            (Ballot::Ranked(choices), Ballot::Plurality(choice)) => assert_eq!(choices[0], *choice),
            _ => panic!("a ranked ballot projects to a plurality ballot"),
        }
    }
}

#[test]
fn draws_of_the_first_slot_walk_the_pool_from_its_end() {
    let draws: Vec<usize> = vec![0, 0, 0, 0];
    assert_eq!(ranked_from_draws(4, &draws), Some(Ballot::Ranked(vec![0, 3, 2, 1])));
}

#[test]
fn draws_of_the_last_slot_reverse_the_pool() {
    let draws: Vec<usize> = vec![3, 2, 1, 0];
    assert_eq!(ranked_from_draws(4, &draws), Some(Ballot::Ranked(vec![3, 2, 1, 0])));
}

#[test]
fn draw_in_the_middle_moves_the_last_into_the_gap() {
    let draws: Vec<usize> = vec![1, 1, 1, 0];
    assert_eq!(ranked_from_draws(4, &draws), Some(Ballot::Ranked(vec![1, 3, 2, 0])));
    let draws: Vec<usize> = vec![2, 0, 1, 1, 0];
    assert_eq!(ranked_from_draws(5, &draws), Some(Ballot::Ranked(vec![2, 0, 1, 4, 3])));
}

#[test]
fn no_draws_rank_no_candidates() {
    let draws: Vec<usize> = vec![];
    assert_eq!(ranked_from_draws(0, &draws), Some(Ballot::Ranked(vec![])));
}

#[test]
fn draw_past_the_pool_gives_no_ballot() {
    let draws: Vec<usize> = vec![4, 0, 0, 0];
    assert_eq!(ranked_from_draws(4, &draws), None);
    let draws: Vec<usize> = vec![0, 0, 0, 1];
    assert_eq!(ranked_from_draws(4, &draws), None);
    let draws: Vec<usize> = vec![0, 3, 0, 0];
    assert_eq!(ranked_from_draws(4, &draws), None);
}

#[test]
fn wrong_number_of_draws_gives_no_ballot() {
    let draws: Vec<usize> = vec![0, 0, 0];
    assert_eq!(ranked_from_draws(4, &draws), None);
    let draws: Vec<usize> = vec![0, 0, 0, 0, 0];
    assert_eq!(ranked_from_draws(4, &draws), None);
}

#[test]
fn every_fitting_set_of_draws_gives_a_permutation() {
    for a in 0..4usize {
        for b in 0..3usize {
            for c in 0..2usize {
                let draws: Vec<usize> = vec![a, b, c, 0];
                match ranked_from_draws(4, &draws) {
                    Some(ballot) => assert!(ballot.is_valid(4)),
                    None => panic!("fitting draws give a ballot"),
                }
            }
        }
    }
}

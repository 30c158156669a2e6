use vote_sim::extrema::{extrema_indeces, MinOrMax};

#[test]
fn minimum_is_found_once() {
    let counts: Vec<usize> = vec![3, 1, 2, 4];
    assert_eq!(extrema_indeces(&counts, MinOrMax::Min), vec![1]);
}

#[test]
fn maximum_is_found_once() {
    let counts: Vec<usize> = vec![3, 1, 2, 4];
    assert_eq!(extrema_indeces(&counts, MinOrMax::Max), vec![3]);
}

#[test]
fn tied_minima_come_in_ascending_order() {
    let counts: Vec<usize> = vec![3, 1, 2, 1, 5, 1];
    assert_eq!(extrema_indeces(&counts, MinOrMax::Min), vec![1, 3, 5]);
}

#[test]
fn tied_maxima_come_in_ascending_order() {
    let counts: Vec<usize> = vec![7, 1, 7, 0, 7];
    assert_eq!(extrema_indeces(&counts, MinOrMax::Max), vec![0, 2, 4]);
}

#[test]
fn level_list_is_extremal_everywhere() {
    let counts: Vec<usize> = vec![5, 5, 5];
    assert_eq!(extrema_indeces(&counts, MinOrMax::Min), vec![0, 1, 2]);
    assert_eq!(extrema_indeces(&counts, MinOrMax::Max), vec![0, 1, 2]);
}

#[test]
fn single_entry_is_both_extrema() {
    let counts: Vec<usize> = vec![9];
    assert_eq!(extrema_indeces(&counts, MinOrMax::Min), vec![0]);
    assert_eq!(extrema_indeces(&counts, MinOrMax::Max), vec![0]);
}

#[test]
fn extremes_of_usize_are_handled() {
    let counts: Vec<usize> = vec![usize::MAX, 0, usize::MAX, 0];
    assert_eq!(extrema_indeces(&counts, MinOrMax::Min), vec![1, 3]);
    assert_eq!(extrema_indeces(&counts, MinOrMax::Max), vec![0, 2]);
}

#[test]
fn returned_indices_hold_the_extremum_and_no_others_do() {
    let counts: Vec<usize> = vec![4, 9, 2, 9, 2, 2, 7];
    let lowest = extrema_indeces(&counts, MinOrMax::Min);
    let highest = extrema_indeces(&counts, MinOrMax::Max);
    for i in 0..counts.len() {
        assert_eq!(lowest.contains(&i), counts[i] == 2);
        assert_eq!(highest.contains(&i), counts[i] == 9);
    }
}

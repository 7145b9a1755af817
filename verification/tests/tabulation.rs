use rcir::find_winners;

fn sorted(mut v: Vec<u64>) -> Vec<u64> {
    v.sort();
    v
}

#[test]
fn remaining_majority_wins() {
    let ballots = vec![vec![0], vec![0], vec![2, 1], vec![3, 2], vec![1, 3]];
    assert_eq!(&find_winners(ballots), &[0]);
}

#[test]
fn first_round_absentees_never_win() {
    let ballots = vec![vec![0], vec![0], vec![1, 4], vec![2, 4], vec![3, 4]];
    assert_eq!(&find_winners(ballots), &[0]);
}

#[test]
fn no_ballots_produces_no_winner() {
    let ballots: Vec<Vec<u64>> = vec![];
    assert_eq!(&find_winners(ballots), &[]);
}

#[test]
fn all_empty_ballots_produces_no_winner() {
    let ballots: Vec<Vec<u64>> = vec![vec![], vec![]];
    assert_eq!(&find_winners(ballots), &[]);
}

#[test]
fn initial_two_way_ties_work() {
    let ballots = vec![vec![0], vec![0], vec![0], vec![1], vec![1], vec![1]];
    assert_eq!(sorted(find_winners(ballots)), vec![0, 1]);
}

#[test]
fn initial_many_way_ties_work() {
    let ballots = vec![
        vec![0],
        vec![0],
        vec![1],
        vec![1],
        vec![2],
        vec![2],
        vec![3],
        vec![3],
        vec![4],
        vec![4],
    ];
    assert_eq!(sorted(find_winners(ballots)), vec![0, 1, 2, 3, 4]);
}

#[test]
fn delayed_two_way_ties_work() {
    let ballots = vec![vec![0], vec![0], vec![1], vec![1], vec![2, 1], vec![3, 0]];
    assert_eq!(sorted(find_winners(ballots)), vec![0, 1]);
}

#[test]
fn delayed_many_way_ties_work() {
    let ballots = vec![
        vec![0],
        vec![0],
        vec![0],
        vec![1],
        vec![1],
        vec![1],
        vec![2],
        vec![2],
        vec![2],
        vec![3],
        vec![3],
        vec![3],
        vec![4],
        vec![4],
        vec![5, 4],
        vec![6, 5],
    ];
    assert_eq!(sorted(find_winners(ballots)), vec![0, 1, 2, 3, 4]);
}

#[test]
fn votes_count_behind_two_eliminations() {
    let ballots = vec![vec![0], vec![0], vec![1, 2, 0], vec![4], vec![4]];
    assert_eq!(&find_winners(ballots), &[0]);
}

#[test]
fn reference_candidates_work() {
    let a = 0;
    let b = 1;
    let c = 2;
    let d = 3;
    let ballots = vec![vec![a], vec![a], vec![c, d, a], vec![b], vec![b]];
    assert_eq!(&find_winners(ballots), &[a]);
}

#[test]
fn vecs_passed_by_reference_work() {
    let ballots = vec![vec![0], vec![0], vec![1, 2, 0], vec![4], vec![4]];
    assert_eq!(&find_winners(ballots), &[0]);
}

// In some tabulators the "majority found" early exit wrongly counts exactly
// half of the votes as a winning majority. Candidate 0 holds exactly half
// in round one; the election must continue, eliminate candidate 2, and end
// in a two-way tie.
#[test]
fn initally_half_later_two_way_tie() {
    let ballots = vec![vec![0], vec![0], vec![0], vec![1], vec![1], vec![2, 1]];
    assert_eq!(sorted(find_winners(ballots)), vec![0, 1]);
}

#[test]
fn single_ballot_elects_its_first_choice() {
    let ballots = vec![vec![7]];
    assert_eq!(&find_winners(ballots), &[7]);
}

#[test]
fn basic_majority_with_unread_later_choices() {
    let ballots = vec![vec![0, 3], vec![0, 3], vec![1, 2]];
    assert_eq!(&find_winners(ballots), &[0]);
}

#[test]
fn exhausted_ballots_are_dropped() {
    // 1 and 2 are eliminated together; their ballots name nobody else, so
    // they are dropped and 3 holds two of the two remaining votes.
    let ballots = vec![vec![3], vec![3], vec![1], vec![2]];
    assert_eq!(&find_winners(ballots), &[3]);
}

#[test]
fn empty_ballots_among_real_ones_are_ignored() {
    let ballots = vec![vec![], vec![5], vec![], vec![5], vec![6], vec![]];
    assert_eq!(&find_winners(ballots), &[5]);
}

#[test]
fn ballot_order_does_not_change_winners() {
    let forward = vec![vec![0], vec![0], vec![0], vec![1], vec![1], vec![2, 1]];
    let backward = vec![vec![2, 1], vec![1], vec![1], vec![0], vec![0], vec![0]];
    assert_eq!(sorted(find_winners(forward)), sorted(find_winners(backward)));
}

#[test]
fn two_single_ballots_tie() {
    let ballots = vec![vec![0], vec![1]];
    assert_eq!(sorted(find_winners(ballots)), vec![0, 1]);
}

#[test]
fn duplicate_candidate_on_one_ballot_is_not_deduplicated() {
    // The repeated 0 is only consumed at its first occurrence; the ballot
    // still counts once, so the first round is a 0-versus-1 tie.
    let ballots = vec![vec![0, 0], vec![1]];
    assert_eq!(sorted(find_winners(ballots)), vec![0, 1]);
}

use jamcounter::ranked_choice::{
    count_presence_in_voter_lists, places_of, ranked_choice_places, ranked_choice_tallies, Voter,
};

fn voters(rankings: Vec<Vec<usize>>) -> Vec<Voter<usize>> {
    rankings.into_iter().map(|r| Voter { rankings: r }).collect()
}

#[test]
fn places_follow_voters_then_positions() {
    let vs = voters(vec![vec![2, 0, 1], vec![1, 2], vec![0]]);
    assert_eq!(places_of(&2, &vs), vec![0, 1]);
    assert_eq!(places_of(&0, &vs), vec![1, 0]);
    assert_eq!(places_of(&1, &vs), vec![2, 0]);
    assert_eq!(places_of(&7, &vs), Vec::<usize>::new());
}

#[test]
fn places_are_listed_for_every_entry() {
    let vs = voters(vec![vec![2, 0, 1], vec![1, 2]]);
    let places = ranked_choice_places(&[0, 1, 2, 3], &vs);
    assert_eq!(places, vec![vec![1], vec![2, 0], vec![0, 1], vec![]]);
}

#[test]
fn presence_counts_every_ranking_in_first_seen_order() {
    let vs = voters(vec![vec![2, 0, 2], vec![1, 2]]);
    assert_eq!(count_presence_in_voter_lists(&vs), vec![(2, 3), (0, 1), (1, 1)]);
    assert_eq!(count_presence_in_voter_lists(&voters(vec![])), vec![]);
}

#[test]
fn tallies_pair_places_with_presence() {
    let vs = voters(vec![vec![2, 0], vec![0, 2, 1], vec![]]);
    let tallies = ranked_choice_tallies(&[0, 1, 2, 3], &vs);
    let got: Vec<(Vec<usize>, usize)> = tallies.into_iter().map(|t| (t.places, t.presence)).collect();
    assert_eq!(got, vec![(vec![1, 0], 2), (vec![2], 1), (vec![0, 1], 2), (vec![], 0)]);
}

#[test]
fn presence_equals_the_number_of_places() {
    let vs = voters(vec![vec![3, 1, 3], vec![1], vec![2, 3, 1, 0]]);
    for t in ranked_choice_tallies(&[0, 1, 2, 3], &vs) {
        assert_eq!(t.presence, t.places.len());
    }
}

use jamcounter::ai::scanner::VideoGame;
use jamcounter::ranked_choice::count_votes;
use jamcounter::clustering::{Cluster, ClusterSet};
use jamcounter::runner::{
    category_vote, category_winners, choose_representative_entry_for_game,
    flatten_ranked_games, game_winners_by_category, organize_best_of_posts_into_voters,
    organize_posts_into_voters, remove_self_votes, user_voters, votes_for_category,
    winners_by_category, CategoryVoter, ExtractedBestOfPost, ExtractedPost,
};

fn game(title: &str, author: &str) -> VideoGame {
    VideoGame { title: title.to_string(), author: author.to_string() }
}

fn s(x: &str) -> String {
    x.to_string()
}

fn cv<T>(votes: Vec<(&str, T)>) -> CategoryVoter<T> {
    CategoryVoter { votes: votes.into_iter().map(|(c, v)| (s(c), v)).collect() }
}

#[test]
fn category_vote_takes_the_last_pair_of_a_category() {
    let votes = vec![(s("art"), 1usize), (s("fun"), 2), (s("art"), 3)];
    assert_eq!(category_vote(&votes, &s("art")), Some(&3));
    assert_eq!(category_vote(&votes, &s("fun")), Some(&2));
    assert_eq!(category_vote(&votes, &s("sound")), None);
}

#[test]
fn count_votes_counts_in_first_seen_order() {
    assert_eq!(count_votes(&vec![s("b"), s("a"), s("b")]), vec![(s("b"), 2), (s("a"), 1)]);
}

#[test]
fn votes_for_category_skips_voters_without_a_vote() {
    let voters = vec![cv(vec![("art", 1usize)]), cv(vec![("fun", 2)]), cv(vec![("art", 4)])];
    assert_eq!(votes_for_category(&voters, &s("art")), vec![1, 4]);
}

#[test]
fn winners_are_all_most_voted_choices() {
    let voters = vec![
        cv(vec![("art", 1usize), ("fun", 5)]),
        cv(vec![("art", 2)]),
        cv(vec![("art", 2), ("fun", 5)]),
        cv(vec![("art", 1)]),
        cv(vec![("art", 3)]),
    ];
    assert_eq!(category_winners(&voters, &s("art")), vec![1, 2]);
    assert_eq!(category_winners(&voters, &s("fun")), vec![5]);
    assert_eq!(category_winners(&voters, &s("sound")), Vec::<usize>::new());
}

#[test]
fn winners_by_category_follow_the_categories() {
    let voters = vec![cv(vec![("art", s("ann"))]), cv(vec![("art", s("bob")), ("fun", s("ann"))]), cv(vec![("art", s("bob"))])];
    let w = winners_by_category(&voters, &[s("art"), s("fun"), s("none")]);
    assert_eq!(w, vec![(s("art"), vec![s("bob")]), (s("fun"), vec![s("ann")]), (s("none"), vec![])]);
}

#[test]
fn every_winner_has_the_most_votes() {
    let voters: Vec<CategoryVoter<usize>> = (0..20).map(|i| cv(vec![("c", (i * 7) % 5)])).collect();
    let votes = votes_for_category(&voters, &s("c"));
    let winners = category_winners(&voters, &s("c"));
    assert!(!winners.is_empty());
    let count = |v: usize| votes.iter().filter(|x| **x == v).count();
    let best = votes.iter().map(|v| count(*v)).max().unwrap();
    for w in &winners {
        assert_eq!(count(*w), best);
    }
    for v in &votes {
        assert_eq!(winners.contains(v), count(*v) == best);
    }
}

#[test]
fn self_votes_are_removed() {
    let votes = vec![(s("critic"), s("ann")), (s("painter"), s("bob")), (s("helper"), s("ann"))];
    assert_eq!(remove_self_votes(votes, &s("ann")), vec![(s("painter"), s("bob"))]);
}

#[test]
fn flatten_keeps_post_order() {
    let posts = vec![
        ExtractedPost { post_author: s("a"), ranks: vec![game("x", "1"), game("y", "2")] },
        ExtractedPost { post_author: s("b"), ranks: vec![] },
        ExtractedPost { post_author: s("c"), ranks: vec![game("z", "3")] },
    ];
    assert_eq!(flatten_ranked_games(&posts), vec![game("x", "1"), game("y", "2"), game("z", "3")]);
}

fn two_clusters() -> ClusterSet<VideoGame> {
    ClusterSet::from_clusters(vec![
        Cluster::from_values(vec![game("Space", "a"), game("Space Cats", "a")]),
        Cluster::from_values(vec![game("Moon", "b")]),
    ])
}

#[test]
fn posts_become_ballots_of_cluster_indices() {
    let set = two_clusters();
    let posts = vec![
        ExtractedPost { post_author: s("p"), ranks: vec![game("Moon", "b"), game("Space Cats", "a")] },
        ExtractedPost { post_author: s("q"), ranks: vec![game("Space", "a")] },
    ];
    let voters = organize_posts_into_voters(&set, &posts);
    let ballots: Vec<Vec<usize>> = voters.into_iter().map(|v| v.rankings).collect();
    assert_eq!(ballots, vec![vec![1, 0], vec![0]]);
}

#[test]
fn best_of_posts_become_category_ballots() {
    let set = two_clusters();
    let posts = vec![ExtractedBestOfPost { post_author: s("p"), votes: vec![(s("art"), game("Moon", "b")), (s("fun"), game("Space", "a"))] }];
    let voters = organize_best_of_posts_into_voters(&set, &posts);
    assert_eq!(voters[0].votes, vec![(s("art"), 1), (s("fun"), 0)]);
}

#[test]
fn representative_has_the_longest_title_in_bytes_last_on_ties() {
    let c = Cluster::from_values(vec![game("Space", "a"), game("Space Cats", "a"), game("Space Dogs", "b")]);
    assert_eq!(choose_representative_entry_for_game(&c), &game("Space Dogs", "b"));
    // "Pokémon" is 8 bytes long, as long as "Pokemons".
    let c = Cluster::from_values(vec![game("Pokémon", "x"), game("Pokemons", "y"), game("Pokemon", "z")]);
    assert_eq!(choose_representative_entry_for_game(&c), &game("Pokemons", "y"));
}

#[test]
fn game_winners_are_represented_by_their_longest_title() {
    let set = two_clusters();
    let voters = vec![cv(vec![("art", 0usize)]), cv(vec![("art", 1)]), cv(vec![("art", 0)])];
    let w = game_winners_by_category(&set, &voters, &[s("art"), s("fun")]);
    assert_eq!(w, vec![(s("art"), vec![game("Space Cats", "a")]), (s("fun"), vec![])]);
}

#[test]
fn user_voters_copy_the_votes() {
    let posts = vec![ExtractedBestOfPost { post_author: s("p"), votes: vec![(s("art"), s("bob"))] }];
    let voters = user_voters(&posts);
    assert_eq!(voters[0].votes, vec![(s("art"), s("bob"))]);
}

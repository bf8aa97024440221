use jamcounter::clustering::{add_to_correct_cluster_set, cluster_data, Cluster, ClusterSet};

fn set_of(clusters: Vec<Vec<usize>>) -> ClusterSet<usize> {
    ClusterSet::from_clusters(clusters.into_iter().map(Cluster::from_values).collect())
}

fn contents(set: &ClusterSet<usize>) -> Vec<Vec<usize>> {
    set.clusters().iter().map(|c| c.as_slice().to_vec()).collect()
}

#[test]
fn new_set_is_empty() {
    let set: ClusterSet<usize> = ClusterSet::new();
    assert!(set.is_empty());
    assert_eq!(set.len(), 0);
    assert_eq!(set.cluster_indices(), 0..0);
}

#[test]
fn appended_cluster_gets_the_next_index_and_is_empty() {
    let mut set: ClusterSet<usize> = ClusterSet::new();
    assert_eq!(set.append_new_cluster(), 0);
    assert_eq!(set.append_new_cluster(), 1);
    assert_eq!(set.len(), 2);
    assert!(set.cluster(1).is_empty());
    assert_eq!(set.cluster_indices(), 0..2);
}

#[test]
fn added_value_is_found_in_its_cluster() {
    let mut set: ClusterSet<usize> = ClusterSet::new();
    let a = set.append_new_cluster();
    let b = set.append_new_cluster();
    set.add_to_cluster(b, 7);
    set.add_to_cluster(a, 3);
    set.add_to_cluster(b, 9);
    assert_eq!(set.get_cluster_index(&7), Some(b));
    assert_eq!(set.get_cluster_index(&9), Some(b));
    assert_eq!(set.get_cluster_index(&3), Some(a));
    assert_eq!(set.get_cluster_index(&4), None);
    assert!(set.contains(&9));
    assert!(!set.contains(&4));
    assert_eq!(set.cluster(b).len(), 2);
    assert_eq!(contents(&set), vec![vec![3], vec![7, 9]]);
}

#[test]
fn a_value_in_several_clusters_has_the_last_index() {
    let set = set_of(vec![vec![1, 2], vec![3], vec![2]]);
    assert_eq!(set.get_cluster_index(&2), Some(2));
    assert_eq!(set.get_cluster_index(&1), Some(0));
}

#[test]
fn placement_joins_the_best_cluster_above_the_threshold() {
    let mut set = set_of(vec![vec![1], vec![2, 3]]);
    add_to_correct_cluster_set(&mut set, 4, &vec![vec![5], vec![2, 7]], 0, 6);
    assert_eq!(contents(&set), vec![vec![1], vec![2, 3, 4]]);
}

#[test]
fn placement_starts_a_new_cluster_at_or_below_the_threshold() {
    let mut set = set_of(vec![vec![1], vec![2]]);
    add_to_correct_cluster_set(&mut set, 4, &vec![vec![5], vec![6]], 0, 6);
    assert_eq!(contents(&set), vec![vec![1], vec![2], vec![4]]);
}

#[test]
fn placement_prefers_the_last_of_tied_clusters() {
    let mut set = set_of(vec![vec![1], vec![2]]);
    add_to_correct_cluster_set(&mut set, 4, &vec![vec![8], vec![8]], 0, 6);
    assert_eq!(contents(&set), vec![vec![1], vec![2, 4]]);
}

#[test]
fn placement_scores_an_empty_cluster_with_the_empty_score() {
    let mut set = set_of(vec![vec![1], vec![]]);
    add_to_correct_cluster_set(&mut set, 4, &vec![vec![7], vec![]], 9, 6);
    assert_eq!(contents(&set), vec![vec![1], vec![4]]);
}

#[test]
fn placement_in_an_empty_set_starts_a_cluster() {
    let mut set: ClusterSet<usize> = ClusterSet::new();
    add_to_correct_cluster_set(&mut set, 4, &vec![], 0, 0);
    assert_eq!(contents(&set), vec![vec![4]]);
}

#[test]
fn placement_of_a_known_value_changes_nothing() {
    let mut set = set_of(vec![vec![1], vec![2]]);
    add_to_correct_cluster_set(&mut set, 2, &vec![vec![9], vec![9]], 0, 0);
    assert_eq!(contents(&set), vec![vec![1], vec![2]]);
}

#[test]
fn cluster_data_groups_by_score_and_skips_repeats() {
    // values: 10, 11, 20, 10, 21 ; 1x are alike, 2x are alike.
    let data = vec![10usize, 11, 20, 10, 21];
    let alike = |a: usize, b: usize| if a / 10 == b / 10 { 9u64 } else { 1 };
    let scores: Vec<Vec<u64>> = data.iter().map(|&a| data.iter().map(|&b| alike(a, b)).collect()).collect();
    let set = cluster_data(data.clone(), &scores, 5);
    assert_eq!(contents(&set), vec![vec![10, 11], vec![20, 21]]);
    for v in &data {
        assert!(set.contains(v));
    }
}

#[test]
fn cluster_data_of_nothing_is_empty() {
    let set = cluster_data(Vec::<usize>::new(), &vec![], 0);
    assert!(set.is_empty());
}

#[test]
fn every_datum_is_in_exactly_one_nonempty_cluster() {
    let data = vec![3usize, 1, 4, 1, 5, 9, 2, 6, 5, 3, 5];
    let scores: Vec<Vec<u64>> = data.iter().map(|&a| data.iter().map(|&b| (a as u64 * 7 + b as u64 * 3) % 11).collect()).collect();
    let set = cluster_data(data.clone(), &scores, 5);
    let all: Vec<usize> = contents(&set).into_iter().flatten().collect();
    for v in &data {
        assert_eq!(all.iter().filter(|x| *x == v).count(), 1);
    }
    assert!(set.clusters().iter().all(|c| !c.is_empty()));
    assert!(all.iter().all(|x| data.contains(x)));
}

#[test]
fn default_sets_and_clusters_are_empty() {
    let set: ClusterSet<usize> = Default::default();
    assert!(set.is_empty());
    let c: Cluster<usize> = Default::default();
    assert!(c.is_empty());
    assert_eq!(Cluster::<usize>::new().len(), 0);
}

#[test]
fn clusters_round_trip_through_their_values() {
    let set = set_of(vec![vec![1, 2], vec![3]]);
    let back: Vec<Vec<usize>> = set.into_clusters().into_iter().map(|c| c.into_values()).collect();
    assert_eq!(back, vec![vec![1, 2], vec![3]]);
}

#[test]
fn built_up_set_finds_each_value_in_the_one_cluster_that_holds_it() {
    let mut set: ClusterSet<usize> = ClusterSet::new();
    let a = set.append_new_cluster();
    let b = set.append_new_cluster();
    set.add_to_cluster(a, 10);
    set.add_to_cluster(b, 20);
    set.add_to_cluster(a, 11);
    let c = set.append_new_cluster();
    set.add_to_cluster(c, 30);
    assert_eq!(contents(&set), vec![vec![10, 11], vec![20], vec![30]]);
    assert_eq!(set.get_cluster_index(&10), Some(0));
    assert_eq!(set.get_cluster_index(&11), Some(0));
    assert_eq!(set.get_cluster_index(&20), Some(1));
    assert_eq!(set.get_cluster_index(&30), Some(2));
    assert_eq!(set.get_cluster_index(&40), None);
}

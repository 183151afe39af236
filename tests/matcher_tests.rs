use slideo::frame_matcher::{
    count_inliers, group_near_matches, near_best_matches, rank_candidates, select_geometric,
    select_photometric, sort_scored, KeyedDMatch,
};

fn hit(query: i32, source: usize, distance: u32) -> KeyedDMatch {
    KeyedDMatch { query_idx: query, train_idx: 0, source, distance }
}

#[test]
fn near_best_keeps_hits_within_five_percent() {
    let row = vec![hit(0, 0, 104), hit(0, 1, 100), hit(0, 2, 105), hit(0, 3, 106)];
    let kept: Vec<u32> = near_best_matches(&row).iter().map(|h| h.distance).collect();
    assert_eq!(kept, vec![104, 100, 105]);
}

#[test]
fn near_best_of_an_exact_hit_keeps_its_ties() {
    let row = vec![hit(0, 0, 0), hit(0, 1, 0), hit(0, 2, 1)];
    assert_eq!(near_best_matches(&row).iter().map(|h| h.source).collect::<Vec<_>>(), vec![0, 1]);
    assert!(near_best_matches(&vec![]).is_empty());
}

#[test]
fn hits_are_grouped_by_page_in_query_order() {
    let knn = vec![
        vec![hit(0, 1, 20), hit(0, 0, 20), hit(0, 2, 22)],
        vec![hit(1, 1, 20)],
    ];
    let groups = group_near_matches(&knn, 3);
    assert_eq!(groups.len(), 3);
    assert_eq!(groups[0].iter().map(|h| h.query_idx).collect::<Vec<_>>(), vec![0]);
    assert_eq!(groups[1].iter().map(|h| h.query_idx).collect::<Vec<_>>(), vec![0, 1]);
    assert!(groups[2].is_empty());
}

#[test]
fn candidates_are_ranked_by_hit_count() {
    let g = |n: usize, page: usize| (0..n).map(|i| hit(i as i32, page, 1)).collect::<Vec<_>>();
    let buckets = vec![g(2, 0), g(0, 1), g(5, 2), g(2, 3)];
    assert_eq!(rank_candidates(&buckets), vec![2, 0, 3]);
    let many: Vec<Vec<KeyedDMatch>> = (0..45).map(|p| g(1 + p % 3, p)).collect();
    let ranked = rank_candidates(&many);
    assert_eq!(ranked.len(), 40);
    assert_eq!(ranked[0], 2);
}

#[test]
fn rating_counts_inliers_of_enough_correspondences() {
    let mut flags = vec![true; 11];
    flags.push(false);
    assert_eq!(count_inliers(&flags), 11);
    assert_eq!(count_inliers(&vec![true; 9]), 0);
}

#[test]
fn rating_of_exactly_fifty_is_excluded() {
    assert!(select_geometric(&vec![(0, 50)]).is_empty());
    assert_eq!(select_geometric(&vec![(0, 51)]), vec![(0, 51)]);
}

#[test]
fn rating_must_be_a_fifth_of_the_best() {
    let r = select_geometric(&vec![(2, 59), (0, 300), (1, 60)]);
    assert_eq!(r, vec![(0, 300), (1, 60)]);
}

#[test]
fn only_the_ten_best_ratings_are_considered() {
    let rated: Vec<(usize, u64)> = (0..12).map(|p| (p, 100 + p as u64)).collect();
    let r = select_geometric(&rated);
    assert_eq!(r.len(), 10);
    assert_eq!(r[0], (11, 111));
    assert_eq!(r[9], (2, 102));
}

#[test]
fn similarity_of_exactly_one_half_is_excluded() {
    assert_eq!(select_photometric(&vec![(0, 500_000_000)]), None);
    assert_eq!(select_photometric(&vec![(0, 500_000_001)]), Some(0));
    assert_eq!(select_photometric(&vec![]), None);
}

#[test]
fn most_similar_candidate_wins() {
    assert_eq!(select_photometric(&vec![(3, 700_000_000), (5, 900_000_000), (4, 600_000_000)]), Some(5));
    assert_eq!(select_photometric(&vec![(3, 800_000_000), (5, 800_000_000)]), Some(3));
    assert_eq!(sort_scored(&vec![(1, 5), (2, 7), (3, 5)]), vec![(2, 7), (1, 5), (3, 5)]);
}

use spectral_cortex::links::{detect_long_range_links, related_note_links};
use spectral_cortex::rank::{ascending_ids, boosted_rows, long_range_order, rank_top};

#[test]
fn related_links_take_best_score_per_neighbor() {
    let links = vec![(1u32, 2u32, 50u32), (2, 3, 70), (1, 2, 90), (0, 1, 90), (1, 4, 10)];
    assert_eq!(related_note_links(&links, 1, None), vec![(0, 90), (2, 90), (4, 10)]);
    assert_eq!(related_note_links(&links, 1, Some(2)), vec![(0, 90), (2, 90)]);
    assert_eq!(related_note_links(&links, 3, None), vec![(2, 70)]);
    assert!(related_note_links(&links, 9, None).is_empty());
}

#[test]
fn long_range_links_listing_order() {
    let links = vec![(2u32, 5u32, 80u32), (1, 9, 95), (1, 3, 80), (0, 7, 80)];
    assert_eq!(long_range_order(&links, None), vec![1, 3, 2, 0]);
    assert_eq!(long_range_order(&links, Some(2)), vec![1, 3]);
    assert_eq!(rank_top(&vec![(1u32, 0u64), (2, 0)], Some(0)), Vec::<usize>::new());
}

#[test]
fn boost_goes_to_the_three_best_clusters() {
    let centroids = vec![(0usize, 10u32), (1, 40), (2, 30), (3, 20)];
    let labels = vec![0usize, 1, 2, 3, 1];
    assert_eq!(boosted_rows(&labels, &centroids), vec![false, true, true, true, true]);
    assert_eq!(boosted_rows(&labels, &Vec::new()), vec![false; 5]);
}

#[test]
fn ids_come_out_ascending() {
    let ids = vec![7u32, 3, 9, 1];
    assert_eq!(ascending_ids(&ids), vec![1, 3, 7, 9]);
    assert!(ascending_ids(&Vec::new()).is_empty());
}

#[test]
fn long_range_pairs_are_selected_and_ordered() {
    let ids = vec![10u32, 20, 30];
    let spectral = vec![vec![0u32, 80, 90], vec![80, 0, 95], vec![90, 95, 0]];
    let embedding = vec![vec![0u32, 10, 60], vec![10, 0, 20], vec![60, 20, 0]];
    let links = detect_long_range_links(&ids, &spectral, &embedding, 70, 50);
    assert_eq!(links, vec![(20, 30, 95), (10, 20, 80)]);
    let none = detect_long_range_links(&ids, &spectral, &embedding, 99, 50);
    assert!(none.is_empty());
}

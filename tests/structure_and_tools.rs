use spectral_cortex::embed::{init, plan_batch, shutdown, EmbedderLifecycle};
use spectral_cortex::error::CortexError;
use spectral_cortex::structure::{
    add_related, cluster_count, cluster_members, expand_candidates, largest_gap_index, next_note_id,
    spectral_applies, spectral_dims,
};
use spectral_cortex::tools::{clamp_top_k, compact_snippet, escape_pipes, find_note_by_turn_id, snippet_width};

#[test]
fn small_graphs_skip_the_spectral_build() {
    assert!(!spectral_applies(0));
    assert!(!spectral_applies(2));
    assert!(spectral_applies(3));
    assert_eq!(spectral_dims(3), 2);
    assert_eq!(spectral_dims(20), 8);
}

#[test]
fn cluster_count_is_clamped() {
    assert_eq!(cluster_count(1, 10), 2);
    assert_eq!(cluster_count(5, 10), 5);
    assert_eq!(cluster_count(40, 100), 12);
    assert_eq!(cluster_count(9, 4), 4);
    assert_eq!(cluster_count(9, 1), 2);
}

#[test]
fn clusters_group_rows_by_label() {
    let labels = vec![2usize, 0, 2, 5];
    let c = cluster_members(&labels);
    assert_eq!(c, vec![(0, vec![1]), (2, vec![0, 2]), (5, vec![3])]);
    assert!(cluster_members(&Vec::new()).is_empty());
}

#[test]
fn next_id_follows_the_largest() {
    assert_eq!(next_note_id(&vec![]), Some(0));
    assert_eq!(next_note_id(&vec![3, 9, 4]), Some(10));
    assert_eq!(next_note_id(&vec![u32::MAX]), None);
}

#[test]
fn candidates_follow_provenance() {
    let c = expand_candidates(&vec![7, 8, 9], &vec![100, 200]);
    assert_eq!(c, vec![(7, Some(100)), (8, Some(200)), (9, None)]);
}

#[test]
fn related_ids_have_no_repeats() {
    let mut l = vec![4u32];
    add_related(&mut l, 5);
    add_related(&mut l, 4);
    assert_eq!(l, vec![4, 5]);
}

#[test]
fn embedder_lifecycle() {
    let mut e = EmbedderLifecycle::new();
    assert_eq!(e.check_ready(), Err(CortexError::NotInitialized));
    assert_eq!(plan_batch(&e, 0).unwrap(), Vec::<(usize, usize)>::new());
    assert_eq!(plan_batch(&e, 3), Err(CortexError::NotInitialized));
    assert_eq!(init(&mut e, 4, 100), Ok(()));
    assert_eq!(init(&mut e, 2, 0), Err(CortexError::AlreadyInitialized));
    assert_eq!(e.workers, 4);
    assert_eq!(plan_batch(&e, 70).unwrap(), vec![(0, 32), (32, 64), (64, 70)]);
    assert_eq!(plan_batch(&e, 64).unwrap(), vec![(0, 32), (32, 64)]);
    assert!(shutdown(&mut e));
    assert!(!shutdown(&mut e));
    assert!(!e.initialized);
}

#[test]
fn top_k_and_width_clamps() {
    assert_eq!(clamp_top_k(None, 5, 50), 5);
    assert_eq!(clamp_top_k(Some(0), 5, 50), 1);
    assert_eq!(clamp_top_k(Some(500), 5, 50), 50);
    assert_eq!(snippet_width(None), 140);
    assert_eq!(snippet_width(Some(3)), 40);
    assert_eq!(snippet_width(Some(1000)), 300);
}

#[test]
fn snippets_are_one_line_and_cut() {
    assert_eq!(compact_snippet("a\nb  c", 40), "a b c");
    assert_eq!(compact_snippet("a   b", 40), "a  b");
    assert_eq!(compact_snippet("abcdef", 3), "abc\u{2026}");
    assert_eq!(escape_pipes("a|b"), "a\\|b");
}

#[test]
fn note_lookup_by_turn() {
    let notes = vec![(1u32, vec![10u64, 11]), (2, vec![12]), (3, vec![12])];
    assert_eq!(find_note_by_turn_id(&notes, 12), Some(2));
    assert_eq!(find_note_by_turn_id(&notes, 11), Some(1));
    assert_eq!(find_note_by_turn_id(&notes, 99), None);
}

#[test]
fn eigengap_picks_first_largest_positive_gap() {
    assert_eq!(largest_gap_index(&vec![5, 9, 9, 2], 3), 2);
    assert_eq!(largest_gap_index(&vec![1, 2], 3), 1);
    assert_eq!(largest_gap_index(&vec![], 3), 1);
    assert_eq!(largest_gap_index(&vec![3, 4], 3), 2);
}

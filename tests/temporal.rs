use spectral_cortex::rank::rank_descending;
use spectral_cortex::temporal::{
    note_in_time_window, resolve_now, temporal_kernel, window_start, TemporalKernel, TemporalMode,
    DEFAULT_HALF_LIFE_SECONDS,
};

fn fixed_now() -> u64 {
    1_767_225_600u64
}

#[test]
fn test_exponential_half_life_behavior() {
    let now = 1_000_000u64;
    let k = temporal_kernel(TemporalMode::Exponential, Some(10), None, None, Some(now - 10), now);
    assert_eq!(k, TemporalKernel::Decay { age: 10, half_life: 10 });
}

#[test]
fn test_linear_window_behavior() {
    let k = temporal_kernel(TemporalMode::LinearWindow, None, Some(100), None, Some(150), 200);
    assert_eq!(k, TemporalKernel::Linear { remaining: 50, window: 100 });
}

#[test]
fn test_step_mode_behavior() {
    let now = 10_000u64;
    let recent = temporal_kernel(TemporalMode::Step, None, Some(3600), None, Some(now - 1800), now);
    let old = temporal_kernel(TemporalMode::Step, None, Some(3600), None, Some(now - 7200), now);
    assert_eq!(recent, TemporalKernel::StepBoost);
    assert_eq!(old, TemporalKernel::Zero);
}

#[test]
fn test_buckets_mode_behavior() {
    let bounds = vec![86400u64, 7 * 86400, 30 * 86400];
    let now = 10_000_000u64;
    let at = |ts: u64| temporal_kernel(TemporalMode::Buckets, None, None, Some(&bounds), Some(ts), now);
    assert_eq!(at(now - 3600), TemporalKernel::Bucket(0));
    assert_eq!(at(now - 3 * 86400), TemporalKernel::Bucket(1));
    assert_eq!(at(now - 20 * 86400), TemporalKernel::Bucket(2));
    assert_eq!(at(now - 100 * 86400), TemporalKernel::Zero);
}

#[test]
fn test_missing_timestamp_yields_zero_temporal_score() {
    let k = temporal_kernel(TemporalMode::Exponential, Some(DEFAULT_HALF_LIFE_SECONDS), None, None, None, fixed_now());
    assert_eq!(k, TemporalKernel::Zero);
}

#[test]
fn buckets_without_bounds_decay_and_defaults_apply() {
    let k = temporal_kernel(TemporalMode::Buckets, None, None, None, Some(100), 400);
    assert_eq!(k, TemporalKernel::Decay { age: 300, half_life: 1_209_600 });
    let future = temporal_kernel(TemporalMode::LinearWindow, None, None, None, Some(500), 400);
    assert_eq!(future, TemporalKernel::Linear { remaining: 1_209_600, window: 1_209_600 });
    let zero_half_life = temporal_kernel(TemporalMode::Exponential, Some(0), None, None, Some(1), 2);
    assert_eq!(zero_half_life, TemporalKernel::Zero);
    let past_window = temporal_kernel(TemporalMode::LinearWindow, None, Some(10), None, Some(0), 50);
    assert_eq!(past_window, TemporalKernel::Linear { remaining: 0, window: 10 });
}

#[test]
fn now_resolution_order() {
    assert_eq!(resolve_now(Some(5), Some(7), 9), 5);
    assert_eq!(resolve_now(None, Some(7), 9), 7);
    assert_eq!(resolve_now(None, None, 9), 9);
    assert_eq!(window_start(100, 30), 70);
    assert_eq!(window_start(10, 30), 0);
}

#[test]
fn time_window_filter() {
    let ts = vec![100u64, 300, 200];
    assert!(note_in_time_window(&ts, None, None));
    assert!(note_in_time_window(&ts, Some(300), Some(100)));
    assert!(!note_in_time_window(&ts, Some(301), None));
    assert!(!note_in_time_window(&ts, None, Some(99)));
    assert!(!note_in_time_window(&Vec::new(), None, None));
}

fn score_key(x: f32) -> u32 {
    x.to_bits()
}

#[test]
fn test_disabled_temporal_preserves_raw_order() {
    // With re-ranking disabled the final score is the raw score.
    let raw = [0.70f32, 0.90f32];
    let keys: Vec<(u32, u64)> = raw.iter().map(|r| (score_key(*r), 0)).collect();
    let order = rank_descending(&keys);
    assert_eq!(order.len(), 2);
    assert_eq!(order[0], 1);
    assert!((raw[order[0]] - 0.90).abs() < 1e-6);
}

#[test]
fn ranking_is_stable_and_idempotent() {
    let keys = vec![(5u32, 0u64), (9, 0), (5, 0), (9, 0), (1, 0)];
    let first = rank_descending(&keys);
    assert_eq!(first, vec![1, 3, 0, 2, 4]);
    let ranked: Vec<(u32, u64)> = first.iter().map(|i| keys[*i]).collect();
    assert_eq!(rank_descending(&ranked), vec![0, 1, 2, 3, 4]);
    let tie = vec![(3u32, 7u64), (3, 2), (4, 9)];
    assert_eq!(rank_descending(&tie), vec![2, 1, 0]);
    assert!(rank_descending(&Vec::new()).is_empty());
}

#[test]
fn temporal_mode_names() {
    assert_eq!(TemporalMode::from_name("Linear"), TemporalMode::LinearWindow);
    assert_eq!(TemporalMode::from_name("LINEARWINDOW"), TemporalMode::LinearWindow);
    assert_eq!(TemporalMode::from_name("step"), TemporalMode::Step);
    assert_eq!(TemporalMode::from_name("Buckets"), TemporalMode::Buckets);
    assert_eq!(TemporalMode::from_name("whatever"), TemporalMode::Exponential);
}

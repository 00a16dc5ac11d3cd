use spectral_cortex::error::CortexError;
use spectral_cortex::filter::{apply_git_line_filters, GitFilterConfig, GitFilterStats};

#[test]
fn noise_preset_drops_trailers() {
    let cfg = GitFilterConfig::from_settings(Some("Git-Noise"), &Vec::new(), false).unwrap();
    assert!(cfg.enabled());
    let mut stats = GitFilterStats::default();
    let msg = "Fix parser\n\nHandle empty input\nHandle empty input\nSigned-off-by: A <a@b>\n";
    let out = apply_git_line_filters(msg, &cfg, &mut stats);
    assert_eq!(out.as_deref(), Some("Fix parser\nHandle empty input"));
    assert_eq!(stats.lines_dropped, 1);
    assert_eq!(stats.commits_kept, 1);
    assert_eq!(stats.total_chars_before, msg.len());
    assert_eq!(stats.total_chars_after, "Fix parser\nHandle empty input".len());
}

#[test]
fn extra_patterns_and_case() {
    let extra = vec!["^wip".to_string()];
    let cfg = GitFilterConfig::from_settings(None, &extra, true).unwrap();
    let mut stats = GitFilterStats::default();
    assert_eq!(
        apply_git_line_filters("Subject\nWIP stuff\nreal change", &cfg, &mut stats).as_deref(),
        Some("Subject\nreal change")
    );
    assert_eq!(apply_git_line_filters("   ", &cfg, &mut stats), None);
    assert_eq!(stats.commits_skipped_empty, 1);
    assert_eq!(stats.total_commits_seen, 2);
}

#[test]
fn no_patterns_keeps_message() {
    let cfg = GitFilterConfig::from_settings(None, &Vec::new(), false).unwrap();
    assert!(!cfg.enabled());
    let mut stats = GitFilterStats::default();
    assert_eq!(apply_git_line_filters(" a\n\nb ", &cfg, &mut stats).as_deref(), Some(" a\n\nb "));
}

#[test]
fn bad_preset_and_pattern_are_rejected() {
    assert_eq!(
        GitFilterConfig::from_settings(Some("other"), &Vec::new(), false).err(),
        Some(CortexError::InvalidConfig("other".to_string()))
    );
    let bad = vec!["(unclosed".to_string()];
    assert_eq!(
        GitFilterConfig::from_settings(None, &bad, false).err(),
        Some(CortexError::InvalidConfig("(unclosed".to_string()))
    );
}

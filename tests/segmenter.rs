use spectral_cortex::error::CortexError;
use spectral_cortex::segment::{
    is_bullet_line, is_conventional_header, split_commit_message, CommitSegment, CommitSplitConfig,
    CommitSplitMode, CommitSplitStats, ParseMode,
};

fn cfg(mode: CommitSplitMode) -> CommitSplitConfig {
    CommitSplitConfig {
        mode,
        max_segments: 6,
        min_confidence: 75,
    }
}

#[test]
fn split_off_keeps_single_segment() {
    let mut stats = CommitSplitStats::default();
    let message = "refactor: use dependency injection\nfix: add failure logs";
    let parts = split_commit_message(message, &cfg(CommitSplitMode::Off), &mut stats);
    assert_eq!(parts.len(), 1);
    assert_eq!(stats.commits_split, 0);
    assert_eq!(stats.fallback_to_single, 1);
}

#[test]
fn split_auto_detects_multiple_headers() {
    let mut stats = CommitSplitStats::default();
    let message =
        "refactor: use dependency injection\n- inject payment service\nfix: add failure logs";
    let parts = split_commit_message(message, &cfg(CommitSplitMode::Auto), &mut stats);
    assert_eq!(parts.len(), 2);
    assert_eq!(stats.commits_split, 1);
    assert_eq!(stats.total_segments_emitted, 2);
}

#[test]
fn split_auto_keeps_single_when_confidence_too_low() {
    let mut stats = CommitSplitStats::default();
    let message =
        "first paragraph has several words for context\n\nsecond paragraph is also substantial text";
    let strict_conf = CommitSplitConfig {
        mode: CommitSplitMode::Auto,
        max_segments: 6,
        min_confidence: 90,
    };
    let parts = split_commit_message(message, &strict_conf, &mut stats);
    assert_eq!(parts.len(), 1);
    assert_eq!(stats.commits_split, 0);
    assert_eq!(stats.fallback_to_single, 1);
}

#[test]
fn split_strict_accepts_paragraph_fallback() {
    let mut stats = CommitSplitStats::default();
    let message =
        "first paragraph has several words for context\n\nsecond paragraph is also substantial text";
    let parts = split_commit_message(message, &cfg(CommitSplitMode::Strict), &mut stats);
    assert_eq!(parts.len(), 2);
    assert_eq!(stats.commits_split, 1);
}

#[test]
fn split_respects_segment_cap() {
    let mut stats = CommitSplitStats::default();
    let message = "fix: one\nfix: two\nfix: three\nfix: four";
    let limited = CommitSplitConfig {
        mode: CommitSplitMode::Strict,
        max_segments: 2,
        min_confidence: 75,
    };
    let parts = split_commit_message(message, &limited, &mut stats);
    assert_eq!(parts.len(), 2);
    assert_eq!(stats.total_segments_emitted, 2);
}

#[test]
fn header_segments_carry_details() {
    let mut stats = CommitSplitStats::default();
    let message =
        "refactor: use dependency injection\n- inject payment service\nfix: add failure logs";
    let parts = split_commit_message(message, &cfg(CommitSplitMode::Auto), &mut stats);
    assert_eq!(parts[0].header, "refactor: use dependency injection");
    assert_eq!(parts[0].details, vec!["- inject payment service".to_string()]);
    assert_eq!(parts[0].confidence, 95);
    assert_eq!(parts[0].parse_mode, ParseMode::ConventionalHeader);
    assert_eq!(parts[1].header, "fix: add failure logs");
    assert!(parts[1].details.is_empty());
    assert_eq!(stats.segments_from_headers, 2);
}

#[test]
fn bullets_split_when_long_enough() {
    let mut stats = CommitSplitStats::default();
    let message = "Summary line\n- update the parser\n* tiny\n*  rewrite storage layer  ";
    let parts = split_commit_message(message, &cfg(CommitSplitMode::Auto), &mut stats);
    assert_eq!(parts.len(), 2);
    assert_eq!(parts[0].header, "update the parser");
    assert_eq!(parts[1].header, "rewrite storage layer");
    assert_eq!(parts[0].parse_mode, ParseMode::BulletGrouped);
    assert_eq!(parts[0].confidence, 80);
    assert_eq!(stats.segments_from_bullets, 2);
}

#[test]
fn paragraphs_split_into_header_and_details() {
    let mut stats = CommitSplitStats::default();
    let message = "first paragraph has words\nmore detail here\n\nsecond paragraph has four words";
    let parts = split_commit_message(message, &cfg(CommitSplitMode::Strict), &mut stats);
    assert_eq!(parts.len(), 2);
    assert_eq!(parts[0].header, "first paragraph has words");
    assert_eq!(parts[0].details, vec!["more detail here".to_string()]);
    assert_eq!(parts[0].confidence, 65);
    assert_eq!(parts[1].header, "second paragraph has four words");
    assert_eq!(stats.segments_from_paragraphs, 2);
}

#[test]
fn off_mode_on_empty_message_gives_empty_header() {
    let mut stats = CommitSplitStats::default();
    let parts = split_commit_message("", &cfg(CommitSplitMode::Off), &mut stats);
    assert_eq!(parts.len(), 1);
    assert_eq!(parts[0].header, "");
    assert!(parts[0].details.is_empty());
    assert_eq!(parts[0].confidence, 100);
    assert_eq!(stats.commits_seen, 1);
    assert_eq!(stats.total_segments_emitted, 1);
}

#[test]
fn single_segment_collects_other_lines() {
    let mut stats = CommitSplitStats::default();
    let parts = split_commit_message("  \n Title \n\n body one \nbody two", &cfg(CommitSplitMode::Auto), &mut stats);
    assert_eq!(parts.len(), 1);
    assert_eq!(parts[0].header, "Title");
    assert_eq!(parts[0].details, vec!["body one".to_string(), "body two".to_string()]);
    assert_eq!(stats.fallback_to_single, 1);
}

#[test]
fn a_cap_of_one_never_splits() {
    let mut stats = CommitSplitStats::default();
    let limited = CommitSplitConfig::new(CommitSplitMode::Strict, 0, 500);
    assert_eq!(limited.max_segments, 1);
    assert_eq!(limited.min_confidence, 100);
    let parts = split_commit_message("fix: one\nfix: two", &limited, &mut stats);
    assert_eq!(parts.len(), 1);
    assert_eq!(parts[0].header, "fix: one");
}

#[test]
fn conventional_header_rules() {
    assert!(is_conventional_header("feat(api): add endpoint"));
    assert!(is_conventional_header("  fix/ui-2: spacing  "));
    assert!(!is_conventional_header("1fix: starts with a digit"));
    assert!(!is_conventional_header(": no prefix"));
    assert!(!is_conventional_header("fix:   "));
    assert!(!is_conventional_header("no colon here"));
    assert!(!is_conventional_header("fix it: space in prefix"));
    assert!(is_conventional_header("fix: a: b"));
}

#[test]
fn bullet_line_rules() {
    assert!(is_bullet_line("  - item"));
    assert!(is_bullet_line("* x"));
    assert!(!is_bullet_line("- "));
    assert!(!is_bullet_line("-item"));
    assert!(!is_bullet_line("+ item"));
}

#[test]
fn segment_content_joins_details() {
    let seg = CommitSegment {
        header: "  fix: parser ".to_string(),
        details: vec![" first ".to_string(), "   ".to_string(), "second".to_string()],
        confidence: 95,
        parse_mode: ParseMode::ConventionalHeader,
    };
    assert_eq!(seg.to_content(), "fix: parser\nfirst\nsecond");
}

#[test]
fn mode_names_parse_in_any_case() {
    assert_eq!(CommitSplitMode::parse("AUTO"), Ok(CommitSplitMode::Auto));
    assert_eq!(CommitSplitMode::parse("Strict"), Ok(CommitSplitMode::Strict));
    assert_eq!(CommitSplitMode::parse("off"), Ok(CommitSplitMode::Off));
    assert_eq!(
        CommitSplitMode::parse("sometimes"),
        Err(CortexError::InvalidConfig("sometimes".to_string()))
    );
    assert_eq!(CommitSplitMode::Auto.as_str(), "auto");
    assert_eq!(CommitSplitMode::Off.as_str(), "off");
    assert_eq!(CommitSplitMode::Strict.as_str(), "strict");
}

#[test]
fn config_from_settings_checks_the_mode() {
    let c = CommitSplitConfig::from_settings("Auto", 6, 75).unwrap();
    assert_eq!(c.mode, CommitSplitMode::Auto);
    assert_eq!(c.max_segments, 6);
    assert!(matches!(
        CommitSplitConfig::from_settings("bogus", 6, 75),
        Err(CortexError::InvalidConfig(_))
    ));
}

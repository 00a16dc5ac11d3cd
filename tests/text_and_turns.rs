use spectral_cortex::turn::{assign_turn_ids, is_new_commit, max_turn_id, ConversationTurn};

fn turn(content: &str) -> ConversationTurn {
    ConversationTurn {
        turn_id: 1,
        speaker: "author".to_string(),
        content: content.to_string(),
        topic: "git".to_string(),
        entities: Vec::new(),
        commit_id: None,
        timestamp: 0,
    }
}

#[test]
fn clean_context_collapses_whitespace() {
    assert_eq!(turn("  fix \t bug\n\n in   parser ").clean_context(), "fix bug in parser");
    assert_eq!(turn("").clean_context(), "");
    assert_eq!(turn(" \n\t ").clean_context(), "");
    assert_eq!(turn("one").clean_context(), "one");
    assert_eq!(turn("a\u{3000}b\u{a0}c").clean_context(), "a b c");
}

#[test]
fn known_commits_are_not_new() {
    let known = vec!["abc".to_string(), "def".to_string()];
    assert!(!is_new_commit(&Some("def".to_string()), &known));
    assert!(is_new_commit(&Some("xyz".to_string()), &known));
    assert!(is_new_commit(&None, &known));
}

#[test]
fn turns_are_numbered_after_the_last() {
    assert_eq!(max_turn_id(&vec![4, 9, 2]), 9);
    assert_eq!(max_turn_id(&vec![]), 0);
    let mut ts = vec![turn("a"), turn("b")];
    assign_turn_ids(&mut ts, 9);
    assert_eq!(ts[0].turn_id, 10);
    assert_eq!(ts[1].turn_id, 11);
    assert_eq!(ts[1].content, "b");
    assign_turn_ids(&mut ts, u64::MAX - 1);
    assert_eq!(ts[0].turn_id, u64::MAX);
    assert_eq!(ts[1].turn_id, u64::MAX);
}

//! Concrete cases of the editor's laws, edge cases and every rejection.
use replai::{first_start_at_or_after, is_listed, last_start_before, valid_text};
use replai::{EditError, Editor};

#[test]
fn every_rejection_leaves_text_and_cursor_unchanged() {
    let mut e = Editor::new(6, 1);
    e.insert("ab").unwrap();
    e.left();
    let before = (e.text().to_owned(), e.cursor());
    assert_eq!(e.insert("\u{7}"), Err(EditError::InvalidText));
    assert_eq!(e.insert("\u{85}"), Err(EditError::InvalidText));
    assert_eq!(e.insert("界界"), Err(EditError::Capacity));
    assert_eq!(e.replace(0..3, ""), Err(EditError::InvalidRange));
    assert_eq!((e.text().to_owned(), e.cursor()), before);
    assert_eq!(Editor::new(3, 0).admit_history("a"), Err(EditError::HistoryDisabled));
}

#[test]
fn lf_and_tab_are_text_and_capacity_is_exact() {
    let mut e = Editor::new(3, 0);
    e.insert("a\n\t").unwrap();
    assert_eq!((e.text(), e.cursor()), ("a\n\t", 3));
    assert_eq!(e.insert("x"), Err(EditError::Capacity));
    let mut zero = Editor::new(0, 0);
    assert_eq!(zero.insert("x"), Err(EditError::Capacity));
    zero.insert("").unwrap();
    assert_eq!((zero.text(), zero.cursor()), ("", 0));
}

#[test]
fn combining_mark_joins_the_cluster_and_cursor_lands_after_it() {
    let mut e = Editor::new(16, 0);
    e.insert("e").unwrap();
    e.insert("\u{301}").unwrap();
    assert_eq!((e.text(), e.cursor()), ("e\u{301}", 3));
    e.left();
    assert_eq!(e.cursor(), 0);
    e.right();
    assert_eq!(e.cursor(), 3);
    e.home();
    e.delete();
    assert_eq!((e.text(), e.cursor()), ("", 0));
}

#[test]
fn movement_stops_at_both_ends() {
    let mut e = Editor::new(16, 0);
    e.left();
    e.right();
    e.backspace();
    e.delete();
    assert_eq!((e.text(), e.cursor()), ("", 0));
    e.insert("ab").unwrap();
    e.right();
    assert_eq!(e.cursor(), 2);
    e.delete();
    assert_eq!(e.text(), "ab");
    e.home();
    e.left();
    e.backspace();
    assert_eq!((e.text(), e.cursor()), ("ab", 0));
}

#[test]
fn replacement_of_the_whole_input_moves_cursor_to_its_end() {
    let mut e = Editor::new(32, 0);
    e.insert("wor").unwrap();
    e.replace(0..3, "world").unwrap();
    assert_eq!((e.text(), e.cursor()), ("world", 5));
    e.replace(1..1, "é").unwrap();
    assert_eq!((e.text(), e.cursor()), ("wéorld", 3));
}

#[test]
fn recall_round_trip_restores_draft_and_cursor() {
    let mut e = Editor::new(32, 3);
    e.insert("draft").unwrap();
    e.home();
    e.history_up();
    e.history_down();
    assert_eq!((e.text(), e.cursor()), ("draft", 0));
    e.admit_history("only").unwrap();
    e.history_up();
    assert_eq!((e.text(), e.cursor()), ("only", 4));
    e.history_up();
    assert_eq!(e.text(), "only");
    e.history_down();
    assert_eq!((e.text(), e.cursor()), ("draft", 0));
    e.history_down();
    assert_eq!((e.text(), e.cursor()), ("draft", 0));
}

#[test]
fn editing_a_recalled_entry_never_changes_history() {
    let mut e = Editor::new(32, 2);
    e.admit_history("one").unwrap();
    e.history_up();
    e.backspace();
    e.insert("X").unwrap();
    assert_eq!(e.text(), "onX");
    e.history_down();
    assert_eq!(e.text(), "");
    e.history_up();
    assert_eq!(e.text(), "one");
}

#[test]
fn admission_evicts_only_the_oldest_at_the_bound() {
    let mut e = Editor::new(32, 2);
    e.admit_history("a").unwrap();
    e.admit_history("b").unwrap();
    e.admit_history("c").unwrap();
    e.history_up();
    assert_eq!(e.text(), "c");
    e.history_up();
    assert_eq!(e.text(), "b");
    e.history_up();
    assert_eq!(e.text(), "b");
    assert_eq!(e.admit_history("bad\u{1b}"), Err(EditError::InvalidText));
    assert_eq!(e.text(), "b");
}

#[test]
fn clear_keeps_history_and_drops_the_navigation_draft() {
    let mut e = Editor::new(32, 2);
    e.admit_history("kept").unwrap();
    e.insert("draft").unwrap();
    e.history_up();
    e.clear();
    assert_eq!((e.text(), e.cursor()), ("", 0));
    e.history_down();
    assert_eq!(e.text(), "");
    e.history_up();
    assert_eq!(e.text(), "kept");
}

#[test]
fn capacity_reports_the_configured_limit() {
    assert_eq!(Editor::new(7, 0).capacity(), 7);
}

#[test]
fn valid_text_accepts_only_lf_and_tab_among_controls() {
    assert!(valid_text("plain é 界 \n\t"));
    assert!(!valid_text("\r"));
    assert!(!valid_text("\u{0}"));
    assert!(!valid_text("\u{7f}"));
    assert!(!valid_text("\u{9f}"));
    assert!(valid_text("\u{a0}"));
}

#[test]
fn boundary_arithmetic_on_given_offsets() {
    let starts = vec![0, 1, 3, 7];
    assert_eq!(first_start_at_or_after(&starts, 2, 9), 3);
    assert_eq!(first_start_at_or_after(&starts, 8, 9), 9);
    assert_eq!(first_start_at_or_after(&starts, 0, 9), 0);
    assert!(is_listed(&starts, 3, 9));
    assert!(is_listed(&starts, 9, 9));
    assert!(!is_listed(&starts, 2, 9));
    assert_eq!(last_start_before(&starts, 9), 7);
    assert_eq!(last_start_before(&starts, 7), 3);
    assert_eq!(last_start_before(&starts, 0), 0);
    assert_eq!(last_start_before(&Vec::new(), 4), 0);
}

#[test]
fn error_messages_describe_each_rejection() {
    assert_eq!(EditError::Capacity.message(), "input capacity exceeded");
    assert_eq!(EditError::InvalidText.message(), "unsupported control character");
    assert_eq!(
        EditError::InvalidRange.message(),
        "replacement must use ordered grapheme boundaries"
    );
    assert_eq!(EditError::HistoryDisabled.message(), "history is disabled");
    assert_eq!(EditError::InvalidUtf8.message(), "invalid or incomplete UTF-8");
    assert_eq!(
        EditError::InvalidSequence.message(),
        "unknown or incomplete terminal sequence"
    );
}

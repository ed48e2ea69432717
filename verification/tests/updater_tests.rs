use issue_sync::updater::{
    build_update, should_sync_path, state_change_of, StateChange, UpdateError,
};

#[test]
fn missing_number_guard() {
    let text = "---\ntitle: No number here\nstate: open\n---\n\nbody";
    let err = build_update(text).unwrap_err();
    assert_eq!(err, UpdateError::MissingNumber);
    assert_eq!(err.message(), "could not determine issue number");
}

#[test]
fn unparsable_number_guard() {
    let text = "---\nnumber: forty-two\n---\n\n";
    let err = build_update(text).unwrap_err();
    assert_eq!(err, UpdateError::MissingNumber);
}

#[test]
fn no_frontmatter_means_no_number() {
    let err = build_update("plain text, no frontmatter").unwrap_err();
    assert_eq!(err, UpdateError::MissingNumber);
}

#[test]
fn update_carries_decoded_fields() {
    let text = "---\nnumber: 1\ntitle: A\nstate: closed\nlabels: []\n---\n\nBody A";
    let u = build_update(text).unwrap();
    assert_eq!(u.number, 1);
    assert_eq!(u.title.unwrap(), "A");
    assert_eq!(u.state, Some(StateChange::Closed));
    assert!(u.labels.is_empty());
    assert_eq!(u.body, "Body A");
}

#[test]
fn empty_labels_field_sends_no_label_change() {
    let text = "---\nnumber: 5\nlabels: []\n---\n\n";
    let u = build_update(text).unwrap();
    assert!(u.labels.is_empty());
    let text2 = "---\nnumber: 5\nlabels:\n---\n\n";
    let u2 = build_update(text2).unwrap();
    assert!(u2.labels.is_empty());
}

#[test]
fn absent_labels_field_sends_no_label_change() {
    let text = "---\nnumber: 5\ntitle: t\n---\n\n";
    let u = build_update(text).unwrap();
    assert!(u.labels.is_empty());
}

#[test]
fn bracketed_labels_sent_exactly() {
    let text = "---\nnumber: 5\nlabels: [bug, urgent]\n---\n\n";
    let u = build_update(text).unwrap();
    assert_eq!(u.labels, vec!["bug".to_string(), "urgent".to_string()]);
}

#[test]
fn absent_title_left_unspecified() {
    let text = "---\nnumber: 5\n---\n\n";
    let u = build_update(text).unwrap();
    assert!(u.title.is_none());
    assert!(u.state.is_none());
}

#[test]
fn body_always_sent_even_empty() {
    let text = "---\nnumber: 5\n---\n\n";
    let u = build_update(text).unwrap();
    assert_eq!(u.body, "");
}

#[test]
fn state_mapping_is_case_insensitive() {
    assert_eq!(state_change_of("closed"), Some(StateChange::Closed));
    assert_eq!(state_change_of("CLOSED"), Some(StateChange::Closed));
    assert_eq!(state_change_of("Open"), Some(StateChange::Open));
    assert_eq!(state_change_of("reopened"), None);
    assert_eq!(state_change_of(""), None);
}

#[test]
fn number_at_the_integer_limits() {
    let max = "---\nnumber: 9223372036854775807\n---\n\n";
    assert_eq!(build_update(max).unwrap().number, i64::MAX);
    let min = "---\nnumber: -9223372036854775808\n---\n\n";
    assert_eq!(build_update(min).unwrap().number, i64::MIN);
    let over = "---\nnumber: 9223372036854775808\n---\n\n";
    assert_eq!(build_update(over).unwrap_err(), UpdateError::MissingNumber);
}

#[test]
fn number_with_explicit_sign() {
    let text = "---\nnumber: +6\n---\n\n";
    assert_eq!(build_update(text).unwrap().number, 6);
}

#[test]
fn extension_filter_skips_non_markdown() {
    assert!(!should_sync_path("notes.txt", true));
    assert!(!should_sync_path("dir/notes.txt", true));
    assert!(!should_sync_path(".md", true));
    assert!(!should_sync_path("dir/.md", true));
    assert!(!should_sync_path("plain", true));
}

#[test]
fn extension_filter_skips_missing_file() {
    assert!(!should_sync_path("issue-1.md", false));
}

#[test]
fn extension_filter_accepts_markdown_files() {
    assert!(should_sync_path("issue-1.md", true));
    assert!(should_sync_path("some/dir/issue-22.md", true));
    assert!(should_sync_path("a.b.md", true));
}

use issue_sync::codec::{encode_issue, parse_labels, parse_markdown_file};
use issue_sync::issue::Issue;

fn sample_issue() -> Issue {
    Issue {
        number: 7,
        title: String::from("A title: with colon"),
        body: Some(String::from("Line one\n\nLine --- two")),
        state: String::from("open"),
        labels: vec![String::from("bug"), String::from("good first issue")],
    }
}

#[test]
fn encode_exact_bytes() {
    let issue = Issue {
        number: 1,
        title: String::from("A"),
        body: Some(String::from("Body A")),
        state: String::from("open"),
        labels: vec![],
    };
    let text = encode_issue(&issue);
    assert_eq!(
        text,
        "---\nnumber: 1\ntitle: A\nstate: open\nlabels: []\n---\n\nBody A"
    );
}

#[test]
fn encode_without_body() {
    let issue = Issue {
        number: 3,
        title: String::from("T"),
        body: None,
        state: String::from("closed"),
        labels: vec![String::from("x")],
    };
    let text = encode_issue(&issue);
    assert_eq!(text, "---\nnumber: 3\ntitle: T\nstate: closed\nlabels: [x]\n---\n\n");
}

#[test]
fn round_trip_recovers_fields_and_body() {
    let issue = sample_issue();
    let text = encode_issue(&issue);
    let (fm, body) = parse_markdown_file(&text);
    assert_eq!(fm.get("number").unwrap(), "7");
    assert_eq!(fm.get("title").unwrap(), "A title: with colon");
    assert_eq!(fm.get("state").unwrap(), "open");
    let labels = parse_labels(&fm.get("labels").unwrap());
    assert_eq!(labels, vec!["bug".to_string(), "good first issue".to_string()]);
    assert_eq!(body, "Line one\n\nLine --- two");
}

#[test]
fn round_trip_negative_number() {
    let issue = Issue {
        number: -12,
        title: String::from("n"),
        body: None,
        state: String::from("open"),
        labels: vec![],
    };
    let text = encode_issue(&issue);
    let (fm, body) = parse_markdown_file(&text);
    assert_eq!(fm.get("number").unwrap(), "-12");
    assert_eq!(body, "");
}

#[test]
fn decode_without_frontmatter_is_all_body() {
    let (fm, body) = parse_markdown_file("just some notes\nwith lines");
    assert!(fm.get("number").is_none());
    assert!(fm.entries.is_empty());
    assert_eq!(body, "just some notes\nwith lines");
}

#[test]
fn decode_without_closing_marker_is_all_body() {
    let text = "---\nnumber: 1\ntitle: half-edited";
    let (fm, body) = parse_markdown_file(text);
    assert!(fm.get("number").is_none());
    assert_eq!(body, text);
}

#[test]
fn decode_trims_keys_and_values() {
    let text = "---\n  title  :   spaced out \nnumber: 4\n---\n\nB";
    let (fm, body) = parse_markdown_file(text);
    assert_eq!(fm.get("title").unwrap(), "spaced out");
    assert_eq!(fm.get("number").unwrap(), "4");
    assert_eq!(body, "B");
}

#[test]
fn decode_skips_lines_without_colon() {
    let text = "---\nnumber: 2\nnot a field line\n---\n\nbody";
    let (fm, body) = parse_markdown_file(text);
    assert_eq!(fm.entries.len(), 1);
    assert_eq!(fm.get("number").unwrap(), "2");
    assert_eq!(body, "body");
}

#[test]
fn decode_repeated_key_latest_wins() {
    let text = "---\nstate: open\nstate: closed\n---\n\n";
    let (fm, _) = parse_markdown_file(text);
    assert_eq!(fm.get("state").unwrap(), "closed");
}

#[test]
fn parse_labels_bracketed_pair() {
    let labels = parse_labels("[bug, urgent]");
    assert_eq!(labels, vec!["bug".to_string(), "urgent".to_string()]);
}

#[test]
fn parse_labels_empty_forms() {
    assert!(parse_labels("").is_empty());
    assert!(parse_labels("[]").is_empty());
    assert!(parse_labels("  ").is_empty());
    assert!(parse_labels(",,").is_empty());
}

#[test]
fn parse_labels_trims_each_entry() {
    let labels = parse_labels(" bug ,  urgent ");
    assert_eq!(labels, vec!["bug".to_string(), "urgent".to_string()]);
}

#[test]
fn parse_labels_without_spacing() {
    let labels = parse_labels("[bug,urgent]");
    assert_eq!(labels, vec!["bug".to_string(), "urgent".to_string()]);
}

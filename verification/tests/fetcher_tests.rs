use issue_sync::fetcher::{file_name_for, labels_or_default, plan_fetch, render_issue};
use issue_sync::issue::Issue;

fn remote_issues() -> Vec<Issue> {
    vec![
        Issue {
            number: 1,
            title: String::from("A"),
            body: Some(String::from("Body A")),
            state: String::from("open"),
            labels: vec![],
        },
        Issue {
            number: 2,
            title: String::from("B"),
            body: Some(String::from("Body B")),
            state: String::from("closed"),
            labels: vec![String::from("bug"), String::from("urgent")],
        },
    ]
}

#[test]
fn file_names_follow_issue_numbers() {
    assert_eq!(file_name_for(1), "issue-1.md");
    assert_eq!(file_name_for(42), "issue-42.md");
    assert_eq!(file_name_for(0), "issue-0.md");
}

#[test]
fn fetch_pass_writes_both_issues_in_order() {
    let plan = plan_fetch(&remote_issues());
    assert_eq!(plan.len(), 2);
    assert_eq!(plan[0].name, "issue-1.md");
    assert_eq!(
        plan[0].content,
        "---\nnumber: 1\ntitle: A\nstate: open\nlabels: []\n---\n\nBody A"
    );
    assert_eq!(plan[1].name, "issue-2.md");
    assert_eq!(
        plan[1].content,
        "---\nnumber: 2\ntitle: B\nstate: closed\nlabels: [bug, urgent]\n---\n\nBody B"
    );
}

#[test]
fn fetch_twice_is_byte_identical() {
    let first = plan_fetch(&remote_issues());
    let second = plan_fetch(&remote_issues());
    assert_eq!(first.len(), second.len());
    for (a, b) in first.iter().zip(second.iter()) {
        assert_eq!(a.name, b.name);
        assert_eq!(a.content, b.content);
    }
}

#[test]
fn render_single_issue() {
    let issue = Issue {
        number: 9,
        title: String::from("T"),
        body: None,
        state: String::from("open"),
        labels: vec![],
    };
    let f = render_issue(&issue);
    assert_eq!(f.name, "issue-9.md");
    assert_eq!(f.content, "---\nnumber: 9\ntitle: T\nstate: open\nlabels: []\n---\n\n");
}

#[test]
fn label_extraction_falls_back_to_empty() {
    let got = labels_or_default(Some(vec![String::from("bug")]));
    assert_eq!(got, vec!["bug".to_string()]);
    let fallback = labels_or_default(None);
    assert!(fallback.is_empty());
}

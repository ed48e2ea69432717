//! The issue projection the synchronizer works on: number, title,
//! optional body, state text, and a list of label texts.

use vstd::prelude::*;

verus! {

/// Local projection of a remote issue. The tracker owns the authoritative
/// copy; this is what one markdown file holds.
#[derive(Debug, Clone)]
pub struct Issue {
    pub number: i64,
    pub title: String,
    pub body: Option<String>,
    pub state: String,
    pub labels: Vec<String>,
}

/// Mathematical model of an issue.
pub ghost struct IssueView {
    pub number: int,
    pub title: Seq<char>,
    pub body: Option<Seq<char>>,
    pub state: Seq<char>,
    pub labels: Seq<Seq<char>>,
}

/// The views of a sequence of strings.
pub open spec fn strings_view(s: Seq<String>) -> Seq<Seq<char>> {
    s.map_values(|x: String| x@)
}

impl View for Issue {
    type V = IssueView;

    open spec fn view(&self) -> IssueView {
        IssueView {
            number: self.number as int,
            title: self.title@,
            body: match self.body {
                Some(b) => Some(b@),
                None => None,
            },
            state: self.state@,
            labels: strings_view(self.labels@),
        }
    }
}

/// The body text an issue contributes to its file: the body if there is
/// one, empty otherwise.
pub open spec fn body_text(b: Option<Seq<char>>) -> Seq<char> {
    match b {
        Some(t) => t,
        None => Seq::empty(),
    }
}

} // verus!

//! The download path: plan, from the issues the tracker returned, the
//! files a pass writes — one `issue-<number>.md` per issue, in the order
//! received, each holding the codec's rendering of the issue.

use vstd::prelude::*;

use crate::codec::encode_spec;
use crate::issue::{strings_view, Issue, IssueView};
use crate::numbers::{i64_to_string, int_rep};

verus! {

/// One planned file write.
pub struct RenderedFile {
    pub name: String,
    pub content: String,
}

/// Mathematical model of a planned file write.
pub ghost struct RenderedFileView {
    pub name: Seq<char>,
    pub content: Seq<char>,
}

impl View for RenderedFile {
    type V = RenderedFileView;

    open spec fn view(&self) -> RenderedFileView {
        RenderedFileView { name: self.name@, content: self.content@ }
    }
}

/// The deterministic file name for an issue number.
pub open spec fn file_name_spec(n: int) -> Seq<char> {
    ("issue-")@ + int_rep(n) + (".md")@
}

/// What a pass writes for one issue.
pub open spec fn render_spec(iss: IssueView) -> RenderedFileView {
    RenderedFileView { name: file_name_spec(iss.number), content: encode_spec(iss) }
}

/// The views of a sequence of issues.
pub open spec fn issues_view(s: Seq<Issue>) -> Seq<IssueView> {
    s.map_values(|i: Issue| i@)
}

/// The views of a sequence of planned writes.
pub open spec fn files_view(s: Seq<RenderedFile>) -> Seq<RenderedFileView> {
    s.map_values(|f: RenderedFile| f@)
}

/// The whole pass: one file per issue, in the order received.
pub open spec fn plan_spec(issues: Seq<IssueView>) -> Seq<RenderedFileView> {
    issues.map_values(|i: IssueView| render_spec(i))
}

/// Build the file name `issue-<number>.md`.
pub fn file_name_for(number: i64) -> (r: String)
    ensures
        r@ == file_name_spec(number as int),
{
    let mut r = String::from_str("issue-");
    let num = i64_to_string(number);
    r.append(num.as_str());
    r.append(".md");
    proof {
        assert(r@ =~= file_name_spec(number as int));
    }
    r
}

/// Render one issue as the file write it becomes.
pub fn render_issue(issue: &Issue) -> (r: RenderedFile)
    ensures
        r@ == render_spec(issue@),
{
    let name = file_name_for(issue.number);
    let content = crate::codec::encode_issue(issue);
    RenderedFile { name, content }
}

/// Plan a whole pass: the files to write, in the order the issues were
/// received. Each write later overwrites any existing file wholesale.
pub fn plan_fetch(issues: &Vec<Issue>) -> (r: Vec<RenderedFile>)
    ensures
        files_view(r@) == plan_spec(issues_view(issues@)),
{
    let mut r: Vec<RenderedFile> = Vec::new();
    let mut i: usize = 0;
    proof {
        assert(files_view(r@) =~= plan_spec(issues_view(issues@.subrange(0, 0))));
    }
    while i < issues.len()
        invariant
            i <= issues@.len(),
            files_view(r@) == plan_spec(issues_view(issues@.subrange(0, i as int))),
        decreases issues@.len() - i,
    {
        let f = render_issue(&issues[i]);
        let ghost old_r = r@;
        r.push(f);
        proof {
            let prev = issues@.subrange(0, i as int);
            let cur = issues@.subrange(0, i + 1);
            assert(issues_view(cur) =~= issues_view(prev).push(issues@[i as int]@));
            assert(plan_spec(issues_view(cur)) =~= plan_spec(issues_view(prev)).push(
                render_spec(issues@[i as int]@),
            ));
            assert(files_view(r@) =~= files_view(old_r).push(
                render_spec(issues@[i as int]@),
            ));
        }
        i = i + 1;
    }
    proof {
        assert(issues@.subrange(0, issues@.len() as int) =~= issues@);
    }
    r
}

/// The label lists the download path stores: what the tracker's response
/// yielded, or — label extraction being best-effort — the empty list when
/// no list could be confidently extracted, rather than failing the sync.
pub fn labels_or_default(extracted: Option<Vec<String>>) -> (r: Vec<String>)
    ensures
        match extracted {
            Some(v) => r == v,
            None => strings_view(r@) == Seq::<Seq<char>>::empty(),
        },
{
    match extracted {
        Some(v) => v,
        None => {
            let r: Vec<String> = Vec::new();
            proof {
                assert(strings_view(r@) =~= Seq::<Seq<char>>::empty());
            }
            r
        },
    }
}

/// Two passes planned over the same remote issue set produce identical
/// names and byte-identical file contents: a pass is a function of the
/// issues alone.
pub proof fn lemma_fetch_idempotent(
    issues: Seq<IssueView>,
    r1: Seq<RenderedFileView>,
    r2: Seq<RenderedFileView>,
)
    requires
        r1 == plan_spec(issues),
        r2 == plan_spec(issues),
    ensures
        r1 == r2,
{
}

} // verus!

//! The upload path: decide from one file's text what update the tracker
//! should receive. Only files carrying the markdown extension are synced;
//! the frontmatter must name the issue number; title and state are sent
//! only when present; a label list that parses to empty sends no label
//! change, so a placeholder field cannot wipe remote labels; the body is
//! always sent as decoded.

use vstd::prelude::*;

use crate::codec::{
    decode_body, decode_fields, fm_lookup, label_piece, parse_labels, parse_labels_seq,
    parse_markdown_file,
};
use crate::issue::strings_view;
use crate::numbers::{parse_i64, parse_i64_spec};
use crate::text::{strip_br_seq, trim_seq};

verus! {

/// A state change the tracker understands.
#[derive(Debug, Clone, Copy, PartialEq, Eq, Structural)]
pub enum StateChange {
    Open,
    Closed,
}

/// The one failure deciding an update can hit before the network: the
/// frontmatter does not determine the issue number.
#[derive(Debug, Clone, Copy, PartialEq, Eq, Structural)]
pub enum UpdateError {
    MissingNumber,
}

impl UpdateError {
    /// Human-readable description of the failure.
    pub fn message(&self) -> (r: &'static str)
        ensures
            r@ == ("could not determine issue number")@,
    {
        "could not determine issue number"
    }
}

/// The update one invocation submits: exactly the fields the frontmatter
/// supplies, plus the body.
#[derive(Debug)]
pub struct IssueUpdate {
    pub number: i64,
    pub title: Option<String>,
    pub body: String,
    pub state: Option<StateChange>,
    pub labels: Vec<String>,
}

/// Mathematical model of an update.
pub ghost struct IssueUpdateView {
    pub number: int,
    pub title: Option<Seq<char>>,
    pub body: Seq<char>,
    pub state: Option<StateChange>,
    pub labels: Seq<Seq<char>>,
}

impl View for IssueUpdate {
    type V = IssueUpdateView;

    open spec fn view(&self) -> IssueUpdateView {
        IssueUpdateView {
            number: self.number as int,
            title: match self.title {
                Some(t) => Some(t@),
                None => None,
            },
            body: self.body@,
            state: self.state,
            labels: strings_view(self.labels@),
        }
    }
}

/// `c` spells the lowercase letter `l`, ignoring ASCII case.
pub open spec fn folds_to(c: char, l: char) -> bool {
    c == l || (97 <= l as int <= 122 && c as int == l as int - 32)
}

/// `t` spells `lower` (a lowercase word), ignoring ASCII case.
pub open spec fn eq_ignore_ascii_case(t: Seq<char>, lower: Seq<char>) -> bool {
    t.len() == lower.len() && forall|i: int| 0 <= i < t.len() ==> folds_to(t[i], #[trigger] lower[i])
}

/// The state a frontmatter `state` value selects: `closed` or `open` in
/// any ASCII case; anything else leaves the remote state untouched.
pub open spec fn state_of(t: Seq<char>) -> Option<StateChange> {
    if eq_ignore_ascii_case(t, ("closed")@) {
        Some(StateChange::Closed)
    } else if eq_ignore_ascii_case(t, ("open")@) {
        Some(StateChange::Open)
    } else {
        None
    }
}

/// The issue number a file's text determines, if any.
pub open spec fn update_number(text: Seq<char>) -> Option<i64> {
    match fm_lookup(decode_fields(text), ("number")@) {
        Some(v) => parse_i64_spec(v),
        None => None,
    }
}

/// The title an update built from this text carries.
pub open spec fn update_title(text: Seq<char>) -> Option<Seq<char>> {
    fm_lookup(decode_fields(text), ("title")@)
}

/// The state change an update built from this text carries.
pub open spec fn update_state(text: Seq<char>) -> Option<StateChange> {
    match fm_lookup(decode_fields(text), ("state")@) {
        Some(v) => state_of(v),
        None => None,
    }
}

/// The labels an update built from this text carries; empty means no
/// label change is sent.
pub open spec fn update_labels(text: Seq<char>) -> Seq<Seq<char>> {
    match fm_lookup(decode_fields(text), ("labels")@) {
        Some(v) => parse_labels_seq(v),
        None => Seq::empty(),
    }
}

fn str_eq_ignore_ascii_case(s: &str, lower: &str) -> (r: bool)
    ensures
        r == eq_ignore_ascii_case(s@, lower@),
{
    let n: usize = s.unicode_len();
    let m: usize = lower.unicode_len();
    if n != m {
        return false;
    }
    let mut i: usize = 0;
    while i < n
        invariant
            0 <= i <= n,
            n == s@.len(),
            n == lower@.len(),
            forall|j: int| 0 <= j < i ==> folds_to(s@[j], #[trigger] lower@[j]),
        decreases n - i,
    {
        let c: u32 = s.get_char(i) as u32;
        let l: u32 = lower.get_char(i) as u32;
        let ok = c == l || (97 <= l && l <= 122 && c == l - 32);
        if !ok {
            return false;
        }
        i = i + 1;
    }
    true
}

/// Map a frontmatter `state` value to the change it requests.
pub fn state_change_of(s: &str) -> (r: Option<StateChange>)
    ensures
        r == state_of(s@),
{
    if str_eq_ignore_ascii_case(s, "closed") {
        Some(StateChange::Closed)
    } else if str_eq_ignore_ascii_case(s, "open") {
        Some(StateChange::Open)
    } else {
        None
    }
}

/// Decide the update one file's text asks for. Fails exactly when the
/// frontmatter does not supply a parsable `number`.
pub fn build_update(content: &str) -> (r: Result<IssueUpdate, UpdateError>)
    ensures
        match r {
            Ok(u) => {
                &&& update_number(content@) == Some(u.number)
                &&& u@.title == update_title(content@)
                &&& u@.state == update_state(content@)
                &&& u@.labels == update_labels(content@)
                &&& u@.body == decode_body(content@)
            },
            Err(e) => update_number(content@) is None && e == UpdateError::MissingNumber,
        },
{
    let (fm, body) = parse_markdown_file(content);
    let number: i64 = match fm.get("number") {
        Some(v) => match parse_i64(v.as_str()) {
            Some(x) => x,
            None => {
                return Err(UpdateError::MissingNumber);
            },
        },
        None => {
            return Err(UpdateError::MissingNumber);
        },
    };
    let title = fm.get("title");
    let state = match fm.get("state") {
        Some(v) => state_change_of(v.as_str()),
        None => None,
    };
    let labels = match fm.get("labels") {
        Some(v) => parse_labels(v.as_str()),
        None => Vec::new(),
    };
    proof {
        assert(strings_view(Seq::<String>::empty()) =~= Seq::<Seq<char>>::empty());
    }
    Ok(IssueUpdate { number, title, body, state, labels })
}

/// A file freshly written by the download path, read back unedited,
/// asks the tracker for exactly the issue's own fields: the same number,
/// title and labels, the state resolved as the state text selects, and
/// the body as written.
pub proof fn lemma_upload_after_download(iss: crate::issue::IssueView)
    requires
        crate::codec::encodable(iss),
    ensures
        update_number(crate::codec::encode_spec(iss)) == Some(iss.number as i64),
        update_title(crate::codec::encode_spec(iss)) == Some(iss.title),
        update_state(crate::codec::encode_spec(iss)) == state_of(iss.state),
        update_labels(crate::codec::encode_spec(iss)) == iss.labels,
        decode_body(crate::codec::encode_spec(iss)) == crate::issue::body_text(iss.body),
{
    crate::codec::lemma_round_trip(iss);
}

/// Label preservation: a file whose frontmatter has no `labels` field
/// sends no label change, leaving the remote labels untouched.
pub proof fn lemma_labels_preserved_when_absent(text: Seq<char>)
    requires
        fm_lookup(decode_fields(text), ("labels")@) is None,
    ensures
        update_labels(text) == Seq::<Seq<char>>::empty(),
{
}

/// Label preservation: an empty or placeholder `labels` value — nothing,
/// or an empty bracket pair — parses to no labels, so no label change is
/// sent and the remote labels are not cleared.
pub proof fn lemma_labels_preserved_when_blank()
    ensures
        parse_labels_seq(("")@) == Seq::<Seq<char>>::empty(),
        parse_labels_seq(("[]")@) == Seq::<Seq<char>>::empty(),
{
    reveal_strlit("");
    reveal_strlit("[]");
    let e = ("")@;
    assert(e.len() == 0);
    assert(parse_labels_seq(e) == label_piece(e));
    assert(trim_seq(e).len() == 0);
    assert(strip_br_seq(trim_seq(e)).len() == 0);
    let b = ("[]")@;
    assert(b.len() == 2);
    assert(b[0] == '[' && b[1] == ']');
    crate::text::lemma_find_char_none(b, ',', 0);
    crate::text::lemma_trim_stable(b);
    assert(crate::text::first_non_br(b, 0) == crate::text::first_non_br(b, 1));
    assert(crate::text::first_non_br(b, 1) == crate::text::first_non_br(b, 2));
    assert(crate::text::first_non_br(b, 2) == 2);
    assert(crate::text::last_non_br_end(b, 2) == crate::text::last_non_br_end(b, 1));
    assert(crate::text::last_non_br_end(b, 1) == crate::text::last_non_br_end(b, 0));
    assert(crate::text::last_non_br_end(b, 0) == 0);
    assert(crate::text::strip_br_seq(b).len() == 0);
    assert(label_piece(b) =~= Seq::<Seq<char>>::empty());
    assert(parse_labels_seq(b) =~= Seq::<Seq<char>>::empty());
}

/// Start of the file-name component: one past the last `/`, or 0.
pub open spec fn file_name_start(p: Seq<char>, j: int) -> int
    decreases j,
{
    if j <= 0 || j > p.len() {
        0
    } else if p[j - 1] == '/' {
        j
    } else {
        file_name_start(p, j - 1)
    }
}

/// A path carries the markdown extension: its file name ends in `.md`
/// with a nonempty stem.
pub open spec fn is_md_path(p: Seq<char>) -> bool {
    let name = p.subrange(file_name_start(p, p.len() as int), p.len() as int);
    &&& name.len() >= 4
    &&& name[name.len() - 3] == '.'
    &&& name[name.len() - 2] == 'm'
    &&& name[name.len() - 1] == 'd'
}

/// Does a path carry the markdown extension?
pub fn is_md_file_path(path: &str) -> (r: bool)
    ensures
        r == is_md_path(path@),
{
    let n: usize = path.unicode_len();
    let mut j: usize = n;
    while j > 0 && path.get_char(j - 1) != '/'
        invariant
            0 <= j <= n,
            n == path@.len(),
            file_name_start(path@, n as int) == file_name_start(path@, j as int),
        decreases j,
    {
        j = j - 1;
    }
    proof {
        assert(file_name_start(path@, j as int) == j);
    }
    let len = n - j;
    if len < 4 {
        return false;
    }
    let r = path.get_char(n - 3) == '.' && path.get_char(n - 2) == 'm' && path.get_char(n - 1)
        == 'd';
    proof {
        let name = path@.subrange(j as int, n as int);
        assert(name.len() == n - j);
        assert(name[name.len() - 3] == path@[n - 3]);
        assert(name[name.len() - 2] == path@[n - 2]);
        assert(name[name.len() - 1] == path@[n - 1]);
    }
    r
}

/// Whether the upload path should touch this path at all: it must refer
/// to an existing file and carry the markdown extension; anything else is
/// ignored by design, not an error.
pub fn should_sync_path(path: &str, is_file: bool) -> (r: bool)
    ensures
        r == (is_file && is_md_path(path@)),
{
    is_file && is_md_file_path(path)
}

/// A path ending in `.txt` never carries the markdown extension, so the
/// upload path ignores it.
pub proof fn lemma_txt_path_filtered(p: Seq<char>)
    requires
        p.len() >= 4,
        p.subrange(p.len() - 4, p.len() as int) == (".txt")@,
    ensures
        !is_md_path(p),
{
    reveal_strlit(".txt");
    assert(p[p.len() - 1] == (".txt")@[3]);
    assert(p[p.len() - 1] == 't');
    let start = file_name_start(p, p.len() as int);
    lemma_file_name_start_bounds(p, p.len() as int);
    let name = p.subrange(start, p.len() as int);
    if name.len() >= 4 {
        assert(name[name.len() - 1] == p[p.len() - 1]);
    }
}

proof fn lemma_file_name_start_bounds(p: Seq<char>, j: int)
    requires
        0 <= j <= p.len(),
    ensures
        0 <= file_name_start(p, j) <= j,
    decreases j,
{
    if j > 0 && p[j - 1] != '/' {
        lemma_file_name_start_bounds(p, j - 1);
    }
}

} // verus!

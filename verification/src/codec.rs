//! The frontmatter codec: an issue's structured fields rendered as a
//! delimited key/value block above the body, and the decoding of such a
//! file back into an ordered field mapping and a body.
//!
//! Encoding writes `---`, one `key: value` line each for number, title,
//! state and labels (comma-joined in brackets), `---`, a blank line, then
//! the body verbatim. Decoding accepts any text: without a leading
//! delimiter, or without a closing one, the whole text is the body and
//! the mapping is empty.

use vstd::prelude::*;

use crate::issue::{body_text, strings_view, Issue, IssueView};
use crate::numbers::{
    int_rep, is_digit, lemma_int_rep_chars, lemma_parse_int_rep, parse_i64_spec,
};
use crate::text::{
    find_char, find_char_from, find_marker, find_marker_from, first_non_br, is_ws,
    last_non_br_end, lemma_find_char_bounds, lemma_find_char_none, lemma_find_char_some,
    lemma_find_marker_bounds, lemma_find_marker_some, lemma_no_marker_concat, lemma_strip_br_stable,
    lemma_trim_cons_ws, lemma_trim_stable, lemma_trim_stable_ends, marker_at, no_marker, str_eq,
    strip_br_seq, strip_brackets_str, trim_seq, trim_str,
};

verus! {

/// The labels joined for rendering: `a, b, c`.
pub open spec fn join_labels(ls: Seq<Seq<char>>) -> Seq<char>
    decreases ls.len(),
{
    if ls.len() == 0 {
        Seq::empty()
    } else if ls.len() == 1 {
        ls[0]
    } else {
        ls[0] + (", ")@ + join_labels(ls.drop_first())
    }
}

/// The exact text `encode_issue` produces for an issue.
pub open spec fn encode_spec(iss: IssueView) -> Seq<char> {
    ("---\nnumber: ")@ + int_rep(iss.number) + ("\ntitle: ")@ + iss.title + ("\nstate: ")@
        + iss.state + ("\nlabels: [")@ + join_labels(iss.labels) + ("]\n---\n\n")@ + body_text(
        iss.body,
    )
}

/// Entries a single frontmatter line contributes: the first `:` splits it
/// into a trimmed key and a trimmed value; a line without `:` is skipped.
pub open spec fn line_entries(line: Seq<char>) -> Seq<(Seq<char>, Seq<char>)> {
    match find_char_from(line, ':', 0) {
        Some(i) => seq![
            (trim_seq(line.subrange(0, i)), trim_seq(line.subrange(i + 1, line.len() as int))),
        ],
        None => Seq::empty(),
    }
}

/// Entries of the whole region between the markers, line by line.
pub open spec fn parse_fields(t: Seq<char>) -> Seq<(Seq<char>, Seq<char>)>
    decreases t.len(),
{
    if t.len() == 0 {
        Seq::empty()
    } else {
        let k = match find_char_from(t, '\n', 0) {
            Some(j) => j,
            None => t.len() as int,
        };
        if 0 <= k < t.len() {
            line_entries(t.subrange(0, k)) + parse_fields(t.subrange(k + 1, t.len() as int))
        } else {
            line_entries(t)
        }
    }
}

/// Index of the closing delimiter, when the text opens with one and a
/// second one follows.
pub open spec fn closing_marker(t: Seq<char>) -> Option<int> {
    if marker_at(t, 0) {
        find_marker_from(t, 3)
    } else {
        None
    }
}

/// The field mapping decoding recovers: empty unless both delimiters are
/// present.
pub open spec fn decode_fields(t: Seq<char>) -> Seq<(Seq<char>, Seq<char>)> {
    match closing_marker(t) {
        Some(m) => parse_fields(t.subrange(3, m)),
        None => Seq::empty(),
    }
}

/// The body decoding recovers: the trimmed text after the closing
/// delimiter, or the whole text when a delimiter is missing.
pub open spec fn decode_body(t: Seq<char>) -> Seq<char> {
    match closing_marker(t) {
        Some(m) => trim_seq(t.subrange(m + 3, t.len() as int)),
        None => t,
    }
}

/// Lookup in the ordered field mapping; a repeated key behaves as a map
/// built by insertion would: the latest entry wins.
pub open spec fn fm_lookup(fields: Seq<(Seq<char>, Seq<char>)>, key: Seq<char>) -> Option<
    Seq<char>,
>
    decreases fields.len(),
{
    if fields.len() == 0 {
        None
    } else if fields.last().0 == key {
        Some(fields.last().1)
    } else {
        fm_lookup(fields.drop_last(), key)
    }
}

/// What one comma-separated piece contributes to the label list: trimmed,
/// brackets stripped, dropped if then empty.
pub open spec fn label_piece(p: Seq<char>) -> Seq<Seq<char>> {
    let s = strip_br_seq(trim_seq(p));
    if s.len() > 0 {
        seq![s]
    } else {
        Seq::empty()
    }
}

/// Labels recovered from a frontmatter `labels` value: split on commas,
/// each piece trimmed and stripped of brackets, empty pieces dropped.
pub open spec fn parse_labels_seq(t: Seq<char>) -> Seq<Seq<char>>
    decreases t.len(),
{
    let k = match find_char_from(t, ',', 0) {
        Some(j) => j,
        None => t.len() as int,
    };
    if 0 <= k < t.len() {
        label_piece(t.subrange(0, k)) + parse_labels_seq(t.subrange(k + 1, t.len() as int))
    } else {
        label_piece(t)
    }
}

/// The decoded form of a file: its field mapping and its body.
pub struct Frontmatter {
    pub entries: Vec<(String, String)>,
}

/// The views of a sequence of string pairs.
pub open spec fn pairs_view(s: Seq<(String, String)>) -> Seq<(Seq<char>, Seq<char>)> {
    s.map_values(|p: (String, String)| (p.0@, p.1@))
}

impl View for Frontmatter {
    type V = Seq<(Seq<char>, Seq<char>)>;

    open spec fn view(&self) -> Seq<(Seq<char>, Seq<char>)> {
        pairs_view(self.entries@)
    }
}

impl Frontmatter {
    /// Value stored under `key`, the latest entry winning.
    pub fn get(&self, key: &str) -> (r: Option<String>)
        ensures
            match r {
                Some(v) => fm_lookup(self@, key@) == Some(v@),
                None => fm_lookup(self@, key@) is None,
            },
    {
        let mut i: usize = self.entries.len();
        proof {
            assert(self.entries@.subrange(0, self.entries@.len() as int) =~= self.entries@);
        }
        while i > 0
            invariant
                i <= self.entries@.len(),
                fm_lookup(self@, key@) == fm_lookup(
                    pairs_view(self.entries@.subrange(0, i as int)),
                    key@,
                ),
            decreases i,
        {
            i = i - 1;
            let p = &self.entries[i];
            let ghost pre = pairs_view(self.entries@.subrange(0, i + 1));
            proof {
                assert(pre.last() == (self.entries@[i as int].0@, self.entries@[i as int].1@));
                assert(pre.drop_last() =~= pairs_view(self.entries@.subrange(0, i as int)));
            }
            if str_eq(p.0.as_str(), key) {
                return Some(p.1.clone());
            }
        }
        proof {
            assert(pairs_view(self.entries@.subrange(0, 0)) =~= Seq::<(Seq<char>, Seq<char>)>::empty());
        }
        None
    }
}

/// Join the labels from index `from` on with `, `.
fn join_labels_from(labels: &Vec<String>, from: usize) -> (r: String)
    requires
        from <= labels@.len(),
    ensures
        r@ == join_labels(strings_view(labels@).subrange(from as int, labels@.len() as int)),
    decreases labels@.len() - from,
{
    let n = labels.len();
    let ghost tail = strings_view(labels@).subrange(from as int, labels@.len() as int);
    if from >= n {
        let r = String::new();
        proof {
            assert(tail.len() == 0);
        }
        r
    } else if from == n - 1 {
        let r = labels[from].clone();
        proof {
            assert(tail.len() == 1);
            assert(tail[0] == labels@[from as int]@);
        }
        r
    } else {
        let mut r = labels[from].clone();
        r.append(", ");
        let rest = join_labels_from(labels, from + 1);
        r.append(rest.as_str());
        proof {
            assert(tail.len() >= 2);
            assert(tail[0] == labels@[from as int]@);
            assert(tail.drop_first() =~= strings_view(labels@).subrange(
                from + 1,
                labels@.len() as int,
            ));
            assert(r@ =~= join_labels(tail));
        }
        r
    }
}

/// Render an issue as file text: the frontmatter block, a blank line, and
/// the body verbatim.
pub fn encode_issue(issue: &Issue) -> (r: String)
    ensures
        r@ == encode_spec(issue@),
{
    let mut r = String::from_str("---\nnumber: ");
    let num = crate::numbers::i64_to_string(issue.number);
    r.append(num.as_str());
    r.append("\ntitle: ");
    r.append(issue.title.as_str());
    r.append("\nstate: ");
    r.append(issue.state.as_str());
    r.append("\nlabels: [");
    let joined = join_labels_from(&issue.labels, 0);
    r.append(joined.as_str());
    r.append("]\n---\n\n");
    match &issue.body {
        Some(b) => r.append(b.as_str()),
        None => (),
    }
    proof {
        assert(strings_view(issue.labels@).subrange(0, issue.labels@.len() as int) =~= issue@.labels);
        assert(r@ =~= encode_spec(issue@));
    }
    r
}

/// Parse the region between the markers into its entries.
fn parse_region(region: &str) -> (entries: Vec<(String, String)>)
    ensures
        pairs_view(entries@) == parse_fields(region@),
{
    let rn: usize = region.unicode_len();
    let mut entries: Vec<(String, String)> = Vec::new();
    let mut i: usize = 0;
    proof {
        assert(region@.subrange(0, rn as int) =~= region@);
        assert(pairs_view(entries@) =~= Seq::<(Seq<char>, Seq<char>)>::empty());
    }
    while i < rn
        invariant
            i <= rn,
            rn == region@.len(),
            pairs_view(entries@) + parse_fields(region@.subrange(i as int, rn as int))
                == parse_fields(region@),
        decreases rn - i,
    {
        let ghost sub = region@.subrange(i as int, rn as int);
        proof {
            lemma_find_char_bounds(region@, '\n', i as int);
        }
        match find_char(region, '\n', i) {
            Some(k) => {
                proof {
                    assert forall|j: int| 0 <= j < k - i implies sub[j] != '\n' by {
                        assert(sub[j] == region@[i + j]);
                    }
                    assert(sub[k - i] == region@[k as int]);
                    lemma_find_char_some(sub, '\n', 0, k - i);
                }
                let line = region.substring_char(i, k);
                proof {
                    assert(line@ =~= sub.subrange(0, k - i));
                    lemma_find_char_bounds(line@, ':', 0);
                }
                let ghost before = pairs_view(entries@);
                match find_char(line, ':', 0) {
                    Some(c) => {
                        let ln = line.unicode_len();
                        let key = trim_str(line.substring_char(0, c));
                        let val = trim_str(line.substring_char(c + 1, ln));
                        entries.push((String::from_str(key), String::from_str(val)));
                        proof {
                            assert(pairs_view(entries@) =~= before + line_entries(line@));
                        }
                    },
                    None => {
                        proof {
                            assert(pairs_view(entries@) =~= before + line_entries(line@));
                        }
                    },
                }
                proof {
                    assert(sub.subrange(k - i + 1, sub.len() as int) =~= region@.subrange(
                        k + 1,
                        rn as int,
                    ));
                    assert(parse_fields(sub) == line_entries(line@) + parse_fields(
                        region@.subrange(k + 1, rn as int),
                    ));
                }
                i = k + 1;
            },
            None => {
                proof {
                    assert forall|j: int| 0 <= j < sub.len() implies sub[j] != '\n' by {
                        assert(sub[j] == region@[i + j]);
                    }
                    lemma_find_char_none(sub, '\n', 0);
                }
                let line = region.substring_char(i, rn);
                proof {
                    assert(line@ =~= sub);
                    lemma_find_char_bounds(line@, ':', 0);
                }
                let ghost before = pairs_view(entries@);
                match find_char(line, ':', 0) {
                    Some(c) => {
                        let ln = line.unicode_len();
                        let key = trim_str(line.substring_char(0, c));
                        let val = trim_str(line.substring_char(c + 1, ln));
                        entries.push((String::from_str(key), String::from_str(val)));
                        proof {
                            assert(pairs_view(entries@) =~= before + line_entries(line@));
                        }
                    },
                    None => {
                        proof {
                            assert(pairs_view(entries@) =~= before + line_entries(line@));
                        }
                    },
                }
                proof {
                    assert(parse_fields(sub) == line_entries(line@));
                }
                return entries;
            },
        }
    }
    proof {
        assert(parse_fields(region@.subrange(i as int, rn as int)) == Seq::<(
            Seq<char>,
            Seq<char>,
        )>::empty());
        assert(pairs_view(entries@) =~= parse_fields(region@));
    }
    entries
}

/// Decode file text into its field mapping and body. Text without a
/// leading delimiter, or without a closing one, is all body with an empty
/// mapping.
pub fn parse_markdown_file(content: &str) -> (r: (Frontmatter, String))
    ensures
        r.0@ == decode_fields(content@),
        r.1@ == decode_body(content@),
{
    let n: usize = content.unicode_len();
    let has_marker = n >= 3 && content.get_char(0) == '-' && content.get_char(1) == '-'
        && content.get_char(2) == '-';
    if !has_marker {
        proof {
            assert(!marker_at(content@, 0));
            assert(pairs_view(Seq::<(String, String)>::empty()) =~= Seq::<(
                Seq<char>,
                Seq<char>,
            )>::empty());
        }
        return (Frontmatter { entries: Vec::new() }, String::from_str(content));
    }
    proof {
        assert(marker_at(content@, 0));
        lemma_find_marker_bounds(content@, 3);
    }
    match find_marker(content, 3) {
        None => {
            proof {
                assert(pairs_view(Seq::<(String, String)>::empty()) =~= Seq::<(
                    Seq<char>,
                    Seq<char>,
                )>::empty());
            }
            (Frontmatter { entries: Vec::new() }, String::from_str(content))
        },
        Some(m) => {
            let region = content.substring_char(3, m);
            let entries = parse_region(region);
            let body_raw = content.substring_char(m + 3, n);
            let body = trim_str(body_raw);
            proof {
                assert(region@ == content@.subrange(3, m as int));
                assert(body_raw@ == content@.subrange(m + 3, n as int));
            }
            (Frontmatter { entries }, String::from_str(body))
        },
    }
}

/// Parse a frontmatter `labels` value into the label list.
pub fn parse_labels(s: &str) -> (r: Vec<String>)
    ensures
        strings_view(r@) == parse_labels_seq(s@),
{
    let n: usize = s.unicode_len();
    let mut r: Vec<String> = Vec::new();
    let mut i: usize = 0;
    proof {
        assert(s@.subrange(0, n as int) =~= s@);
        assert(strings_view(r@) =~= Seq::<Seq<char>>::empty());
        if n == 0 {
            assert(trim_seq(s@).len() == 0);
            assert(strip_br_seq(trim_seq(s@)).len() == 0);
            assert(parse_labels_seq(s@) == Seq::<Seq<char>>::empty());
        }
    }
    if n == 0 {
        return r;
    }
    while i < n
        invariant
            i <= n,
            n == s@.len(),
            strings_view(r@) + parse_labels_seq(s@.subrange(i as int, n as int))
                == parse_labels_seq(s@),
        decreases n - i,
    {
        let ghost sub = s@.subrange(i as int, n as int);
        proof {
            lemma_find_char_bounds(s@, ',', i as int);
        }
        match find_char(s, ',', i) {
            Some(k) => {
                proof {
                    assert forall|j: int| 0 <= j < k - i implies sub[j] != ',' by {
                        assert(sub[j] == s@[i + j]);
                    }
                    assert(sub[k - i] == s@[k as int]);
                    lemma_find_char_some(sub, ',', 0, k - i);
                }
                let piece = s.substring_char(i, k);
                let ghost before = strings_view(r@);
                let st = strip_brackets_str(trim_str(piece));
                if st.unicode_len() > 0 {
                    r.push(String::from_str(st));
                }
                proof {
                    assert(piece@ =~= sub.subrange(0, k - i));
                    assert(strings_view(r@) =~= before + label_piece(piece@));
                    assert(sub.subrange(k - i + 1, sub.len() as int) =~= s@.subrange(
                        k + 1,
                        n as int,
                    ));
                    assert(parse_labels_seq(sub) == label_piece(piece@) + parse_labels_seq(
                        s@.subrange(k + 1, n as int),
                    ));
                }
                i = k + 1;
            },
            None => {
                proof {
                    assert forall|j: int| 0 <= j < sub.len() implies sub[j] != ',' by {
                        assert(sub[j] == s@[i + j]);
                    }
                    lemma_find_char_none(sub, ',', 0);
                }
                let piece = s.substring_char(i, n);
                let ghost before = strings_view(r@);
                let st = strip_brackets_str(trim_str(piece));
                if st.unicode_len() > 0 {
                    r.push(String::from_str(st));
                }
                proof {
                    assert(piece@ =~= sub);
                    assert(strings_view(r@) =~= before + label_piece(piece@));
                    assert(parse_labels_seq(sub) == label_piece(piece@));
                }
                return r;
            },
        }
    }
    proof {
        assert(parse_labels_seq(s@.subrange(i as int, n as int)) == Seq::<Seq<char>>::empty());
        assert(strings_view(r@) =~= parse_labels_seq(s@));
    }
    r
}

/// A field value the codec carries through a round trip unchanged: no
/// embedded newline, no delimiter sequence, no whitespace at the ends.
pub open spec fn clean_field(t: Seq<char>) -> bool {
    &&& no_marker(t)
    &&& (forall|i: int| 0 <= i < t.len() ==> #[trigger] t[i] != '\n')
    &&& trim_seq(t) == t
}

/// A label the codec carries through a round trip unchanged: a nonempty
/// clean field without the joining comma or the delimiting brackets.
pub open spec fn clean_label(t: Seq<char>) -> bool {
    &&& clean_field(t)
    &&& t.len() > 0
    &&& (forall|i: int|
        0 <= i < t.len() ==> #[trigger] t[i] != ',' && t[i] != '[' && t[i] != ']')
}

/// An issue whose encoding decodes back to its exact fields. Values are
/// written unescaped, so the delimiter sequence and the line structure
/// must not occur inside them.
pub open spec fn encodable(iss: IssueView) -> bool {
    &&& i64::MIN <= iss.number <= i64::MAX
    &&& clean_field(iss.title)
    &&& clean_field(iss.state)
    &&& (forall|i: int| 0 <= i < iss.labels.len() ==> clean_label(#[trigger] iss.labels[i]))
    &&& trim_seq(body_text(iss.body)) == body_text(iss.body)
}

proof fn lemma_parse_fields_cons(line: Seq<char>, rest: Seq<char>)
    requires
        forall|i: int| 0 <= i < line.len() ==> #[trigger] line[i] != '\n',
    ensures
        parse_fields(line + seq!['\n'] + rest) == line_entries(line) + parse_fields(rest),
{
    let u = line + seq!['\n'] + rest;
    let l = line.len() as int;
    assert(u[l] == '\n');
    assert forall|j: int| 0 <= j < l implies u[j] != '\n' by {
        assert(u[j] == line[j]);
    }
    lemma_find_char_some(u, '\n', 0, l);
    assert(u.subrange(0, l) =~= line);
    assert(u.subrange(l + 1, u.len() as int) =~= rest);
}

proof fn lemma_line_entry(key: Seq<char>, value: Seq<char>)
    requires
        key.len() > 0,
        forall|i: int| 0 <= i < key.len() ==> #[trigger] key[i] != ':' && !is_ws(key[i]),
    ensures
        line_entries(key + seq![':', ' '] + value) == seq![
            (key, trim_seq(seq![' '] + value)),
        ],
{
    let line = key + seq![':', ' '] + value;
    let k = key.len() as int;
    assert(line[k] == ':');
    assert forall|j: int| 0 <= j < k implies line[j] != ':' by {
        assert(line[j] == key[j]);
    }
    lemma_find_char_some(line, ':', 0, k);
    assert(line.subrange(0, k) =~= key);
    lemma_trim_stable(key);
    assert(line.subrange(k + 1, line.len() as int) =~= seq![' '] + value);
}

proof fn lemma_join_labels_chars(ls: Seq<Seq<char>>)
    requires
        forall|i: int| 0 <= i < ls.len() ==> clean_label(#[trigger] ls[i]),
    ensures
        no_marker(join_labels(ls)),
        forall|i: int|
            0 <= i < join_labels(ls).len() ==> #[trigger] join_labels(ls)[i] != '\n',
    decreases ls.len(),
{
    reveal_strlit(", ");
    if ls.len() == 0 {
        assert(no_marker(join_labels(ls)));
    } else if ls.len() == 1 {
        assert(join_labels(ls) == ls[0]);
        assert(clean_label(ls[0]));
    } else {
        let a = ls[0];
        let rest = ls.drop_first();
        assert forall|i: int| 0 <= i < rest.len() implies clean_label(#[trigger] rest[i]) by {
            assert(rest[i] == ls[i + 1]);
        }
        lemma_join_labels_chars(rest);
        let jr = join_labels(rest);
        assert(clean_label(a));
        assert(no_marker((", ")@)) by {
            assert((", ")@.len() == 2);
        }
        assert((", ")@[0] == ',');
        lemma_no_marker_concat(a, (", ")@);
        assert((a + (", ")@).last() == ' ');
        lemma_no_marker_concat(a + (", ")@, jr);
        assert(join_labels(ls) == (a + (", ")@) + jr);
        assert forall|i: int| 0 <= i < join_labels(ls).len() implies #[trigger] join_labels(
            ls,
        )[i] != '\n' by {
            let u = (a + (", ")@) + jr;
            if i < a.len() {
                assert(u[i] == a[i]);
            } else if i < a.len() + 2 {
                assert(u[i] == (", ")@[i - a.len()]);
            } else {
                assert(u[i] == jr[i - a.len() - 2]);
            }
        }
    }
}

proof fn lemma_labels_parse_join(c: char, ls: Seq<Seq<char>>)
    requires
        ls.len() >= 1,
        forall|i: int| 0 <= i < ls.len() ==> clean_label(#[trigger] ls[i]),
        c == '[' || c == ' ',
    ensures
        parse_labels_seq(seq![c] + join_labels(ls) + seq![']']) == ls,
    decreases ls.len(),
{
    reveal_strlit(", ");
    let u = seq![c] + join_labels(ls) + seq![']'];
    let l0 = ls[0];
    assert(clean_label(l0));
    if ls.len() == 1 {
        assert(join_labels(ls) == l0);
        assert(u.len() == l0.len() + 2);
        assert forall|j: int| 0 <= j < u.len() implies u[j] != ',' by {
            if j == 0 {
            } else if j <= l0.len() {
                assert(u[j] == l0[j - 1]);
            } else {
                assert(u[j] == ']');
            }
        }
        lemma_find_char_none(u, ',', 0);
        lemma_label_piece_wrapped(c, l0, u);
        assert(parse_labels_seq(u) =~= ls);
    } else {
        let rest = ls.drop_first();
        assert forall|i: int| 0 <= i < rest.len() implies clean_label(#[trigger] rest[i]) by {
            assert(rest[i] == ls[i + 1]);
        }
        let k = 1 + l0.len() as int;
        assert(join_labels(ls) == l0 + (", ")@ + join_labels(rest));
        assert((", ")@ =~= seq![',', ' ']);
        assert(u =~= seq![c] + l0 + seq![',', ' '] + join_labels(rest) + seq![']']);
        assert(u[k] == ',');
        assert forall|j: int| 0 <= j < k implies u[j] != ',' by {
            if j > 0 {
                assert(u[j] == l0[j - 1]);
            }
        }
        lemma_find_char_some(u, ',', 0, k);
        let piece = u.subrange(0, k);
        assert(piece =~= seq![c] + l0);
        lemma_label_piece_open(c, l0, piece);
        let urest = u.subrange(k + 1, u.len() as int);
        assert(urest =~= seq![' '] + join_labels(rest) + seq![']']);
        lemma_labels_parse_join(' ', rest);
        assert(parse_labels_seq(u) =~= label_piece(piece) + parse_labels_seq(urest));
        assert(label_piece(piece) + parse_labels_seq(urest) =~= ls);
    }
}

// label_piece of `c` + label + `]`, for `c` a bracket or a space.
proof fn lemma_label_piece_wrapped(c: char, l0: Seq<char>, u: Seq<char>)
    requires
        clean_label(l0),
        c == '[' || c == ' ',
        u == seq![c] + l0 + seq![']'],
    ensures
        label_piece(u) == seq![l0],
{
    lemma_trim_stable_ends(l0);
    assert(u.len() == l0.len() + 2);
    assert(u[0] == c);
    assert(u[u.len() - 1] == ']');
    assert(u[1] == l0[0]);
    assert(u[u.len() - 2] == l0[l0.len() - 1]);
    if c == '[' {
        lemma_trim_stable(u);
        assert(first_non_br(u, 0) == first_non_br(u, 1));
        assert(first_non_br(u, 1) == 1);
        assert(last_non_br_end(u, u.len() as int) == last_non_br_end(u, u.len() - 1));
        assert(last_non_br_end(u, u.len() - 1) == u.len() - 1);
        assert(strip_br_seq(u) =~= l0);
    } else {
        let x = l0 + seq![']'];
        assert(u =~= seq![' '] + x);
        lemma_trim_cons_ws(' ', x);
        assert(x[0] == l0[0]);
        assert(x[x.len() - 1] == ']');
        lemma_trim_stable(x);
        assert(trim_seq(u) == x);
        assert(first_non_br(x, 0) == 0);
        assert(x[x.len() - 2] == l0[l0.len() - 1] || x.len() == 1);
        assert(last_non_br_end(x, x.len() as int) == last_non_br_end(x, x.len() - 1));
        assert(last_non_br_end(x, x.len() - 1) == x.len() - 1);
        assert(strip_br_seq(x) =~= l0);
    }
    assert(label_piece(u) =~= seq![l0]);
}

// label_piece of `c` + label, for `c` a bracket or a space.
proof fn lemma_label_piece_open(c: char, l0: Seq<char>, piece: Seq<char>)
    requires
        clean_label(l0),
        c == '[' || c == ' ',
        piece == seq![c] + l0,
    ensures
        label_piece(piece) == seq![l0],
{
    lemma_trim_stable_ends(l0);
    assert(piece.len() == l0.len() + 1);
    assert(piece[0] == c);
    assert(piece[1] == l0[0]);
    assert(piece[piece.len() - 1] == l0[l0.len() - 1]);
    if c == '[' {
        lemma_trim_stable(piece);
        assert(first_non_br(piece, 0) == first_non_br(piece, 1));
        assert(first_non_br(piece, 1) == 1);
        assert(last_non_br_end(piece, piece.len() as int) == piece.len());
        assert(strip_br_seq(piece) =~= l0);
    } else {
        lemma_trim_cons_ws(' ', l0);
        assert(piece =~= seq![' '] + l0);
        assert(trim_seq(piece) == l0);
        lemma_strip_br_stable(l0);
    }
    assert(label_piece(piece) =~= seq![l0]);
}

/// Round trip: decoding an encoded issue recovers every frontmatter
/// field and the body exactly — the number, title and state as written,
/// and the labels through the label parser.
#[verifier::rlimit(100)]
pub proof fn lemma_round_trip(iss: IssueView)
    requires
        encodable(iss),
    ensures
        fm_lookup(decode_fields(encode_spec(iss)), ("number")@) == Some(int_rep(iss.number)),
        parse_i64_spec(int_rep(iss.number)) == Some(iss.number as i64),
        fm_lookup(decode_fields(encode_spec(iss)), ("title")@) == Some(iss.title),
        fm_lookup(decode_fields(encode_spec(iss)), ("state")@) == Some(iss.state),
        fm_lookup(decode_fields(encode_spec(iss)), ("labels")@) == Some(
            seq!['['] + join_labels(iss.labels) + seq![']'],
        ),
        parse_labels_seq(seq!['['] + join_labels(iss.labels) + seq![']']) == iss.labels,
        decode_body(encode_spec(iss)) == body_text(iss.body),
{
    reveal_strlit("---\nnumber: ");
    reveal_strlit("\ntitle: ");
    reveal_strlit("\nstate: ");
    reveal_strlit("\nlabels: [");
    reveal_strlit("]\n---\n\n");
    reveal_strlit(", ");
    reveal_strlit("number");
    reveal_strlit("title");
    reveal_strlit("state");
    reveal_strlit("labels");
    let t = encode_spec(iss);
    let num = int_rep(iss.number);
    let joined = join_labels(iss.labels);
    let body = body_text(iss.body);
    let lv = seq!['['] + joined + seq![']'];
    let nl = seq!['\n'];
    let cs = seq![':', ' '];
    let kn = ("number")@;
    let kt = ("title")@;
    let ks = ("state")@;
    let kl = ("labels")@;
    let line1 = kn + cs + num;
    let line2 = kt + cs + iss.title;
    let line3 = ks + cs + iss.state;
    let line4 = kl + cs + lv;
    let region = nl + line1 + nl + line2 + nl + line3 + nl + line4 + nl;
    let marker = seq!['-', '-', '-'];

    // Character facts for the rendered number.
    lemma_int_rep_chars(iss.number);
    assert forall|i: int| 0 <= i < num.len() implies num[i] != '\n' && !is_ws(num[i]) && num[i]
        != ':' && num[i] != ',' by {
        if i >= 1 {
            assert(is_digit(num[i]));
        }
    }
    assert(no_marker(num)) by {
        assert forall|i: int| !marker_at(num, i) by {
            if 0 <= i && i + 3 <= num.len() {
                assert(is_digit(num[i + 1]));
            }
        }
    }
    lemma_join_labels_chars(iss.labels);

    // The encoding regrouped as marker, region, marker, blank line, body.
    assert(("---\nnumber: ")@ =~= marker + nl + kn + cs);
    assert(("\ntitle: ")@ =~= nl + kt + cs);
    assert(("\nstate: ")@ =~= nl + ks + cs);
    assert(("\nlabels: [")@ =~= nl + kl + cs + seq!['[']);
    assert(("]\n---\n\n")@ =~= seq![']'] + nl + marker + seq!['\n', '\n']);
    assert(t =~= marker + region + marker + seq!['\n', '\n'] + body);

    // The region holds no delimiter, so the first delimiter at or after
    // index 3 is the closing one.
    let k = 3 + region.len() as int;
    assert(no_marker(kn)) by {
        assert(kn.len() == 6);
    }
    assert(no_marker(kt)) by {
        assert(kt.len() == 5);
    }
    assert(no_marker(ks)) by {
        assert(ks.len() == 5);
    }
    assert(no_marker(kl)) by {
        assert(kl.len() == 6);
    }
    assert(no_marker(cs));
    assert(no_marker(nl));
    lemma_no_marker_concat(kn, cs);
    lemma_no_marker_concat(kn + cs, num);
    lemma_no_marker_concat(kt, cs);
    lemma_no_marker_concat(kt + cs, iss.title);
    lemma_no_marker_concat(ks, cs);
    lemma_no_marker_concat(ks + cs, iss.state);
    lemma_no_marker_concat(kl, cs);
    assert(no_marker(seq!['[']));
    lemma_no_marker_concat(kl + cs, seq!['[']);
    lemma_no_marker_concat(kl + cs + seq!['['], joined);
    assert(no_marker(seq![']']));
    lemma_no_marker_concat((kl + cs + seq!['[']) + joined, seq![']']);
    assert(no_marker(line4)) by {
        assert(line4 =~= ((kl + cs + seq!['[']) + joined) + seq![']']);
    }
    lemma_no_marker_concat(nl, line1);
    lemma_no_marker_concat(nl + line1, nl);
    lemma_no_marker_concat(nl + line1 + nl, line2);
    lemma_no_marker_concat(nl + line1 + nl + line2, nl);
    lemma_no_marker_concat(nl + line1 + nl + line2 + nl, line3);
    lemma_no_marker_concat(nl + line1 + nl + line2 + nl + line3, nl);
    lemma_no_marker_concat(nl + line1 + nl + line2 + nl + line3 + nl, line4);
    lemma_no_marker_concat(nl + line1 + nl + line2 + nl + line3 + nl + line4, nl);
    assert(no_marker(region));

    assert(marker_at(t, 0)) by {
        assert(t[0] == '-');
        assert(t[1] == '-');
        assert(t[2] == '-');
    }
    assert(marker_at(t, k)) by {
        assert(t[k] == '-');
        assert(t[k + 1] == '-');
        assert(t[k + 2] == '-');
    }
    assert(region[region.len() - 1] == '\n');
    assert forall|j: int| 3 <= j < k implies !marker_at(t, j) by {
        if j + 3 <= k {
            assert(t[j] == region[j - 3]);
            assert(t[j + 1] == region[j - 2]);
            assert(t[j + 2] == region[j - 1]);
            assert(!marker_at(region, j - 3));
        } else {
            assert(t[k - 1] == region[region.len() - 1]);
            assert(t[k - 1] == '\n');
        }
    }
    lemma_find_marker_some(t, 3, k);
    assert(closing_marker(t) == Some(k));
    assert(t.subrange(3, k) =~= region);

    // Parse the region line by line.
    let rest1 = line1 + nl + line2 + nl + line3 + nl + line4 + nl;
    let rest2 = line2 + nl + line3 + nl + line4 + nl;
    let rest3 = line3 + nl + line4 + nl;
    let rest4 = line4 + nl;
    assert(region =~= Seq::<char>::empty() + seq!['\n'] + rest1);
    lemma_parse_fields_cons(Seq::empty(), rest1);
    assert(line_entries(Seq::<char>::empty()) =~= Seq::<(Seq<char>, Seq<char>)>::empty());
    assert forall|i: int| 0 <= i < line1.len() implies #[trigger] line1[i] != '\n' by {
        if i < kn.len() {
            assert(line1[i] == kn[i]);
        } else if i < kn.len() + 2 {
            assert(line1[i] == cs[i - kn.len()]);
        } else {
            assert(line1[i] == num[i - kn.len() - 2]);
        }
    }
    assert forall|i: int| 0 <= i < line2.len() implies #[trigger] line2[i] != '\n' by {
        if i < kt.len() {
            assert(line2[i] == kt[i]);
        } else if i < kt.len() + 2 {
            assert(line2[i] == cs[i - kt.len()]);
        } else {
            assert(line2[i] == iss.title[i - kt.len() - 2]);
        }
    }
    assert forall|i: int| 0 <= i < line3.len() implies #[trigger] line3[i] != '\n' by {
        if i < ks.len() {
            assert(line3[i] == ks[i]);
        } else if i < ks.len() + 2 {
            assert(line3[i] == cs[i - ks.len()]);
        } else {
            assert(line3[i] == iss.state[i - ks.len() - 2]);
        }
    }
    assert forall|i: int| 0 <= i < line4.len() implies #[trigger] line4[i] != '\n' by {
        if i < kl.len() {
            assert(line4[i] == kl[i]);
        } else if i < kl.len() + 2 {
            assert(line4[i] == cs[i - kl.len()]);
        } else if i == kl.len() + 2 {
            assert(line4[i] == '[');
        } else if i < kl.len() + 3 + joined.len() {
            assert(line4[i] == joined[i - kl.len() - 3]);
        } else {
            assert(line4[i] == ']');
        }
    }
    assert(rest1 =~= line1 + seq!['\n'] + rest2);
    lemma_parse_fields_cons(line1, rest2);
    assert(rest2 =~= line2 + seq!['\n'] + rest3);
    lemma_parse_fields_cons(line2, rest3);
    assert(rest3 =~= line3 + seq!['\n'] + rest4);
    lemma_parse_fields_cons(line3, rest4);
    assert(rest4 =~= line4 + seq!['\n'] + Seq::<char>::empty());
    lemma_parse_fields_cons(line4, Seq::empty());
    assert(parse_fields(Seq::<char>::empty()) == Seq::<(Seq<char>, Seq<char>)>::empty());

    // The entries each line contributes.
    lemma_line_entry(kn, num);
    lemma_line_entry(kt, iss.title);
    lemma_line_entry(ks, iss.state);
    lemma_line_entry(kl, lv);
    lemma_trim_cons_ws(' ', num);
    lemma_trim_stable(num);
    lemma_trim_cons_ws(' ', iss.title);
    lemma_trim_cons_ws(' ', iss.state);
    lemma_trim_cons_ws(' ', lv);
    assert(lv[0] == '[');
    assert(lv[lv.len() - 1] == ']');
    lemma_trim_stable(lv);
    let e1 = (kn, num);
    let e2 = (kt, iss.title);
    let e3 = (ks, iss.state);
    let e4 = (kl, lv);
    let fs = decode_fields(t);
    assert(fs =~= seq![e1, e2, e3, e4]);

    // Lookups: the four keys are pairwise distinct.
    assert(kn != kt);
    assert(kn != ks);
    assert(kn != kl) by {
        assert(kn[0] == 'n');
        assert(kl[0] == 'l');
    }
    assert(kt != ks) by {
        assert(kt[0] == 't');
        assert(ks[0] == 's');
    }
    assert(kt != kl);
    assert(ks != kl);
    let f3 = seq![e1, e2, e3];
    let f2 = seq![e1, e2];
    let f1 = seq![e1];
    assert(fs.drop_last() =~= f3);
    assert(f3.drop_last() =~= f2);
    assert(f2.drop_last() =~= f1);
    assert(f1.drop_last() =~= Seq::<(Seq<char>, Seq<char>)>::empty());
    assert(fm_lookup(fs, kn) == fm_lookup(f3, kn));
    assert(fm_lookup(f3, kn) == fm_lookup(f2, kn));
    assert(fm_lookup(f2, kn) == fm_lookup(f1, kn));
    assert(fm_lookup(f1, kn) == Some(num));
    assert(fm_lookup(fs, kt) == fm_lookup(f3, kt));
    assert(fm_lookup(f3, kt) == fm_lookup(f2, kt));
    assert(fm_lookup(f2, kt) == Some(iss.title));
    assert(fm_lookup(fs, ks) == fm_lookup(f3, ks));
    assert(fm_lookup(f3, ks) == Some(iss.state));
    assert(fm_lookup(fs, kl) == Some(lv));

    // The number parses back.
    lemma_parse_int_rep(iss.number as i64);
    assert((iss.number as i64) as int == iss.number);

    // The labels parse back.
    if iss.labels.len() == 0 {
        assert(joined == Seq::<char>::empty());
        assert(lv =~= seq!['[', ']']);
        assert forall|j: int| 0 <= j < lv.len() implies lv[j] != ',' by {}
        lemma_find_char_none(lv, ',', 0);
        lemma_trim_stable(lv);
        assert(first_non_br(lv, 0) == first_non_br(lv, 1));
        assert(first_non_br(lv, 1) == first_non_br(lv, 2));
        assert(first_non_br(lv, 2) == 2);
        assert(last_non_br_end(lv, 2) == last_non_br_end(lv, 1));
        assert(last_non_br_end(lv, 1) == last_non_br_end(lv, 0));
        assert(last_non_br_end(lv, 0) == 0);
        assert(strip_br_seq(lv).len() == 0);
        assert(label_piece(lv) =~= Seq::<Seq<char>>::empty());
        assert(parse_labels_seq(lv) =~= iss.labels);
    } else {
        lemma_labels_parse_join('[', iss.labels);
    }

    // The body comes back trimmed of the blank-line separator alone.
    assert(t.subrange(k + 3, t.len() as int) =~= seq!['\n'] + (seq!['\n'] + body));
    lemma_trim_cons_ws('\n', seq!['\n'] + body);
    lemma_trim_cons_ws('\n', body);
    assert(decode_body(t) == body);
}

} // verus!

//! Character-level text utilities the codec is built on: whitespace
//! trimming, substring search for the frontmatter marker, and single
//! character search, each with an exact specification.

use vstd::prelude::*;

verus! {

/// Whitespace as the codec trims it: space, tab, carriage return, newline.
pub open spec fn is_ws(c: char) -> bool {
    c == ' ' || c == '\t' || c == '\r' || c == '\n'
}

/// Executable counterpart of `is_ws`.
pub fn is_ws_char(c: char) -> (r: bool)
    ensures
        r == is_ws(c),
{
    c == ' ' || c == '\t' || c == '\r' || c == '\n'
}

/// Index of the first non-whitespace character at or after `i`, or the
/// length of `t` if there is none.
pub open spec fn first_non_ws(t: Seq<char>, i: int) -> int
    decreases t.len() - i,
{
    if i < 0 || i >= t.len() {
        t.len() as int
    } else if !is_ws(t[i]) {
        i
    } else {
        first_non_ws(t, i + 1)
    }
}

/// One past the index of the last non-whitespace character strictly before
/// `j`, or 0 if there is none.
pub open spec fn last_non_ws_end(t: Seq<char>, j: int) -> int
    decreases j,
{
    if j <= 0 || j > t.len() {
        0
    } else if !is_ws(t[j - 1]) {
        j
    } else {
        last_non_ws_end(t, j - 1)
    }
}

/// `t` with leading and trailing whitespace removed.
pub open spec fn trim_seq(t: Seq<char>) -> Seq<char> {
    let a = first_non_ws(t, 0);
    let b = last_non_ws_end(t, t.len() as int);
    if a >= b {
        Seq::empty()
    } else {
        t.subrange(a, b)
    }
}

proof fn lemma_first_non_ws_bounds(t: Seq<char>, i: int)
    requires
        0 <= i <= t.len(),
    ensures
        i <= first_non_ws(t, i) <= t.len(),
        forall|k: int| i <= k < first_non_ws(t, i) ==> is_ws(t[k]),
        first_non_ws(t, i) < t.len() ==> !is_ws(t[first_non_ws(t, i)]),
    decreases t.len() - i,
{
    if i < t.len() && is_ws(t[i]) {
        lemma_first_non_ws_bounds(t, i + 1);
    }
}

proof fn lemma_last_non_ws_end_bounds(t: Seq<char>, j: int)
    requires
        0 <= j <= t.len(),
    ensures
        0 <= last_non_ws_end(t, j) <= j,
        forall|k: int| last_non_ws_end(t, j) <= k < j ==> is_ws(t[k]),
        last_non_ws_end(t, j) > 0 ==> !is_ws(t[last_non_ws_end(t, j) - 1]),
    decreases j,
{
    if j > 0 && is_ws(t[j - 1]) {
        lemma_last_non_ws_end_bounds(t, j - 1);
    }
}

/// Trim a string slice on both ends, exactly as `trim_seq` describes.
pub fn trim_str(s: &str) -> (r: &str)
    ensures
        r@ == trim_seq(s@),
{
    let n: usize = s.unicode_len();
    let mut a: usize = 0;
    while a < n && is_ws_char(s.get_char(a))
        invariant
            0 <= a <= n,
            n == s@.len(),
            first_non_ws(s@, 0) == first_non_ws(s@, a as int),
        decreases n - a,
    {
        a = a + 1;
    }
    let mut b: usize = n;
    while b > a && is_ws_char(s.get_char(b - 1))
        invariant
            a <= b <= n,
            n == s@.len(),
            first_non_ws(s@, 0) == first_non_ws(s@, a as int),
            a < n ==> a == first_non_ws(s@, 0),
            a == n ==> first_non_ws(s@, 0) == n,
            last_non_ws_end(s@, n as int) == last_non_ws_end(s@, b as int),
        decreases b,
    {
        b = b - 1;
    }
    proof {
        lemma_first_non_ws_bounds(s@, 0);
        lemma_last_non_ws_end_bounds(s@, s@.len() as int);
        lemma_last_non_ws_end_bounds(s@, b as int);
        if b > a {
            // b's scan stopped on a non-whitespace character, so b is the
            // trailing trim point; a is the leading one.
            assert(last_non_ws_end(s@, b as int) == b);
        } else if a < n {
            // a points at a non-whitespace character, yet everything from
            // the trailing trim point on is whitespace: impossible.
            assert(!is_ws(s@[a as int]));
            assert(last_non_ws_end(s@, s@.len() as int) <= a);
            assert(is_ws(s@[a as int]));
        }
    }
    let r = s.substring_char(a, b);
    proof {
        assert(r@ =~= trim_seq(s@));
    }
    r
}

/// The frontmatter delimiter `---` occurs in `t` at index `i`.
pub open spec fn marker_at(t: Seq<char>, i: int) -> bool {
    &&& 0 <= i
    &&& i + 3 <= t.len()
    &&& t[i] == '-'
    &&& t[i + 1] == '-'
    &&& t[i + 2] == '-'
}

/// Index of the first occurrence of the delimiter at or after `i`, if any.
pub open spec fn find_marker_from(t: Seq<char>, i: int) -> Option<int>
    decreases t.len() - i,
{
    if i < 0 || i + 3 > t.len() {
        None
    } else if marker_at(t, i) {
        Some(i)
    } else {
        find_marker_from(t, i + 1)
    }
}

pub proof fn lemma_find_marker_some(t: Seq<char>, i: int, k: int)
    requires
        0 <= i <= k,
        marker_at(t, k),
        forall|j: int| i <= j < k ==> !marker_at(t, j),
    ensures
        find_marker_from(t, i) == Some(k),
    decreases k - i,
{
    if i < k {
        lemma_find_marker_some(t, i + 1, k);
    }
}

pub proof fn lemma_find_marker_none(t: Seq<char>, i: int)
    requires
        0 <= i,
        forall|j: int| i <= j ==> !marker_at(t, j),
    ensures
        find_marker_from(t, i) is None,
    decreases t.len() - i,
{
    if i + 3 <= t.len() {
        lemma_find_marker_none(t, i + 1);
    }
}

/// Search for the first `---` at or after `from`.
pub fn find_marker(s: &str, from: usize) -> (r: Option<usize>)
    ensures
        match r {
            Some(k) => from <= k && find_marker_from(s@, from as int) == Some(k as int),
            None => find_marker_from(s@, from as int) is None,
        },
{
    let n: usize = s.unicode_len();
    if n < 3 || from > n - 3 {
        return None;
    }
    let mut i: usize = from;
    while i <= n - 3
        invariant
            from <= i,
            3 <= n,
            i <= n - 2,
            n == s@.len(),
            find_marker_from(s@, from as int) == find_marker_from(s@, i as int),
        decreases n - i,
    {
        if s.get_char(i) == '-' && s.get_char(i + 1) == '-' && s.get_char(i + 2) == '-' {
            return Some(i);
        }
        i = i + 1;
    }
    None
}

/// Index of the first occurrence of `c` in `t` at or after `i`, if any.
pub open spec fn find_char_from(t: Seq<char>, c: char, i: int) -> Option<int>
    decreases t.len() - i,
{
    if i < 0 || i >= t.len() {
        None
    } else if t[i] == c {
        Some(i)
    } else {
        find_char_from(t, c, i + 1)
    }
}

pub proof fn lemma_find_char_some(t: Seq<char>, c: char, i: int, k: int)
    requires
        0 <= i <= k < t.len(),
        t[k] == c,
        forall|j: int| i <= j < k ==> t[j] != c,
    ensures
        find_char_from(t, c, i) == Some(k),
    decreases k - i,
{
    if i < k {
        lemma_find_char_some(t, c, i + 1, k);
    }
}

pub proof fn lemma_find_char_none(t: Seq<char>, c: char, i: int)
    requires
        0 <= i,
        forall|j: int| i <= j < t.len() ==> t[j] != c,
    ensures
        find_char_from(t, c, i) is None,
    decreases t.len() - i,
{
    if i < t.len() {
        lemma_find_char_none(t, c, i + 1);
    }
}

/// Search for the first occurrence of `c` at or after `from`.
pub fn find_char(s: &str, c: char, from: usize) -> (r: Option<usize>)
    ensures
        match r {
            Some(k) => from <= k && find_char_from(s@, c, from as int) == Some(k as int),
            None => find_char_from(s@, c, from as int) is None,
        },
{
    let n: usize = s.unicode_len();
    let mut i: usize = from;
    while i < n
        invariant
            from <= i,
            n == s@.len(),
            find_char_from(s@, c, from as int) == find_char_from(s@, c, i as int),
        decreases n - i,
    {
        if s.get_char(i) == c {
            return Some(i);
        }
        i = i + 1;
    }
    None
}

/// Full characterization of `find_char_from`: what is found is the first
/// occurrence; nothing before it matches.
pub proof fn lemma_find_char_bounds(t: Seq<char>, c: char, i: int)
    requires
        0 <= i <= t.len(),
    ensures
        match find_char_from(t, c, i) {
            Some(k) => i <= k < t.len() && t[k] == c && (forall|j: int| i <= j < k ==> t[j] != c),
            None => forall|j: int| i <= j < t.len() ==> t[j] != c,
        },
    decreases t.len() - i,
{
    if i < t.len() && t[i] != c {
        lemma_find_char_bounds(t, c, i + 1);
    }
}

/// Full characterization of `find_marker_from`.
pub proof fn lemma_find_marker_bounds(t: Seq<char>, i: int)
    requires
        0 <= i,
    ensures
        match find_marker_from(t, i) {
            Some(k) => i <= k && marker_at(t, k) && (forall|j: int| i <= j < k ==> !marker_at(t, j)),
            None => forall|j: int| i <= j ==> !marker_at(t, j),
        },
    decreases t.len() - i,
{
    if i + 3 <= t.len() && !marker_at(t, i) {
        lemma_find_marker_bounds(t, i + 1);
    }
}

/// A sequence that neither starts nor ends in whitespace trims to itself.
pub proof fn lemma_trim_stable(t: Seq<char>)
    requires
        t.len() == 0 || (!is_ws(t[0]) && !is_ws(t[t.len() - 1])),
    ensures
        trim_seq(t) == t,
{
    if t.len() > 0 {
        assert(first_non_ws(t, 0) == 0);
        assert(last_non_ws_end(t, t.len() as int) == t.len());
        assert(t.subrange(0, t.len() as int) =~= t);
    } else {
        assert(trim_seq(t) =~= t);
    }
}

/// A nonempty sequence that trims to itself has non-whitespace ends.
pub proof fn lemma_trim_stable_ends(t: Seq<char>)
    requires
        trim_seq(t) == t,
        t.len() > 0,
    ensures
        !is_ws(t[0]),
        !is_ws(t[t.len() - 1]),
{
    lemma_first_non_ws_bounds(t, 0);
    lemma_last_non_ws_end_bounds(t, t.len() as int);
    let a = first_non_ws(t, 0);
    let b = last_non_ws_end(t, t.len() as int);
    if a >= b {
        assert(trim_seq(t).len() == 0);
    } else {
        assert(trim_seq(t).len() == b - a);
        assert(a == 0 && b == t.len());
        if is_ws(t[0]) {
            assert(first_non_ws(t, 0) == first_non_ws(t, 1));
            lemma_first_non_ws_bounds(t, 1);
        }
        if is_ws(t[t.len() - 1]) {
            assert(last_non_ws_end(t, t.len() as int) == last_non_ws_end(t, t.len() - 1));
            lemma_last_non_ws_end_bounds(t, t.len() - 1);
        }
    }
}

proof fn lemma_first_non_ws_shift(c: char, u: Seq<char>, i: int)
    requires
        0 <= i <= u.len(),
    ensures
        first_non_ws(seq![c] + u, i + 1) == 1 + first_non_ws(u, i),
    decreases u.len() - i,
{
    let v = seq![c] + u;
    if i < u.len() {
        assert(v[i + 1] == u[i]);
        if is_ws(u[i]) {
            lemma_first_non_ws_shift(c, u, i + 1);
        }
    }
}

proof fn lemma_lnwe_shift(c: char, u: Seq<char>, j: int)
    requires
        0 <= j <= u.len(),
    ensures
        last_non_ws_end(seq![c] + u, j + 1) == if last_non_ws_end(u, j) == 0 {
            if is_ws(c) {
                0int
            } else {
                1int
            }
        } else {
            1 + last_non_ws_end(u, j)
        },
    decreases j,
{
    let v = seq![c] + u;
    assert(v.len() == 1 + u.len());
    if j == 0 {
        assert(v[0] == c);
        if is_ws(c) {
            assert(last_non_ws_end(v, 1) == last_non_ws_end(v, 0));
            assert(last_non_ws_end(v, 0) == 0);
        } else {
            assert(last_non_ws_end(v, 1) == 1);
        }
    } else {
        assert(v[j] == u[j - 1]);
        if is_ws(u[j - 1]) {
            lemma_lnwe_shift(c, u, j - 1);
            assert(last_non_ws_end(v, j + 1) == last_non_ws_end(v, j));
            assert(last_non_ws_end(u, j) == last_non_ws_end(u, j - 1));
        } else {
            assert(last_non_ws_end(v, j + 1) == j + 1);
            assert(last_non_ws_end(u, j) == j);
        }
    }
}

/// A leading whitespace character does not change the trimmed value.
pub proof fn lemma_trim_cons_ws(c: char, u: Seq<char>)
    requires
        is_ws(c),
    ensures
        trim_seq(seq![c] + u) == trim_seq(u),
{
    let v = seq![c] + u;
    lemma_first_non_ws_bounds(u, 0);
    lemma_last_non_ws_end_bounds(u, u.len() as int);
    lemma_first_non_ws_shift(c, u, 0);
    lemma_lnwe_shift(c, u, u.len() as int);
    assert(v[0] == c);
    let au = first_non_ws(u, 0);
    let bu = last_non_ws_end(u, u.len() as int);
    assert(first_non_ws(v, 0) == 1 + au);
    if bu > 0 && au < bu {
        assert(v.subrange(1 + au, 1 + bu) =~= u.subrange(au, bu));
    } else {
        assert(trim_seq(v) =~= trim_seq(u));
    }
}

/// `c` is one of the bracket characters the label parser strips.
pub open spec fn is_br(c: char) -> bool {
    c == '[' || c == ']'
}

/// Executable counterpart of `is_br`.
pub fn is_br_char(c: char) -> (r: bool)
    ensures
        r == is_br(c),
{
    c == '[' || c == ']'
}

/// Index of the first non-bracket character at or after `i`, or the length.
pub open spec fn first_non_br(t: Seq<char>, i: int) -> int
    decreases t.len() - i,
{
    if i < 0 || i >= t.len() {
        t.len() as int
    } else if !is_br(t[i]) {
        i
    } else {
        first_non_br(t, i + 1)
    }
}

/// One past the last non-bracket character strictly before `j`, or 0.
pub open spec fn last_non_br_end(t: Seq<char>, j: int) -> int
    decreases j,
{
    if j <= 0 || j > t.len() {
        0
    } else if !is_br(t[j - 1]) {
        j
    } else {
        last_non_br_end(t, j - 1)
    }
}

/// `t` with leading and trailing bracket characters removed.
pub open spec fn strip_br_seq(t: Seq<char>) -> Seq<char> {
    let a = first_non_br(t, 0);
    let b = last_non_br_end(t, t.len() as int);
    if a >= b {
        Seq::empty()
    } else {
        t.subrange(a, b)
    }
}

proof fn lemma_first_non_br_bounds(t: Seq<char>, i: int)
    requires
        0 <= i <= t.len(),
    ensures
        i <= first_non_br(t, i) <= t.len(),
        forall|k: int| i <= k < first_non_br(t, i) ==> is_br(t[k]),
        first_non_br(t, i) < t.len() ==> !is_br(t[first_non_br(t, i)]),
    decreases t.len() - i,
{
    if i < t.len() && is_br(t[i]) {
        lemma_first_non_br_bounds(t, i + 1);
    }
}

proof fn lemma_last_non_br_end_bounds(t: Seq<char>, j: int)
    requires
        0 <= j <= t.len(),
    ensures
        0 <= last_non_br_end(t, j) <= j,
        forall|k: int| last_non_br_end(t, j) <= k < j ==> is_br(t[k]),
        last_non_br_end(t, j) > 0 ==> !is_br(t[last_non_br_end(t, j) - 1]),
    decreases j,
{
    if j > 0 && is_br(t[j - 1]) {
        lemma_last_non_br_end_bounds(t, j - 1);
    }
}

/// Strip leading and trailing brackets from a string slice.
pub fn strip_brackets_str(s: &str) -> (r: &str)
    ensures
        r@ == strip_br_seq(s@),
{
    let n: usize = s.unicode_len();
    let mut a: usize = 0;
    while a < n && is_br_char(s.get_char(a))
        invariant
            0 <= a <= n,
            n == s@.len(),
            first_non_br(s@, 0) == first_non_br(s@, a as int),
        decreases n - a,
    {
        a = a + 1;
    }
    let mut b: usize = n;
    while b > a && is_br_char(s.get_char(b - 1))
        invariant
            a <= b <= n,
            n == s@.len(),
            first_non_br(s@, 0) == first_non_br(s@, a as int),
            a < n ==> a == first_non_br(s@, 0),
            a == n ==> first_non_br(s@, 0) == n,
            last_non_br_end(s@, n as int) == last_non_br_end(s@, b as int),
        decreases b,
    {
        b = b - 1;
    }
    proof {
        lemma_first_non_br_bounds(s@, 0);
        lemma_last_non_br_end_bounds(s@, s@.len() as int);
        lemma_last_non_br_end_bounds(s@, b as int);
        if b > a {
            assert(last_non_br_end(s@, b as int) == b);
        } else if a < n {
            assert(!is_br(s@[a as int]));
            assert(last_non_br_end(s@, s@.len() as int) <= a);
            assert(is_br(s@[a as int]));
        }
    }
    let r = s.substring_char(a, b);
    proof {
        assert(r@ =~= strip_br_seq(s@));
    }
    r
}

/// A sequence that neither starts nor ends in a bracket strips to itself.
pub proof fn lemma_strip_br_stable(t: Seq<char>)
    requires
        t.len() == 0 || (!is_br(t[0]) && !is_br(t[t.len() - 1])),
    ensures
        strip_br_seq(t) == t,
{
    if t.len() > 0 {
        assert(first_non_br(t, 0) == 0);
        assert(last_non_br_end(t, t.len() as int) == t.len());
        assert(t.subrange(0, t.len() as int) =~= t);
    } else {
        assert(strip_br_seq(t) =~= t);
    }
}

/// No delimiter occurrence lies wholly inside `t`.
pub open spec fn no_marker(t: Seq<char>) -> bool {
    forall|i: int| !marker_at(t, i)
}

/// Joining two delimiter-free sequences stays delimiter-free, provided the
/// seam is guarded by a non-dash character on one of its sides.
pub proof fn lemma_no_marker_concat(a: Seq<char>, b: Seq<char>)
    requires
        no_marker(a),
        no_marker(b),
        (a.len() > 0 && a[a.len() - 1] != '-') || (b.len() > 0 && b[0] != '-') || a.len() == 0
            || b.len() == 0,
    ensures
        no_marker(a + b),
{
    let v = a + b;
    assert forall|i: int| !marker_at(v, i) by {
        if 0 <= i && i + 3 <= v.len() {
            if i + 3 <= a.len() {
                assert(!marker_at(a, i));
            } else if i >= a.len() {
                assert(v[i] == b[i - a.len()]);
                assert(v[i + 1] == b[i + 1 - a.len()]);
                assert(v[i + 2] == b[i + 2 - a.len()]);
                assert(!marker_at(b, i - a.len()));
            } else {
                // The window straddles the seam, so it contains both the
                // last character of a and the first of b.
                assert(a.len() > 0 && b.len() > 0);
                assert(i < a.len() < i + 3);
                assert(v[a.len() - 1] == a[a.len() - 1]);
                assert(v[a.len() as int] == b[0]);
            }
        }
    }
}

/// Character-by-character string equality, specified over the views.
pub fn str_eq(a: &str, b: &str) -> (r: bool)
    ensures
        r == (a@ == b@),
{
    let na: usize = a.unicode_len();
    let nb: usize = b.unicode_len();
    if na != nb {
        return false;
    }
    let mut i: usize = 0;
    while i < na
        invariant
            0 <= i <= na,
            na == a@.len(),
            na == b@.len(),
            forall|j: int| 0 <= j < i ==> a@[j] == b@[j],
        decreases na - i,
    {
        if a.get_char(i) != b.get_char(i) {
            return false;
        }
        i = i + 1;
    }
    proof {
        assert(a@ =~= b@);
    }
    true
}

} // verus!

//! Decimal rendering and parsing of the integers the frontmatter carries:
//! the issue number (signed) and the poll interval (unsigned).

use vstd::prelude::*;

verus! {

/// `c` is a decimal digit.
pub open spec fn is_digit(c: char) -> bool {
    48 <= c as int && c as int <= 57
}

/// Numeric value of a digit character.
pub open spec fn digit_val(c: char) -> int {
    c as int - 48
}

/// The digit character for `d` in 0..=9.
pub open spec fn digit_char(d: int) -> char {
    if d == 0 {
        '0'
    } else if d == 1 {
        '1'
    } else if d == 2 {
        '2'
    } else if d == 3 {
        '3'
    } else if d == 4 {
        '4'
    } else if d == 5 {
        '5'
    } else if d == 6 {
        '6'
    } else if d == 7 {
        '7'
    } else if d == 8 {
        '8'
    } else {
        '9'
    }
}

/// Decimal representation of a nonnegative integer, most significant
/// digit first, no sign and no leading zero (except for 0 itself).
pub open spec fn dec_rep(n: nat) -> Seq<char>
    decreases n,
{
    if n < 10 {
        seq![digit_char(n as int)]
    } else {
        dec_rep(n / 10) + seq![digit_char((n % 10) as int)]
    }
}

/// Decimal representation of a signed integer.
pub open spec fn int_rep(n: int) -> Seq<char> {
    if n < 0 {
        seq!['-'] + dec_rep((-n) as nat)
    } else {
        dec_rep(n as nat)
    }
}

/// Every character of `t` is a decimal digit.
pub open spec fn all_digits(t: Seq<char>) -> bool {
    forall|i: int| 0 <= i < t.len() ==> is_digit(#[trigger] t[i])
}

/// Value of a digit string, most significant digit first.
pub open spec fn digits_val(t: Seq<char>) -> int
    decreases t.len(),
{
    if t.len() == 0 {
        0
    } else {
        digits_val(t.drop_last()) * 10 + digit_val(t.last())
    }
}

/// What parsing an unsigned decimal integer accepts: an optional `+`,
/// then one or more digits, value within `u64` range.
pub open spec fn parse_u64_spec(t: Seq<char>) -> Option<u64> {
    let d = if t.len() >= 1 && t[0] == '+' {
        t.subrange(1, t.len() as int)
    } else {
        t
    };
    if d.len() >= 1 && all_digits(d) && digits_val(d) <= u64::MAX {
        Some(digits_val(d) as u64)
    } else {
        None
    }
}

/// What parsing a signed decimal integer accepts: an optional sign, then
/// one or more digits, value within `i64` range.
pub open spec fn parse_i64_spec(t: Seq<char>) -> Option<i64> {
    let neg = t.len() >= 1 && t[0] == '-';
    let d = if t.len() >= 1 && (t[0] == '-' || t[0] == '+') {
        t.subrange(1, t.len() as int)
    } else {
        t
    };
    if d.len() >= 1 && all_digits(d) {
        let v = if neg {
            -digits_val(d)
        } else {
            digits_val(d)
        };
        if i64::MIN <= v && v <= i64::MAX {
            Some(v as i64)
        } else {
            None
        }
    } else {
        None
    }
}

pub proof fn lemma_digits_val_nonneg(t: Seq<char>)
    requires
        all_digits(t),
    ensures
        digits_val(t) >= 0,
    decreases t.len(),
{
    if t.len() > 0 {
        assert(all_digits(t.drop_last()));
        lemma_digits_val_nonneg(t.drop_last());
    }
}

proof fn lemma_digits_val_step(t: Seq<char>, i: int)
    requires
        0 <= i < t.len(),
    ensures
        digits_val(t.subrange(0, i + 1)) == digits_val(t.subrange(0, i)) * 10 + digit_val(t[i]),
{
    assert(t.subrange(0, i + 1).drop_last() =~= t.subrange(0, i));
    assert(t.subrange(0, i + 1).last() == t[i]);
}

proof fn lemma_digits_val_prefix_le(t: Seq<char>, i: int)
    requires
        all_digits(t),
        0 <= i <= t.len(),
    ensures
        digits_val(t.subrange(0, i)) <= digits_val(t),
    decreases t.len() - i,
{
    if i == t.len() {
        assert(t.subrange(0, i) =~= t);
    } else {
        lemma_digits_val_step(t, i);
        assert(all_digits(t.subrange(0, i)));
        lemma_digits_val_nonneg(t.subrange(0, i));
        lemma_digits_val_prefix_le(t, i + 1);
    }
}

proof fn lemma_digit_char_val(d: int)
    requires
        0 <= d <= 9,
    ensures
        is_digit(digit_char(d)),
        digit_val(digit_char(d)) == d,
{
}

/// Digits of `dec_rep` and their value: the representation is all digits,
/// nonempty, and evaluates back to the number it was built from.
pub proof fn lemma_dec_rep_val(n: nat)
    ensures
        dec_rep(n).len() >= 1,
        all_digits(dec_rep(n)),
        digits_val(dec_rep(n)) == n,
    decreases n,
{
    if n < 10 {
        lemma_digit_char_val(n as int);
        assert(dec_rep(n) =~= seq![digit_char(n as int)]);
        assert(dec_rep(n).last() == digit_char(n as int));
        assert(dec_rep(n).drop_last() =~= Seq::<char>::empty());
        assert(digits_val(Seq::<char>::empty()) == 0);
        assert(digits_val(dec_rep(n)) == digit_val(digit_char(n as int)));
    } else {
        lemma_dec_rep_val(n / 10);
        lemma_digit_char_val((n % 10) as int);
        assert(dec_rep(n).drop_last() =~= dec_rep(n / 10));
        assert(dec_rep(n).last() == digit_char((n % 10) as int));
    }
}

/// The signed representation parses back to the number it was built from.
pub proof fn lemma_parse_int_rep(n: i64)
    ensures
        parse_i64_spec(int_rep(n as int)) == Some(n),
{
    if n < 0 {
        lemma_dec_rep_val((-(n as int)) as nat);
        let t = int_rep(n as int);
        assert(t[0] == '-');
        assert(t.subrange(1, t.len() as int) =~= dec_rep((-(n as int)) as nat));
    } else {
        lemma_dec_rep_val(n as nat);
        let t = int_rep(n as int);
        assert(is_digit(t[0]));
        assert(t[0] as int != '-' as int && t[0] as int != '+' as int);
        assert(t[0] != '-' && t[0] != '+');
    }
}

/// Shape of a rendered integer: at least one character, a digit
/// everywhere except that a leading `-` may stand first.
pub proof fn lemma_int_rep_chars(n: int)
    ensures
        int_rep(n).len() >= 1,
        forall|i: int| 1 <= i < int_rep(n).len() ==> is_digit(#[trigger] int_rep(n)[i]),
        is_digit(int_rep(n)[0]) || int_rep(n)[0] == '-',
{
    if n < 0 {
        lemma_dec_rep_val((-n) as nat);
        let t = int_rep(n);
        assert forall|i: int| 1 <= i < t.len() implies is_digit(#[trigger] t[i]) by {
            assert(t[i] == dec_rep((-n) as nat)[i - 1]);
        }
        assert(t[0] == '-');
    } else {
        lemma_dec_rep_val(n as nat);
        let t = int_rep(n);
        assert forall|i: int| 1 <= i < t.len() implies is_digit(#[trigger] t[i]) by {
            assert(t[i] == dec_rep(n as nat)[i]);
        }
        assert(t[0] == dec_rep(n as nat)[0]);
    }
}

fn digit_str(d: u64) -> (r: &'static str)
    requires
        d < 10,
    ensures
        r@ =~= seq![digit_char(d as int)],
{
    proof {
        reveal_strlit("0");
        reveal_strlit("1");
        reveal_strlit("2");
        reveal_strlit("3");
        reveal_strlit("4");
        reveal_strlit("5");
        reveal_strlit("6");
        reveal_strlit("7");
        reveal_strlit("8");
        reveal_strlit("9");
    }
    match d {
        0 => "0",
        1 => "1",
        2 => "2",
        3 => "3",
        4 => "4",
        5 => "5",
        6 => "6",
        7 => "7",
        8 => "8",
        _ => "9",
    }
}

/// Render an unsigned integer in decimal.
pub fn u64_to_string(n: u64) -> (r: String)
    ensures
        r@ == dec_rep(n as nat),
    decreases n,
{
    if n < 10 {
        let r = String::from_str(digit_str(n));
        proof {
            assert(r@ =~= dec_rep(n as nat));
        }
        r
    } else {
        let mut r = u64_to_string(n / 10);
        r.append(digit_str(n % 10));
        proof {
            assert(r@ =~= dec_rep(n as nat));
        }
        r
    }
}

/// Render a signed integer in decimal, with a leading `-` if negative.
pub fn i64_to_string(n: i64) -> (r: String)
    ensures
        r@ == int_rep(n as int),
{
    if n >= 0 {
        u64_to_string(n as u64)
    } else {
        let mag: u64 = ((-(n + 1)) as u64) + 1;
        proof {
            reveal_strlit("-");
        }
        let mut r = String::from_str("-");
        let digits = u64_to_string(mag);
        r.append(digits.as_str());
        proof {
            assert(mag as int == -(n as int));
            assert(r@ =~= int_rep(n as int));
        }
        r
    }
}

/// Accumulate the digit region of `s` starting at `start`, refusing a
/// value above `limit`. Shared core of the two parsers.
fn parse_digits(s: &str, start: usize, limit: u64) -> (r: Option<u64>)
    requires
        start <= s@.len(),
    ensures
        ({
            let d = s@.subrange(start as int, s@.len() as int);
            match r {
                Some(v) => d.len() >= 1 && all_digits(d) && digits_val(d) == v as int && v
                    <= limit,
                None => !(d.len() >= 1 && all_digits(d) && digits_val(d) <= limit as int),
            }
        }),
{
    let ghost d = s@.subrange(start as int, s@.len() as int);
    let n: usize = s.unicode_len();
    if start >= n {
        return None;
    }
    let mut acc: u64 = 0;
    let mut i: usize = start;
    while i < n
        invariant
            start <= i <= n,
            n == s@.len(),
            d == s@.subrange(start as int, s@.len() as int),
            acc <= limit,
            all_digits(d.subrange(0, i - start)),
            acc as int == digits_val(d.subrange(0, i - start)),
        decreases n - i,
    {
        let c = s.get_char(i);
        let u: u32 = c as u32;
        if u < 48 || u > 57 {
            proof {
                assert(d[i - start] == c);
                assert(!is_digit(c));
            }
            return None;
        }
        let dv: u64 = (u - 48) as u64;
        proof {
            assert(d[i - start] == c);
            assert(is_digit(c));
            assert(dv as int == digit_val(c));
            lemma_digits_val_step(d, i - start);
        }
        if acc > limit / 10 || (acc == limit / 10 && dv > limit % 10) {
            // The value read so far already exceeds the limit, and further
            // digits can only grow it.
            proof {
                assert(acc * 10 + dv > limit) by {
                    if acc > limit / 10 {
                        assert(acc >= limit / 10 + 1);
                        assert(acc * 10 >= (limit / 10 + 1) * 10);
                    }
                };
                assert(digits_val(d.subrange(0, i - start + 1)) > limit);
                if all_digits(d) {
                    lemma_digits_val_prefix_le(d, i - start + 1);
                }
            }
            return None;
        }
        let acc10: u64 = acc * 10;
        proof {
            assert(acc <= limit / 10);
            assert(acc * 10 <= (limit / 10) * 10);
        }
        acc = acc10 + dv;
        i = i + 1;
        proof {
            assert(d.subrange(0, i - start) == d.subrange(0, (i - 1) - start + 1));
        }
    }
    proof {
        assert(d.subrange(0, (i - start) as int) =~= d);
    }
    Some(acc)
}

/// Parse an unsigned decimal integer: optional `+`, then digits.
pub fn parse_u64(s: &str) -> (r: Option<u64>)
    ensures
        r == parse_u64_spec(s@),
{
    let n: usize = s.unicode_len();
    let start: usize = if n >= 1 && s.get_char(0) == '+' {
        1
    } else {
        0
    };
    let r = parse_digits(s, start, u64::MAX);
    proof {
        if start == 0 {
            assert(s@.subrange(0, s@.len() as int) =~= s@);
        }
    }
    r
}

/// Parse a signed decimal integer: optional sign, then digits.
pub fn parse_i64(s: &str) -> (r: Option<i64>)
    ensures
        r == parse_i64_spec(s@),
{
    let n: usize = s.unicode_len();
    let mut neg: bool = false;
    let mut start: usize = 0;
    if n >= 1 {
        let c0 = s.get_char(0);
        if c0 == '-' {
            neg = true;
            start = 1;
        } else if c0 == '+' {
            start = 1;
        }
    }
    let limit: u64 = if neg {
        9223372036854775808
    } else {
        9223372036854775807
    };
    proof {
        if start == 0 {
            assert(s@.subrange(0, s@.len() as int) =~= s@);
        }
    }
    match parse_digits(s, start, limit) {
        None => None,
        Some(mag) => {
            if neg {
                if mag == 9223372036854775808 {
                    Some(i64::MIN)
                } else {
                    Some(-(mag as i64))
                }
            } else {
                Some(mag as i64)
            }
        },
    }
}

} // verus!

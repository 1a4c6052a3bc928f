//! Text: the order of names, reading a score typed by a participant, and
//! building the address of a server endpoint.
use vstd::prelude::*;
use vstd::string::*;

verus! {

/// The order of Rust strings: lexicographic by Unicode code point, a proper
/// prefix coming first.
pub open spec fn text_lt(a: Seq<char>, b: Seq<char>) -> bool
    decreases a.len(),
{
    if b.len() == 0 {
        false
    } else if a.len() == 0 {
        true
    } else if a[0] != b[0] {
        a[0] < b[0]
    } else {
        text_lt(a.drop_first(), b.drop_first())
    }
}

/// No text comes before itself.
pub proof fn lemma_text_lt_irreflexive(a: Seq<char>)
    ensures
        !text_lt(a, a),
    decreases a.len(),
{
    if a.len() > 0 {
        lemma_text_lt_irreflexive(a.drop_first());
    }
}

/// The order of texts is transitive.
pub proof fn lemma_text_lt_transitive(a: Seq<char>, b: Seq<char>, c: Seq<char>)
    requires
        text_lt(a, b),
        text_lt(b, c),
    ensures
        text_lt(a, c),
    decreases a.len(),
{
    if a.len() > 0 && b.len() > 0 && c.len() > 0 {
        if a[0] == b[0] && b[0] == c[0] {
            lemma_text_lt_transitive(a.drop_first(), b.drop_first(), c.drop_first());
        }
    }
}

/// Of two different texts, one comes before the other.
pub proof fn lemma_text_lt_total(a: Seq<char>, b: Seq<char>)
    requires
        a != b,
    ensures
        text_lt(a, b) || text_lt(b, a),
    decreases a.len(),
{
    if a.len() > 0 && b.len() > 0 && a[0] == b[0] {
        if a.drop_first() == b.drop_first() {
            assert(a =~= seq![a[0]] + a.drop_first());
            assert(b =~= seq![b[0]] + b.drop_first());
        }
        lemma_text_lt_total(a.drop_first(), b.drop_first());
    } else if a.len() == 0 && b.len() == 0 {
        assert(a =~= b);
    }
}

/// Whether text `a` comes before text `b` in the order of Rust strings
/// (`str`'s `<`).
///
/// Trusted: std documents that strings are ordered lexicographically by
/// their bytes, which orders Unicode code points by their position; this
/// contract states that order over the characters.
#[verifier::external_body]
pub(crate) fn text_less(a: &str, b: &str) -> (less: bool)
    ensures
        less == text_lt(a@, b@),
{
    a < b
}

/// `c` is one of the ASCII digits `0` to `9`.
pub open spec fn is_digit(c: char) -> bool {
    '0' <= c && c <= '9'
}

/// The number that a run of decimal digits spells.
pub open spec fn digits_value(s: Seq<char>) -> int
    decreases s.len(),
{
    if s.len() == 0 {
        0
    } else {
        10 * digits_value(s.drop_last()) + (s.last() as int - '0' as int)
    }
}

/// What a text spells as an `i64`: an optional `+` or `-` followed by one or
/// more decimal digits, whose value fits in an `i64`; nothing otherwise
/// (whitespace included).
pub open spec fn parsed_i64(s: Seq<char>) -> Option<i64> {
    let signed = s.len() > 0 && (s[0] == '-' || s[0] == '+');
    let digits = if signed {
        s.drop_first()
    } else {
        s
    };
    let value = if s.len() > 0 && s[0] == '-' {
        -digits_value(digits)
    } else {
        digits_value(digits)
    };
    if digits.len() > 0 && (forall|i: int| 0 <= i < digits.len() ==> is_digit(#[trigger] digits[i]))
        && i64::MIN <= value <= i64::MAX {
        Some(value as i64)
    } else {
        None
    }
}

/// Reads a score that a participant typed (`str::parse::<i64>`).
///
/// Trusted: std documents that an integer is read from an optional `+` or
/// `-` sign followed by digits only, anything else or a value out of range
/// being an error; the contract states that grammar in `parsed_i64`.
#[verifier::external_body]
pub(crate) fn parse_score(text: &str) -> (value: Option<i64>)
    ensures
        value == parsed_i64(text@),
{
    text.parse::<i64>().ok()
}

/// The address of endpoint `relative_url` of the server at `base_url`.
pub fn full_url(base_url: &str, relative_url: &str) -> (url: String)
    ensures
        url@ == base_url@ + relative_url@,
{
    let mut url = String::from_str(base_url);
    url.append(relative_url);
    url
}

} // verus!

//! Character-level helpers: decoding a line's bytes and finding the first
//! whitespace-delimited token of a header.
use vstd::prelude::*;
use vstd::string::*;
use vstd::utf8::*;

verus! {

/// Characters with Unicode's White_Space property.
pub open spec fn unicode_white_space(c: char) -> bool {
    let u = c as u32;
    (0x09 <= u && u <= 0x0d) || u == 0x20 || u == 0x85 || u == 0xa0 || u == 0x1680 || (0x2000
        <= u && u <= 0x200a) || u == 0x2028 || u == 0x2029 || u == 0x202f || u == 0x205f || u
        == 0x3000
}

/// Index of the first character at or after `i` that is not white space
/// (the length when there is none).
pub open spec fn skip_white(t: Seq<char>, i: int) -> int
    decreases t.len() - i,
{
    if 0 <= i < t.len() && unicode_white_space(t[i]) {
        skip_white(t, i + 1)
    } else {
        i
    }
}

/// Index of the first white-space character at or after `i` (the length when
/// there is none).
pub open spec fn skip_word(t: Seq<char>, i: int) -> int
    decreases t.len() - i,
{
    if 0 <= i < t.len() && !unicode_white_space(t[i]) {
        skip_word(t, i + 1)
    } else {
        i
    }
}

/// The first maximal run of non-white-space characters, if any.
pub open spec fn first_token(t: Seq<char>) -> Option<Seq<char>> {
    let s = skip_white(t, 0);
    if s >= t.len() {
        None
    } else {
        Some(t.subrange(s, skip_word(t, s)))
    }
}

pub proof fn lemma_skip_word_bounds(t: Seq<char>, i: int)
    requires
        0 <= i <= t.len(),
    ensures
        i <= skip_word(t, i) <= t.len(),
    decreases t.len() - i,
{
    if i < t.len() && !unicode_white_space(t[i]) {
        lemma_skip_word_bounds(t, i + 1);
    }
}

/// Relies on `String::from_utf8`: it accepts exactly the well-formed UTF-8
/// byte strings, and then holds the characters they encode.
#[verifier::external_body]
pub(crate) fn decode_utf8_bytes(b: Vec<u8>) -> (r: Option<String>)
    ensures
        r is Some <==> valid_utf8(b@),
        r matches Some(s) ==> s@ == decode_utf8(b@),
{
    match String::from_utf8(b) {
        Ok(s) => Some(s),
        Err(_) => None,
    }
}

/// Relies on `char::is_whitespace`: true exactly for the characters with the
/// Unicode White_Space property.
#[verifier::external_body]
fn is_white_space(c: char) -> (r: bool)
    ensures
        r == unicode_white_space(c),
{
    c.is_whitespace()
}

/// The first whitespace-delimited token of `text`, or `None` when the text is
/// empty or all white space.
pub fn first_token_of(text: &str) -> (r: Option<String>)
    ensures
        r is None <==> first_token(text@) is None,
        r matches Some(w) ==> first_token(text@) == Some(w@),
        r matches Some(w) ==> w@.len() > 0,
{
    let n = text.unicode_len();
    let mut s: usize = 0;
    while s < n && is_white_space(text.get_char(s))
        invariant
            n == text@.len(),
            s <= n,
            skip_white(text@, s as int) == skip_white(text@, 0),
        decreases n - s,
    {
        s = s + 1;
    }
    if s >= n {
        return None;
    }
    let mut e: usize = s;
    while e < n && !is_white_space(text.get_char(e))
        invariant
            n == text@.len(),
            s < n,
            s <= e <= n,
            skip_word(text@, e as int) == skip_word(text@, s as int),
            e == s || !unicode_white_space(text@[s as int]),
        decreases n - e,
    {
        e = e + 1;
    }
    proof {
        lemma_skip_word_bounds(text@, s as int);
    }
    let w = String::from_str(text.substring_char(s, e));
    Some(w)
}

} // verus!

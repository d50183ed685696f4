//! Character classes, case folding, and conversions between strings and
//! character buffers.

use vstd::prelude::*;
use vstd::utf8::{encode_utf8, valid_utf8};

verus! {

/// Whether `c` is a whitespace character, as `char::is_whitespace` decides it.
pub uninterp spec fn whitespace(c: char) -> bool;

/// Whether `c` is a numeric character, as `char::is_numeric` decides it.
pub uninterp spec fn numeric(c: char) -> bool;

/// Whether `c` is an alphabetic character, as `char::is_alphabetic` decides it.
pub uninterp spec fn alphabetic(c: char) -> bool;

/// Whether `c` is alphabetic or numeric.
pub open spec fn alphanumeric(c: char) -> bool {
    alphabetic(c) || numeric(c)
}

/// `char::is_whitespace` looks `c` up in the tables of the Unicode property
/// `White_Space`; the answer depends on `c` alone and is named `whitespace(c)`.
pub assume_specification[ char::is_whitespace ](c: char) -> (b: bool)
    ensures
        b == whitespace(c),
;

/// `char::is_numeric` looks `c` up in the tables of the Unicode number
/// categories; the answer depends on `c` alone and is named `numeric(c)`.
pub assume_specification[ char::is_numeric ](c: char) -> (b: bool)
    ensures
        b == numeric(c),
;

/// `char::is_alphabetic` looks `c` up in the tables of the Unicode property
/// `Alphabetic`; the answer depends on `c` alone and is named `alphabetic(c)`.
pub assume_specification[ char::is_alphabetic ](c: char) -> (b: bool)
    ensures
        b == alphabetic(c),
;

/// `char::is_alphanumeric` is documented to hold exactly of the characters of
/// which `is_alphabetic` or `is_numeric` holds.
pub assume_specification[ char::is_alphanumeric ](c: char) -> (b: bool)
    ensures
        b == alphanumeric(c),
;

/// The `==` of `str` holds exactly of two strings with the same characters.
pub assume_specification[ <str as PartialEq>::eq ](a: &str, b: &str) -> (r: bool)
    ensures
        r == (a@ == b@),
;

/// The case fold of one character: the letters `a` to `z` become `A` to `Z`,
/// every other character stays as it is.
pub open spec fn fold(c: char) -> char {
    if 'a' <= c && c <= 'z' {
        ((c as u8) - 32) as u8 as char
    } else {
        c
    }
}

/// The case fold of a run of characters, character by character.
pub open spec fn normalize(s: Seq<char>) -> Seq<char> {
    Seq::new(s.len(), |i: int| fold(s[i]))
}

/// Folds the case of one character.
pub fn fold_char(c: char) -> (r: char)
    ensures
        r == fold(c),
{
    if 'a' <= c && c <= 'z' {
        let b: u8 = c as u8;
        (b - 32) as char
    } else {
        c
    }
}

/// `String::push` appends one character to a string.
pub assume_specification[ String::push ](s: &mut String, c: char)
    ensures
        final(s)@ == old(s)@.push(c),
;

/// The characters of `s`, in order.
pub fn chars_of(s: &str) -> (chars: Vec<char>)
    ensures
        chars@ == s@,
{
    broadcast use vstd::string::group_string_axioms;

    let mut chars: Vec<char> = Vec::new();
    for c in rest: s.chars()
        invariant
            rest.seq() == s@,
            chars@ == rest.seq().take(rest.index() as int),
    {
        chars.push(c);
        assert(chars@ =~= rest.seq().take(rest.index() + 1));
    }
    assert(chars@ =~= s@);
    chars
}

/// The string that holds the characters of `chars`, in order.
pub fn string_of(chars: &[char]) -> (s: String)
    ensures
        s@ == chars@,
{
    let mut s = String::new();
    let mut i: usize = 0;
    while i < chars.len()
        invariant
            i <= chars@.len(),
            s@ == chars@.take(i as int),
        decreases chars.len() - i,
    {
        s.push(chars[i]);
        assert(s@ =~= chars@.take(i + 1));
        i += 1;
    }
    assert(s@ =~= chars@);
    s
}

/// `core::str::from_utf8`, which accepts exactly the byte strings that are
/// valid UTF-8 and hands them back as the string that they encode.
#[verifier::external_body]
pub(crate) fn utf8_text(bytes: &[u8]) -> (text: Option<&str>)
    ensures
        text is Some <==> valid_utf8(bytes@),
        text matches Some(t) ==> encode_utf8(t@) == bytes@,
{
    core::str::from_utf8(bytes).ok()
}

/// The normalized term of a token: its characters, case folded.
pub fn term_of(token: &[char]) -> (term: String)
    ensures
        term@ == normalize(token@),
{
    let mut folded: Vec<char> = Vec::with_capacity(token.len());
    let mut i: usize = 0;
    while i < token.len()
        invariant
            i <= token.len(),
            folded@ == normalize(token@).take(i as int),
        decreases token.len() - i,
    {
        folded.push(fold_char(token[i]));
        assert(folded@ =~= normalize(token@).take(i + 1));
        i += 1;
    }
    assert(folded@ =~= normalize(token@));
    string_of(folded.as_slice())
}

} // verus!

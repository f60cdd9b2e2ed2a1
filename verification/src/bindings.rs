//! Calls into std and into outside crates whose behaviour is taken on trust.

use regex::Regex;
use std::path::Path;
use vstd::prelude::*;

verus! {

/// `String::push`: appends one character at the end of the string.
#[verifier::external_body]
pub(crate) fn push_char(s: &mut String, c: char)
    ensures
        final(s)@ == old(s)@.push(c),
{
    s.push(c);
}

/// Every character of `s` is ASCII.
pub open spec fn is_ascii_text(s: Seq<char>) -> bool {
    forall|i: int| 0 <= i < s.len() ==> (s[i] as int) < 128
}

/// The Unicode lowercase mapping of an ASCII character: `A`..`Z` become
/// `a`..`z`, every other ASCII character maps to itself.
pub open spec fn ascii_lower(c: char) -> char {
    if 'A' <= c && c <= 'Z' {
        ((c as int) + 32) as char
    } else {
        c
    }
}

/// What `str::to_lowercase` returns for a string.
pub uninterp spec fn lowercase_of(s: Seq<char>) -> Seq<char>;

/// The lowercase form of a text: character by character for ASCII text, else
/// what `str::to_lowercase` returns (`lowercase_of`).
pub open spec fn lowercase(s: Seq<char>) -> Seq<char> {
    if is_ascii_text(s) {
        s.map_values(|c: char| ascii_lower(c))
    } else {
        lowercase_of(s)
    }
}

/// `str::to_lowercase`. The result is named `lowercase_of` of the input; for
/// ASCII input it is the character-wise ASCII lowercase, since the Unicode
/// lowercase mapping of `A`..`Z` is `a`..`z` and no other ASCII character has
/// one. What the mapping does to other characters is left unsaid.
#[verifier::external_body]
pub(crate) fn to_lowercase(s: &str) -> (r: String)
    ensures
        r@ == lowercase_of(s@),
        is_ascii_text(s@) ==> r@ == s@.map_values(|c: char| ascii_lower(c)),
{
    s.to_lowercase()
}

/// What capture group `group` of the first match of regular expression
/// `pattern` in `haystack` holds: `None` when the pattern does not compile, does
/// not match, or the group did not take part in the match.
pub uninterp spec fn regex_group_of(pattern: Seq<char>, haystack: Seq<char>, group: nat) -> Option<
    Seq<char>,
>;

/// `Regex::new(pattern)`, then `Regex::captures(haystack)`, then
/// `Captures::get(group)` and `Match::as_str`: the text of one capture group of
/// the first match. The result is only named (`regex_group_of`); the matching
/// rules of the `regex` crate are not restated.
#[verifier::external_body]
pub(crate) fn regex_group(pattern: &str, haystack: &str, group: usize) -> (r: Option<String>)
    ensures
        match r {
            Some(t) => regex_group_of(pattern@, haystack@, group as nat) == Some(t@),
            None => regex_group_of(pattern@, haystack@, group as nat) is None,
        },
{
    let re = match Regex::new(pattern) {
        Ok(re) => re,
        Err(_) => return None,
    };
    match re.captures(haystack) {
        Some(caps) => match caps.get(group) {
            Some(m) => Some(m.as_str().to_string()),
            None => None,
        },
        None => None,
    }
}

/// `k` is the last position of `c` in `s`.
pub open spec fn is_last(s: Seq<char>, c: char, k: int) -> bool {
    &&& 0 <= k < s.len()
    &&& s[k] == c
    &&& forall|j: int| k < j < s.len() ==> s[j] != c
}

/// A path made of one plain file name: not empty, no `/`, backslash or `:`,
/// not `.` or `..`.
pub open spec fn is_plain_file_name(s: Seq<char>) -> bool {
    &&& s.len() > 0
    &&& !s.contains('/')
    &&& !s.contains('\\')
    &&& !s.contains(':')
    &&& s != seq!['.']
    &&& s != seq!['.', '.']
}

/// The stem of a file name as `Path::file_stem` documents it: the whole name if
/// it has no `.` or its only `.` is the first character, else the part before
/// the last `.`.
pub open spec fn stem_of_name(s: Seq<char>) -> Seq<char> {
    if exists|k: int| is_last(s, '.', k) {
        let k = choose|k: int| is_last(s, '.', k);
        if k == 0 {
            s
        } else {
            s.take(k)
        }
    } else {
        s
    }
}

/// What `Path::file_stem` returns for a path, as text.
pub uninterp spec fn file_stem_of(path: Seq<char>) -> Option<Seq<char>>;

/// `Path::new(path).file_stem()` then `OsStr::to_str`. The result is named
/// `file_stem_of`; for a path that is one plain file name it is the stem that
/// the documentation of `file_stem` describes. Other paths (with directory
/// separators, drive prefixes, `.` or `..`) are left to the name.
#[verifier::external_body]
pub(crate) fn file_stem(path: &str) -> (r: Option<String>)
    ensures
        match r {
            Some(t) => file_stem_of(path@) == Some(t@),
            None => file_stem_of(path@) is None,
        },
        is_plain_file_name(path@) ==> r is Some && r.unwrap()@ == stem_of_name(path@),
{
    match Path::new(path).file_stem() {
        Some(stem) => match stem.to_str() {
            Some(t) => Some(t.to_string()),
            None => None,
        },
        None => None,
    }
}

} // verus!

//! Character-level text operations, each with its mathematical meaning.

use vstd::prelude::*;
use crate::bindings::push_char;

verus! {

/// The Unicode `White_Space` property: the characters that `char::is_whitespace`
/// accepts.
pub open spec fn is_ws(c: char) -> bool {
    ||| ('\u{9}' <= c && c <= '\u{d}')
    ||| c == ' '
    ||| c == '\u{85}'
    ||| c == '\u{a0}'
    ||| c == '\u{1680}'
    ||| ('\u{2000}' <= c && c <= '\u{200a}')
    ||| c == '\u{2028}'
    ||| c == '\u{2029}'
    ||| c == '\u{202f}'
    ||| c == '\u{205f}'
    ||| c == '\u{3000}'
}

/// Decides `is_ws`.
pub fn is_white_space(c: char) -> (r: bool)
    ensures
        r == is_ws(c),
{
    ('\u{9}' <= c && c <= '\u{d}') || c == ' ' || c == '\u{85}' || c == '\u{a0}' || c == '\u{1680}'
        || ('\u{2000}' <= c && c <= '\u{200a}') || c == '\u{2028}' || c == '\u{2029}' || c
        == '\u{202f}' || c == '\u{205f}' || c == '\u{3000}'
}

/// The characters of a string slice, in order.
pub fn chars_of(s: &str) -> (r: Vec<char>)
    ensures
        r@ == s@,
{
    let mut r: Vec<char> = Vec::new();
    for c in it: s.chars()
        invariant
            r@ == it.seq().take(it.index() as int),
    {
        r.push(c);
    }
    r
}

/// The string made of `v[lo..hi]`.
pub fn string_of(v: &[char], lo: usize, hi: usize) -> (r: String)
    requires
        lo <= hi <= v@.len(),
    ensures
        r@ == v@.subrange(lo as int, hi as int),
{
    let mut r = String::new();
    let mut i = lo;
    while i < hi
        invariant
            lo <= i <= hi <= v@.len(),
            r@ == v@.subrange(lo as int, i as int),
        decreases hi - i,
    {
        push_char(&mut r, v[i]);
        assert(v@.subrange(lo as int, i + 1) == v@.subrange(lo as int, i as int).push(v@[i as int]));
        i += 1;
    }
    r
}


/// The characters removed by a trim: whitespace, or the double quote when
/// `quote` holds.
pub open spec fn strips(quote: bool, c: char) -> bool {
    if quote {
        c == '"'
    } else {
        is_ws(c)
    }
}

/// `s` without its leading characters that `strips(quote, _)` accepts.
pub open spec fn trim_start_with(s: Seq<char>, quote: bool) -> Seq<char>
    decreases s.len(),
{
    if s.len() > 0 && strips(quote, s[0]) {
        trim_start_with(s.drop_first(), quote)
    } else {
        s
    }
}

/// `s` without its trailing characters that `strips(quote, _)` accepts.
pub open spec fn trim_end_with(s: Seq<char>, quote: bool) -> Seq<char>
    decreases s.len(),
{
    if s.len() > 0 && strips(quote, s.last()) {
        trim_end_with(s.drop_last(), quote)
    } else {
        s
    }
}

/// `str::trim`: leading and trailing whitespace removed.
pub open spec fn trim(s: Seq<char>) -> Seq<char> {
    trim_end_with(trim_start_with(s, false), false)
}

/// `str::trim_matches('"')`: leading and trailing double quotes removed.
pub open spec fn trim_quotes(s: Seq<char>) -> Seq<char> {
    trim_end_with(trim_start_with(s, true), true)
}

fn strips_exec(quote: bool, c: char) -> (r: bool)
    ensures
        r == strips(quote, c),
{
    if quote {
        c == '"'
    } else {
        is_white_space(c)
    }
}

/// The bounds of `v[lo..hi]` once the characters that `strips(quote, _)`
/// accepts are removed at both ends.
pub fn trim_range_with(v: &[char], lo: usize, hi: usize, quote: bool) -> (r: (usize, usize))
    requires
        lo <= hi <= v@.len(),
    ensures
        lo <= r.0 <= r.1 <= hi,
        v@.subrange(r.0 as int, r.1 as int) == trim_end_with(
            trim_start_with(v@.subrange(lo as int, hi as int), quote),
            quote,
        ),
{
    let mut i = lo;
    while i < hi && strips_exec(quote, v[i])
        invariant
            lo <= i <= hi <= v@.len(),
            trim_start_with(v@.subrange(lo as int, hi as int), quote) == trim_start_with(
                v@.subrange(i as int, hi as int),
                quote,
            ),
        decreases hi - i,
    {
        assert(v@.subrange(i as int, hi as int).drop_first() == v@.subrange(i + 1, hi as int));
        i += 1;
    }
    let mut j = hi;
    while j > i && strips_exec(quote, v[j - 1])
        invariant
            lo <= i <= j <= hi <= v@.len(),
            trim_start_with(v@.subrange(lo as int, hi as int), quote) == v@.subrange(
                i as int,
                hi as int,
            ),
            trim_end_with(v@.subrange(i as int, hi as int), quote) == trim_end_with(
                v@.subrange(i as int, j as int),
                quote,
            ),
        decreases j - i,
    {
        assert(v@.subrange(i as int, j as int).drop_last() == v@.subrange(i as int, j - 1));
        j -= 1;
    }
    (i, j)
}

/// The bounds of `trim(v[lo..hi])`.
pub fn trim_range(v: &[char], lo: usize, hi: usize) -> (r: (usize, usize))
    requires
        lo <= hi <= v@.len(),
    ensures
        lo <= r.0 <= r.1 <= hi,
        v@.subrange(r.0 as int, r.1 as int) == trim(v@.subrange(lo as int, hi as int)),
{
    trim_range_with(v, lo, hi, false)
}

/// `str::trim`.
pub fn trim_str(s: &str) -> (r: String)
    ensures
        r@ == trim(s@),
{
    let v = chars_of(s);
    let (a, b) = trim_range(v.as_slice(), 0, v.len());
    assert(v@.subrange(0, v@.len() as int) == v@);
    string_of(v.as_slice(), a, b)
}

/// `k` is the first position of `c` in `s`.
pub open spec fn is_first(s: Seq<char>, c: char, k: int) -> bool {
    &&& 0 <= k < s.len()
    &&& s[k] == c
    &&& forall|j: int| 0 <= j < k ==> s[j] != c
}

/// `str::split_once(c)`: the parts before and after the first `c`, if `c` occurs.
pub open spec fn split_once(s: Seq<char>, c: char) -> Option<(Seq<char>, Seq<char>)> {
    if exists|k: int| is_first(s, c, k) {
        let k = choose|k: int| is_first(s, c, k);
        Some((s.take(k), s.skip(k + 1)))
    } else {
        None
    }
}

/// The first position of `c` in `v[lo..hi]`, counted from the start of `v`.
pub fn find_char(v: &[char], lo: usize, hi: usize, c: char) -> (r: Option<usize>)
    requires
        lo <= hi <= v@.len(),
    ensures
        match r {
            Some(k) => lo <= k < hi && is_first(v@.subrange(lo as int, hi as int), c, k - lo),
            None => forall|k: int| lo <= k < hi ==> v@[k] != c,
        },
{
    let mut i = lo;
    while i < hi
        invariant
            lo <= i <= hi <= v@.len(),
            forall|k: int| lo <= k < i ==> v@[k] != c,
        decreases hi - i,
    {
        if v[i] == c {
            return Some(i);
        }
        i += 1;
    }
    None
}

/// The first-occurrence split point is unique.
pub proof fn lemma_first_unique(s: Seq<char>, c: char, k1: int, k2: int)
    requires
        is_first(s, c, k1),
        is_first(s, c, k2),
    ensures
        k1 == k2,
{
}

/// `split_once` of `v[lo..hi]` in terms of the position `find_char` returns.
pub proof fn lemma_split_once_found(v: Seq<char>, lo: int, hi: int, c: char, k: int)
    requires
        0 <= lo <= k < hi <= v.len(),
        is_first(v.subrange(lo, hi), c, k - lo),
    ensures
        split_once(v.subrange(lo, hi), c) == Some((v.subrange(lo, k), v.subrange(k + 1, hi))),
{
    let s = v.subrange(lo, hi);
    let k2 = choose|k: int| is_first(s, c, k);
    lemma_first_unique(s, c, k2, k - lo);
    assert(s.take(k - lo) == v.subrange(lo, k));
    assert(s.skip(k - lo + 1) == v.subrange(k + 1, hi));
}

/// `split_once` of `v[lo..hi]` when `c` does not occur there.
pub proof fn lemma_split_once_absent(v: Seq<char>, lo: int, hi: int, c: char)
    requires
        0 <= lo <= hi <= v.len(),
        forall|k: int| lo <= k < hi ==> v[k] != c,
    ensures
        split_once(v.subrange(lo, hi), c) is None,
{
    let s = v.subrange(lo, hi);
    assert forall|k: int| !is_first(s, c, k) by {
        if 0 <= k < s.len() {
            assert(s[k] == v[lo + k]);
        }
    }
}


/// `v[lo..hi] == w`.
pub fn range_eq(v: &[char], lo: usize, hi: usize, w: &[char]) -> (r: bool)
    requires
        lo <= hi <= v@.len(),
    ensures
        r == (v@.subrange(lo as int, hi as int) == w@),
{
    if hi - lo != w.len() {
        return false;
    }
    let mut i: usize = 0;
    while i < w.len()
        invariant
            hi - lo == w@.len(),
            lo <= hi <= v@.len(),
            i <= w@.len(),
            forall|k: int| 0 <= k < i ==> v@[lo + k] == w@[k],
        decreases w.len() - i,
    {
        if v[lo + i] != w[i] {
            assert(v@.subrange(lo as int, hi as int)[i as int] != w@[i as int]);
            return false;
        }
        i += 1;
    }
    assert(v@.subrange(lo as int, hi as int) =~= w@);
    true
}

/// `w` is a prefix of `v[lo..hi]`.
pub fn range_has_prefix(v: &[char], lo: usize, hi: usize, w: &[char]) -> (r: bool)
    requires
        lo <= hi <= v@.len(),
    ensures
        r == w@.is_prefix_of(v@.subrange(lo as int, hi as int)),
{
    if w.len() > hi - lo {
        return false;
    }
    let r = range_eq(v, lo, lo + w.len(), w);
    assert(v@.subrange(lo as int, hi as int).subrange(0, w@.len() as int) == v@.subrange(
        lo as int,
        lo + w@.len(),
    ));
    r
}

/// An ASCII decimal digit.
pub open spec fn is_digit(c: char) -> bool {
    '0' <= c && c <= '9'
}

/// The value of a decimal digit.
pub open spec fn digit_value(c: char) -> nat {
    (c as int - '0' as int) as nat
}

/// Every character of `s` is a decimal digit.
pub open spec fn all_digits(s: Seq<char>) -> bool {
    forall|i: int| 0 <= i < s.len() ==> is_digit(s[i])
}

/// The number that a string of decimal digits denotes.
pub open spec fn digits_value(s: Seq<char>) -> nat
    decreases s.len(),
{
    if s.len() == 0 {
        0
    } else {
        digits_value(s.drop_last()) * 10 + digit_value(s.last())
    }
}

/// `str::parse` into an unsigned integer type whose largest value is `max`:
/// an optional `+`, then one or more decimal digits whose value is at most `max`.
pub open spec fn parse_unsigned(s: Seq<char>, max: nat) -> Option<nat> {
    let d = if s.len() > 0 && s[0] == '+' {
        s.drop_first()
    } else {
        s
    };
    if d.len() > 0 && all_digits(d) && digits_value(d) <= max {
        Some(digits_value(d))
    } else {
        None
    }
}

/// A longer string of digits denotes a number at least as large.
pub proof fn lemma_digits_value_prefix(s: Seq<char>, k: int)
    requires
        0 <= k <= s.len(),
        all_digits(s),
    ensures
        digits_value(s.take(k)) <= digits_value(s),
    decreases s.len(),
{
    if k < s.len() {
        assert(s.drop_last().take(k) == s.take(k));
        lemma_digits_value_prefix(s.drop_last(), k);
    } else {
        assert(s.take(k) == s);
    }
}

/// `parse_unsigned(v[lo..hi], max)`.
pub fn parse_unsigned_range(v: &[char], lo: usize, hi: usize, max: u32) -> (r: Option<u32>)
    requires
        lo <= hi <= v@.len(),
    ensures
        match r {
            Some(n) => parse_unsigned(v@.subrange(lo as int, hi as int), max as nat) == Some(
                n as nat,
            ),
            None => parse_unsigned(v@.subrange(lo as int, hi as int), max as nat) is None,
        },
{
    let ghost s = v@.subrange(lo as int, hi as int);
    let mut start = lo;
    if start < hi && v[start] == '+' {
        start += 1;
        assert(s.drop_first() == v@.subrange(start as int, hi as int));
    } else {
        assert(s == v@.subrange(start as int, hi as int));
    }
    let ghost d = v@.subrange(start as int, hi as int);
    assert(d == (if s.len() > 0 && s[0] == '+' {
        s.drop_first()
    } else {
        s
    }));
    if start == hi {
        return None;
    }
    let mut acc: u64 = 0;
    let mut i = start;
    while i < hi
        invariant
            lo <= start <= i <= hi <= v@.len(),
            d == v@.subrange(start as int, hi as int),
            s == v@.subrange(lo as int, hi as int),
            d == (if s.len() > 0 && s[0] == '+' {
                s.drop_first()
            } else {
                s
            }),
            acc as nat == digits_value(d.take(i - start)),
            acc <= max,
            all_digits(d.take(i - start)),
        decreases hi - i,
    {
        let c = v[i];
        if !('0' <= c && c <= '9') {
            assert(!is_digit(d[i - start]));
            return None;
        }
        let dv = ((c as u32) - ('0' as u32)) as u64;
        assert(d.take(i - start + 1).drop_last() == d.take(i - start));
        assert(d.take(i - start + 1).last() == c);
        let next = acc * 10 + dv;
        if next > max as u64 {
            proof {
                if all_digits(d) {
                    lemma_digits_value_prefix(d, i - start + 1);
                }
            }
            return None;
        }
        acc = next;
        i += 1;
    }
    assert(d.take(hi - start) == d);
    Some(acc as u32)
}

/// The character of a decimal digit.
pub open spec fn digit_char(d: nat) -> char {
    (d + '0' as nat) as char
}

/// The decimal notation of `n` (`Display` for unsigned integers).
pub open spec fn decimal(n: nat) -> Seq<char>
    decreases n,
{
    if n < 10 {
        seq![digit_char(n)]
    } else {
        decimal(n / 10).push(digit_char(n % 10))
    }
}

/// Appends the decimal notation of `n`.
pub fn push_decimal(out: &mut String, n: u32)
    ensures
        final(out)@ == old(out)@ + decimal(n as nat),
    decreases n,
{
    if n >= 10 {
        push_decimal(out, n / 10);
    }
    let d = (n % 10) as u8;
    let c = (48u8 + d) as char;
    assert(c == digit_char((n % 10) as nat));
    push_char(out, c);
}

/// The decimal notation of `n`.
pub fn decimal_string(n: u32) -> (r: String)
    ensures
        r@ == decimal(n as nat),
{
    let mut s = String::new();
    push_decimal(&mut s, n);
    assert(Seq::<char>::empty() + decimal(n as nat) == decimal(n as nat));
    s
}

/// Reading back the decimal notation of a number gives the number.
pub proof fn lemma_parse_decimal(n: nat, max: nat)
    requires
        n <= max,
    ensures
        parse_unsigned(decimal(n), max) == Some(n),
{
    lemma_decimal_digits(n);
}

/// The decimal notation is a nonempty string of digits denoting `n`.
pub proof fn lemma_decimal_digits(n: nat)
    ensures
        decimal(n).len() > 0,
        all_digits(decimal(n)),
        digits_value(decimal(n)) == n,
    decreases n,
{
    assert(digit_value(digit_char(n % 10)) == n % 10);
    if n >= 10 {
        lemma_decimal_digits(n / 10);
        assert(decimal(n).drop_last() == decimal(n / 10));
        assert(decimal(n).last() == digit_char(n % 10));
        assert(n == (n / 10) * 10 + n % 10);
        assert(digits_value(decimal(n)) == digits_value(decimal(n / 10)) * 10 + digit_value(
            digit_char(n % 10),
        ));
    } else {
        assert(decimal(n).drop_last() =~= Seq::<char>::empty());
        assert(digits_value(decimal(n)) == digits_value(Seq::<char>::empty()) * 10 + digit_value(
            digit_char(n),
        ));
    }
}

/// `parts` joined with `sep` between consecutive parts (`[T]::join`).
pub open spec fn join(parts: Seq<Seq<char>>, sep: Seq<char>) -> Seq<char>
    decreases parts.len(),
{
    if parts.len() == 0 {
        Seq::empty()
    } else if parts.len() == 1 {
        parts[0]
    } else {
        join(parts.drop_last(), sep) + sep + parts.last()
    }
}

/// The character sequence of an optional string.
pub open spec fn opt_view(o: Option<String>) -> Option<Seq<char>> {
    match o {
        Some(s) => Some(s@),
        None => None,
    }
}

/// The character sequences of a list of strings.
pub open spec fn views(v: Seq<String>) -> Seq<Seq<char>> {
    v.map_values(|s: String| s@)
}

/// `parts.join(sep)`.
pub fn join_strings(parts: &Vec<String>, sep: &str) -> (r: String)
    ensures
        r@ == join(views(parts@), sep@),
{
    let mut r = String::new();
    let ghost all = views(parts@);
    let mut i: usize = 0;
    while i < parts.len()
        invariant
            i <= parts@.len(),
            all == views(parts@),
            r@ == join(all.take(i as int), sep@),
        decreases parts.len() - i,
    {
        assert(all.take(i + 1).drop_last() == all.take(i as int));
        if i != 0 {
            r.append(sep);
        }
        r.append(parts[i].as_str());
        proof {
            if i == 0 {
                assert(r@ == parts@[0]@);
            }
        }
        i += 1;
    }
    assert(all.take(parts@.len() as int) == all);
    r
}

/// `s` with every leading copy of `p` removed (`str::trim_start_matches` with a
/// string pattern; an empty pattern removes nothing).
pub open spec fn strip_prefixes(s: Seq<char>, p: Seq<char>) -> Seq<char>
    decreases s.len(),
{
    if p.len() > 0 && p.is_prefix_of(s) {
        strip_prefixes(s.skip(p.len() as int), p)
    } else {
        s
    }
}

/// The start of `strip_prefixes(v[lo..hi], p)` within `v`.
pub fn strip_prefixes_range(v: &[char], lo: usize, hi: usize, p: &[char]) -> (r: usize)
    requires
        lo <= hi <= v@.len(),
    ensures
        lo <= r <= hi,
        v@.subrange(r as int, hi as int) == strip_prefixes(v@.subrange(lo as int, hi as int), p@),
{
    let mut i = lo;
    if p.len() == 0 {
        return lo;
    }
    while range_has_prefix(v, i, hi, p)
        invariant
            lo <= i <= hi <= v@.len(),
            p@.len() > 0,
            strip_prefixes(v@.subrange(lo as int, hi as int), p@) == strip_prefixes(
                v@.subrange(i as int, hi as int),
                p@,
            ),
        decreases hi - i,
    {
        assert(v@.subrange(i as int, hi as int).skip(p@.len() as int) == v@.subrange(
            i + p@.len(),
            hi as int,
        ));
        i += p.len();
    }
    i
}

/// `a` and `b` hold the same text.
pub fn same_text(a: &str, b: &str) -> (r: bool)
    ensures
        r == (a@ == b@),
{
    a.to_owned() == b.to_owned()
}


/// Trimming keeps a contiguous middle part: everything before it and after it
/// is whitespace, and the part itself is empty or starts and ends with a
/// character that is not whitespace. The result gives its bounds.
pub proof fn lemma_trim_bounds(s: Seq<char>) -> (r: (int, int))
    ensures
        0 <= r.0 <= r.1 <= s.len(),
        trim(s) == s.subrange(r.0, r.1),
        forall|k: int| 0 <= k < r.0 ==> is_ws(#[trigger] s[k]),
        forall|k: int| r.1 <= k < s.len() ==> is_ws(#[trigger] s[k]),
        trim(s).len() > 0 ==> !is_ws(trim(s)[0]) && !is_ws(trim(s).last()),
{
    let i = lemma_trim_start_bound(s, false);
    let t = s.subrange(i, s.len() as int);
    let j = lemma_trim_end_bound(t, false);
    assert(t.subrange(0, j) == s.subrange(i, i + j));
    assert forall|k: int| i + j <= k < s.len() implies is_ws(#[trigger] s[k]) by {
        assert(s[k] == t[k - i]);
    }
    if trim(s).len() > 0 {
        assert(trim(s)[0] == t[0]);
    }
    (i, i + j)
}

/// Where leading trimming stops.
proof fn lemma_trim_start_bound(s: Seq<char>, quote: bool) -> (i: int)
    ensures
        0 <= i <= s.len(),
        trim_start_with(s, quote) == s.subrange(i, s.len() as int),
        forall|k: int| 0 <= k < i ==> strips(quote, #[trigger] s[k]),
        i < s.len() ==> !strips(quote, s[i]),
    decreases s.len(),
{
    if s.len() > 0 && strips(quote, s[0]) {
        let j = lemma_trim_start_bound(s.drop_first(), quote);
        assert(s.drop_first().subrange(j, s.len() - 1) == s.subrange(j + 1, s.len() as int));
        assert forall|k: int| 0 <= k < j + 1 implies strips(quote, #[trigger] s[k]) by {
            if k > 0 {
                assert(s[k] == s.drop_first()[k - 1]);
            }
        }
        if j + 1 < s.len() {
            assert(s[j + 1] == s.drop_first()[j]);
        }
        j + 1
    } else {
        assert(s.subrange(0, s.len() as int) == s);
        0
    }
}

/// Where trailing trimming stops.
proof fn lemma_trim_end_bound(s: Seq<char>, quote: bool) -> (j: int)
    ensures
        0 <= j <= s.len(),
        trim_end_with(s, quote) == s.subrange(0, j),
        forall|k: int| j <= k < s.len() ==> strips(quote, #[trigger] s[k]),
        j > 0 ==> !strips(quote, s[j - 1]),
    decreases s.len(),
{
    if s.len() > 0 && strips(quote, s.last()) {
        let j = lemma_trim_end_bound(s.drop_last(), quote);
        assert(s.drop_last().subrange(0, j) == s.subrange(0, j));
        assert forall|k: int| j <= k < s.len() implies strips(quote, #[trigger] s[k]) by {
            if k < s.len() - 1 {
                assert(s[k] == s.drop_last()[k]);
            }
        }
        if j > 0 {
            assert(s[j - 1] == s.drop_last()[j - 1]);
        }
        j
    } else {
        assert(s.subrange(0, s.len() as int) == s);
        s.len() as int
    }
}

/// Joining puts the separator between consecutive parts, and only there.
pub proof fn lemma_join_parts(a: Seq<char>, b: Seq<char>, c: Seq<char>, sep: Seq<char>)
    ensures
        join(Seq::<Seq<char>>::empty(), sep) == Seq::<char>::empty(),
        join(seq![a], sep) == a,
        join(seq![a, b], sep) == a + sep + b,
        join(seq![a, b, c], sep) == a + sep + b + sep + c,
{
    assert(seq![a, b].drop_last() == seq![a]);
    assert(seq![a, b].last() == b);
    assert(join(seq![a], sep) == a);
    assert(join(seq![a, b], sep) == join(seq![a], sep) + sep + b);
    assert(seq![a, b, c].drop_last() == seq![a, b]);
    assert(seq![a, b, c].last() == c);
    assert(join(seq![a, b, c], sep) == join(seq![a, b], sep) + sep + c);
}

/// `parse_unsigned` accepts exactly an optional `+` and digits denoting at
/// most `max`: a text with another character, or a larger number, is refused,
/// and a leading `+` does not change the number.
pub proof fn lemma_parse_unsigned_refuses(s: Seq<char>, max: nat, k: int)
    ensures
        (0 <= k < s.len() && !is_digit(s[k]) && !(k == 0 && s[k] == '+')) ==> parse_unsigned(
            s,
            max,
        ) is None,
        (s.len() > 0 && s[0] != '+') ==> parse_unsigned(seq!['+'] + s, max) == parse_unsigned(
            s,
            max,
        ),
        (all_digits(s) && s.len() > 0 && digits_value(s) > max) ==> parse_unsigned(s, max) is None,
        parse_unsigned(Seq::<char>::empty(), max) is None,
{
    if 0 <= k < s.len() && !is_digit(s[k]) && !(k == 0 && s[k] == '+') {
        if s.len() > 0 && s[0] == '+' {
            assert(s.drop_first()[k - 1] == s[k]);
        }
    }
    if s.len() > 0 && s[0] != '+' {
        assert((seq!['+'] + s).drop_first() == s);
    }
}

} // verus!

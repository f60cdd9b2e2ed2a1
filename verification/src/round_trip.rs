//! Reading back a generated template: the configuration text that the
//! generator writes says, to the parser, what the generator put into it.

use vstd::prelude::*;
use crate::bindings::{ascii_lower, is_ascii_text, lowercase};
use crate::generator::{
    album_line, disc_section, global_section, template_text, title_line, track_header, track_section,
    track_sections, TemplateTrackModel,
};
use crate::parser::{
    apply_field, block, config_of, lemma_lines_block, empty_global, empty_track, flush_track, initial_state, plain_line, run_lines,
    lemma_run_lines_concat, GlobalModel, key_value, normalized_key, step, without_ws, ParseState,
    TrackModel,
};
use crate::text::{
    decimal, is_digit, is_first, is_ws, lemma_decimal_digits, lemma_first_unique, lemma_parse_decimal,
    parse_unsigned, strips, trim, trim_end_with, trim_quotes, trim_start_with,
};

verus! {

/// Trimming stops at a character that is not removed.
proof fn lemma_trim_start_stop(s: Seq<char>, quote: bool)
    requires
        s.len() > 0,
        !strips(quote, s[0]),
    ensures
        trim_start_with(s, quote) == s,
{
}

/// Trimming stops at a last character that is not removed.
proof fn lemma_trim_end_stop(s: Seq<char>, quote: bool)
    requires
        s.len() > 0,
        !strips(quote, s.last()),
    ensures
        trim_end_with(s, quote) == s,
{
}

/// A text that starts and ends with non-whitespace is its own trim.
proof fn lemma_trim_fixed(s: Seq<char>)
    requires
        s.len() > 0,
        !is_ws(s[0]),
        !is_ws(s.last()),
    ensures
        trim(s) == s,
{
    lemma_trim_start_stop(s, false);
    lemma_trim_end_stop(s, false);
}

/// Removing leading characters one at a time.
proof fn lemma_trim_start_skip(s: Seq<char>, quote: bool, k: int)
    requires
        0 <= k <= s.len(),
        forall|i: int| 0 <= i < k ==> strips(quote, s[i]),
    ensures
        trim_start_with(s, quote) == trim_start_with(s.skip(k), quote),
    decreases k,
{
    if k > 0 {
        assert(s.drop_first().skip(k - 1) == s.skip(k));
        assert forall|i: int| 0 <= i < k - 1 implies strips(quote, s.drop_first()[i]) by {
            assert(s.drop_first()[i] == s[i + 1]);
        }
        lemma_trim_start_skip(s.drop_first(), quote, k - 1);
    } else {
        assert(s.skip(0) == s);
    }
}

/// Removing trailing characters one at a time.
proof fn lemma_trim_end_take(s: Seq<char>, quote: bool, k: int)
    requires
        0 <= k <= s.len(),
        forall|i: int| k <= i < s.len() ==> strips(quote, s[i]),
    ensures
        trim_end_with(s, quote) == trim_end_with(s.take(k), quote),
    decreases s.len() - k,
{
    if k < s.len() {
        assert(s.drop_last().take(k) == s.take(k));
        lemma_trim_end_take(s.drop_last(), quote, k);
    } else {
        assert(s.take(k) == s);
    }
}

/// A text without whitespace is its own whitespace-free form.
proof fn lemma_without_ws_id(s: Seq<char>)
    requires
        forall|i: int| 0 <= i < s.len() ==> !is_ws(s[i]),
    ensures
        without_ws(s) == s,
    decreases s.len(),
{
    reveal(Seq::filter);
    if s.len() > 0 {
        lemma_without_ws_id(s.drop_last());
        assert(s.drop_last().push(s.last()) == s);
    }
}

/// An ASCII key with letters at both ends normalizes to its lowercase form
/// without whitespace.
proof fn lemma_normalized_ascii_key(k: Seq<char>)
    requires
        k.len() > 0,
        is_ascii_text(k),
        !is_ws(k[0]),
        !is_ws(k.last()),
    ensures
        normalized_key(k) == without_ws(k.map_values(|c: char| ascii_lower(c))),
{
    lemma_trim_fixed(k);
    lemma_trim_fixed(trim(k));
}

/// An ASCII key without whitespace normalizes to its lowercase form.
proof fn lemma_simple_key(k: Seq<char>, low: Seq<char>)
    requires
        k.len() > 0,
        is_ascii_text(k),
        forall|i: int| 0 <= i < k.len() ==> !is_ws(k[i]),
        k.map_values(|c: char| ascii_lower(c)) == low,
        forall|i: int| 0 <= i < low.len() ==> !is_ws(low[i]),
    ensures
        normalized_key(k) == low,
{
    lemma_normalized_ascii_key(k);
    lemma_without_ws_id(low);
}

/// The normalized forms of the keys that the template writes.
pub proof fn lemma_template_keys()
    ensures
        normalized_key("Album"@) == "album"@,
        normalized_key("Album Artist"@) == "albumartist"@,
        normalized_key("Date"@) == "date"@,
        normalized_key("Genre"@) == "genre"@,
        normalized_key("Composer"@) == "composer"@,
        normalized_key("File"@) == "file"@,
        normalized_key("Title"@) == "title"@,
        normalized_key("Artist"@) == "artist"@,
{
    reveal_strlit("Album");
    reveal_strlit("album");
    assert("Album"@.map_values(|c: char| ascii_lower(c)) == "album"@);
    lemma_simple_key("Album"@, "album"@);
    reveal_strlit("Date");
    reveal_strlit("date");
    assert("Date"@.map_values(|c: char| ascii_lower(c)) == "date"@);
    lemma_simple_key("Date"@, "date"@);
    reveal_strlit("Genre");
    reveal_strlit("genre");
    assert("Genre"@.map_values(|c: char| ascii_lower(c)) == "genre"@);
    lemma_simple_key("Genre"@, "genre"@);
    reveal_strlit("Composer");
    reveal_strlit("composer");
    assert("Composer"@.map_values(|c: char| ascii_lower(c)) == "composer"@);
    lemma_simple_key("Composer"@, "composer"@);
    reveal_strlit("File");
    reveal_strlit("file");
    assert("File"@.map_values(|c: char| ascii_lower(c)) == "file"@);
    lemma_simple_key("File"@, "file"@);
    reveal_strlit("Title");
    reveal_strlit("title");
    assert("Title"@.map_values(|c: char| ascii_lower(c)) == "title"@);
    lemma_simple_key("Title"@, "title"@);
    reveal_strlit("Artist");
    reveal_strlit("artist");
    assert("Artist"@.map_values(|c: char| ascii_lower(c)) == "artist"@);
    lemma_simple_key("Artist"@, "artist"@);
    reveal_strlit("Album Artist");
    reveal_strlit("albumartist");
    let k = "Album Artist"@;
    let m = k.map_values(|c: char| ascii_lower(c));
    lemma_normalized_ascii_key(k);
    let a = "album"@;
    let b = "artist"@;
    assert(m == a + seq![' '] + b);
    let p = |c: char| !is_ws(c);
    Seq::filter_distributes_over_add(a + seq![' '], b, p);
    Seq::filter_distributes_over_add(a, seq![' '], p);
    lemma_without_ws_id(a);
    lemma_without_ws_id(b);
    assert(without_ws(seq![' ']) == Seq::<char>::empty()) by {
        reveal(Seq::filter);
        assert(seq![' '].drop_last() == Seq::<char>::empty());
    }
    assert(a + Seq::<char>::empty() + b == "albumartist"@);
}


/// An ASCII letter.
pub open spec fn is_letter(c: char) -> bool {
    ('A' <= c && c <= 'Z') || ('a' <= c && c <= 'z')
}

/// A key as the template writes it: ASCII letters and spaces, with a letter at
/// each end.
pub open spec fn plain_key(k: Seq<char>) -> bool {
    &&& k.len() > 0
    &&& is_letter(k[0])
    &&& is_letter(k.last())
    &&& forall|i: int| 0 <= i < k.len() ==> is_letter(#[trigger] k[i]) || k[i] == ' '
}

/// A text that reads back intact between double quotes on one line: no
/// newline, and no double quote at either end.
pub open spec fn quotable(v: Seq<char>) -> bool {
    &&& !v.contains('\n')
    &&& (v.len() == 0 || (v[0] != '"' && v.last() != '"'))
}

/// The value part of a template line: a quoted text, or nothing.
pub open spec fn quoted(value: Option<Seq<char>>) -> Seq<char> {
    match value {
        Some(v) => "\""@ + v + "\""@,
        None => Seq::empty(),
    }
}

/// A `key = value` line of the template.
pub open spec fn kv_line(key: Seq<char>, value: Option<Seq<char>>) -> Seq<char> {
    key + " = "@ + quoted(value)
}

/// What a template value reads back as: the text, or the empty text.
pub open spec fn or_empty(value: Option<Seq<char>>) -> Seq<char> {
    match value {
        Some(v) => v,
        None => Seq::empty(),
    }
}

/// A line that starts with a letter is neither a comment nor a section header.
proof fn lemma_letter_line(st: ParseState, line: Seq<char>)
    requires
        line.len() > 0,
        is_letter(line[0]),
        trim(line) == line,
    ensures
        step(st, line) == match key_value(line) {
            Some((k, v)) => {
                let raw_value = trim(v);
                let has_value = raw_value.len() > 0;
                let value = if has_value {
                    trim_quotes(raw_value)
                } else {
                    Seq::empty()
                };
                apply_field(st, normalized_key(trim(k)), value, has_value)
            },
            None => st,
        },
{
    reveal_strlit("[Global]");
    reveal_strlit("[Disc");
    reveal_strlit("[Track");
    assert(line != "[Global]"@) by {
        if line == "[Global]"@ {
            assert(line[0] == '[');
        }
    }
    assert(!"[Disc"@.is_prefix_of(line)) by {
        if "[Disc"@.is_prefix_of(line) {
            assert(line.subrange(0, 5)[0] == line[0]);
        }
    }
    assert(!"[Track"@.is_prefix_of(line)) by {
        if "[Track"@.is_prefix_of(line) {
            assert(line.subrange(0, 6)[0] == line[0]);
        }
    }
}

/// The key part of a template line splits off at the first `=`.
proof fn lemma_kv_split(key: Seq<char>, rest: Seq<char>)
    requires
        plain_key(key),
    ensures
        key_value(key + seq![' ', '='] + rest) == Some((key + seq![' '], rest)),
        trim(key + seq![' ']) == key,
{
    let line = key + seq![' ', '='] + rest;
    let k = key.len() as int + 1;
    assert(is_first(line, '=', k)) by {
        assert forall|j: int| 0 <= j < k implies line[j] != '=' by {
            if j < key.len() {
                assert(line[j] == key[j]);
                assert(is_letter(key[j]) || key[j] == ' ');
            }
        }
    }
    let k2 = choose|k: int| is_first(line, '=', k);
    lemma_first_unique(line, '=', k, k2);
    assert(line.take(k) == key + seq![' ']);
    assert(line.skip(k + 1) == rest);
    let kk = key + seq![' '];
    lemma_trim_start_stop(kk, false);
    lemma_trim_end_take(kk, false, key.len() as int);
    assert(kk.take(key.len() as int) == key);
    lemma_trim_end_stop(key, false);
}

/// Reading a `key = value` line of the template sets the value, or the empty
/// text when nothing follows the `=`.
pub proof fn lemma_step_kv(st: ParseState, key: Seq<char>, value: Option<Seq<char>>)
    requires
        plain_key(key),
        value is Some ==> quotable(value.unwrap()),
    ensures
        step(st, kv_line(key, value)) == apply_field(
            st,
            normalized_key(key),
            or_empty(value),
            value is Some,
        ),
{
    reveal_strlit(" = ");
    reveal_strlit("\"");
    let line = kv_line(key, value);
    match value {
        Some(v) => {
            let q = seq!['"'] + v + seq!['"'];
            assert(line == key + seq![' ', '='] + (seq![' '] + q));
            lemma_trim_fixed(line);
            lemma_letter_line(st, line);
            lemma_kv_split(key, seq![' '] + q);
            let vq = seq![' '] + q;
            lemma_trim_start_skip(vq, false, 1);
            assert(vq.skip(1) == q);
            lemma_trim_start_stop(q, false);
            lemma_trim_end_stop(q, false);
            assert(trim(vq) == q);
            if v.len() == 0 {
                lemma_trim_start_skip(q, true, 2);
                assert(q.skip(2).len() == 0);
                assert(trim_quotes(q) == v);
            } else {
                lemma_trim_start_skip(q, true, 1);
                let t = q.skip(1);
                assert(t == v + seq!['"']);
                lemma_trim_start_stop(t, true);
                lemma_trim_end_take(t, true, v.len() as int);
                assert(t.take(v.len() as int) == v);
                lemma_trim_end_stop(v, true);
            }
        },
        None => {
            let tl = key + seq![' ', '='];
            assert(line == tl + seq![' ']);
            lemma_trim_start_stop(line, false);
            lemma_trim_end_take(line, false, tl.len() as int);
            assert(line.take(tl.len() as int) == tl);
            lemma_trim_end_stop(tl, false);
            assert(trim(line) == tl);
            lemma_trim_fixed(tl);
            lemma_letter_line(st, tl);
            assert(tl == key + seq![' ', '='] + Seq::<char>::empty());
            lemma_kv_split(key, Seq::<char>::empty());
            assert(trim(Seq::<char>::empty()) == Seq::<char>::empty());
        },
    }
}


/// The `[Global]` header changes nothing.
pub proof fn lemma_step_global(st: ParseState)
    ensures
        step(st, "[Global]"@) == st,
{
    reveal_strlit("[Global]");
    lemma_trim_fixed("[Global]"@);
}

/// A blank line changes nothing.
pub proof fn lemma_step_blank(st: ParseState)
    ensures
        step(st, Seq::empty()) == st,
{
}

/// The disc that a `[Disc N]` marker sets: `N` if it fits in a `u8`.
pub open spec fn disc_read_back(disc: Option<nat>) -> Option<u8> {
    match disc {
        Some(n) => if n <= 255 {
            Some(n as u8)
        } else {
            None
        },
        None => None,
    }
}

/// The state after a disc marker for `n`.
pub open spec fn after_disc_marker(st: ParseState, n: nat) -> ParseState {
    if n <= 255 {
        ParseState { disc: Some(n as u8), ..st }
    } else {
        st
    }
}

/// The state once a track with the given number begins.
pub open spec fn begin_track(st: ParseState, number: Option<Seq<char>>) -> ParseState {
    ParseState {
        tracks: flush_track(st),
        current: Some(TrackModel { number, ..empty_track() }),
        ..st
    }
}

/// The disc marker of the template sets the disc, if it fits in a `u8`.
pub proof fn lemma_step_disc(st: ParseState, n: nat)
    ensures
        step(st, "[Disc "@ + decimal(n) + "]"@) == after_disc_marker(st, n),
{
    reveal_strlit("[Disc ");
    reveal_strlit("[Disc");
    reveal_strlit("]");
    reveal_strlit("[Global]");
    let d = decimal(n);
    lemma_decimal_digits(n);
    let line = "[Disc "@ + d + "]"@;
    assert(line == seq!['[', 'D', 'i', 's', 'c', ' '] + d + seq![']']);
    lemma_trim_fixed(line);
    assert(line != "[Global]"@) by {
        if line == "[Global]"@ {
            assert(line[1] == 'G');
        }
    }
    assert(line.subrange(0, 5) == "[Disc"@);
    let rest = line.skip(5);
    assert(rest == seq![' '] + d + seq![']']);
    assert(rest.drop_last() == seq![' '] + d);
    lemma_trim_start_skip(seq![' '] + d, false, 1);
    assert((seq![' '] + d).skip(1) == d);
    assert(is_digit(d[0]));
    assert(is_digit(d.last()));
    lemma_trim_fixed(d);
    if n <= 255 {
        lemma_parse_decimal(n, 255);
    } else {
        assert(parse_unsigned(d, 255) is None);
    }
}

/// The header of a track section: `[Track N]`, or `[Track]` without a number.
pub open spec fn header_number_ok(number: Option<Seq<char>>) -> bool {
    match number {
        Some(n) => n.len() > 0 && !n.contains('\n') && !is_ws(n[0]) && !is_ws(n.last()),
        None => true,
    }
}

/// A track header finishes the track under way and begins a new one with the
/// header's number.
pub proof fn lemma_step_track_header(st: ParseState, number: Option<Seq<char>>)
    requires
        header_number_ok(number),
    ensures
        step(st, track_header(number)) == begin_track(st, number),
{
    reveal_strlit("[Track ");
    reveal_strlit("[Track]");
    reveal_strlit("[Track");
    reveal_strlit("[Disc");
    reveal_strlit("]");
    reveal_strlit("[Global]");
    let line = track_header(number);
    assert(line[0] == '[' && line[1] == 'T');
    lemma_trim_fixed(line);
    assert(line != "[Global]"@) by {
        if line == "[Global]"@ {
            assert(line[1] == 'G');
        }
    }
    assert(!"[Disc"@.is_prefix_of(line)) by {
        if "[Disc"@.is_prefix_of(line) {
            assert(line.subrange(0, 5)[1] == line[1]);
        }
    }
    assert(line.subrange(0, 6) == "[Track"@);
    let rest = line.skip(6);
    match number {
        Some(n) => {
            assert(rest == seq![' '] + n + seq![']']);
            assert(rest.drop_last() == seq![' '] + n);
            lemma_trim_start_skip(seq![' '] + n, false, 1);
            assert((seq![' '] + n).skip(1) == n);
            lemma_trim_fixed(n);
        },
        None => {
            assert(rest == seq![']']);
            assert(rest.drop_last() == Seq::<char>::empty());
        },
    }
}


/// The lines of two lists, one per line, are the lines of each in turn.
proof fn lemma_block_append(a: Seq<Seq<char>>, b: Seq<Seq<char>>)
    ensures
        block(a + b) == block(a) + block(b),
    decreases b.len(),
{
    if b.len() == 0 {
        assert(a + b == a);
        assert(block(a) + block(b) == block(a));
    } else {
        assert((a + b).drop_last() == a + b.drop_last());
        assert((a + b).last() == b.last());
        lemma_block_append(a, b.drop_last());
        assert(block(a) + block(b.drop_last()) + b.last().push('\n') == block(a) + (block(
            b.drop_last(),
        ) + b.last().push('\n')));
    }
}

/// One line, with its newline.
proof fn lemma_block_single(l: Seq<char>)
    ensures
        block(seq![l]) == l.push('\n'),
{
    assert(seq![l].drop_last() == Seq::<Seq<char>>::empty());
    assert(seq![l].last() == l);
    assert(block(Seq::<Seq<char>>::empty()) == Seq::<char>::empty());
    assert(Seq::<char>::empty() + l.push('\n') == l.push('\n'));
}

/// The lines of the `[Global]` section.
pub open spec fn global_lines(album: Option<Seq<char>>, date: Option<Seq<char>>) -> Seq<Seq<char>> {
    seq!["[Global]"@, kv_line("Album"@, album), kv_line("Album Artist"@, None)] + match date {
        Some(d) => seq![kv_line("Date"@, Some(d))],
        None => Seq::empty(),
    } + seq![kv_line("Genre"@, None), kv_line("Composer"@, None), Seq::empty()]
}

/// The `[Global]` section is its lines, one per line.
proof fn lemma_global_block(album: Option<Seq<char>>, date: Option<Seq<char>>)
    ensures
        global_section(album, date) == block(global_lines(album, date)),
{
    reveal_strlit("[Global]\n");
    reveal_strlit("[Global]");
    reveal_strlit("Album = \"");
    reveal_strlit("Album = \n");
    reveal_strlit("\"\n");
    reveal_strlit("Album");
    reveal_strlit(" = ");
    reveal_strlit("\"");
    reveal_strlit("Album Artist = \n");
    reveal_strlit("Album Artist");
    reveal_strlit("Date = \"");
    reveal_strlit("Date");
    reveal_strlit("Genre = \n");
    reveal_strlit("Genre");
    reveal_strlit("Composer = \n\n");
    reveal_strlit("Composer");
    let l0 = seq!["[Global]"@, kv_line("Album"@, album), kv_line("Album Artist"@, None)];
    let l1 = match date {
        Some(d) => seq![kv_line("Date"@, Some(d))],
        None => Seq::<Seq<char>>::empty(),
    };
    let l2 = seq![kv_line("Genre"@, None), kv_line("Composer"@, None), Seq::<char>::empty()];
    lemma_block_append(l0 + l1, l2);
    lemma_block_append(l0, l1);
    assert(l0 == seq!["[Global]"@] + seq![kv_line("Album"@, album)] + seq![
        kv_line("Album Artist"@, None),
    ]);
    lemma_block_append(seq!["[Global]"@] + seq![kv_line("Album"@, album)], seq![
        kv_line("Album Artist"@, None),
    ]);
    lemma_block_append(seq!["[Global]"@], seq![kv_line("Album"@, album)]);
    lemma_block_single("[Global]"@);
    lemma_block_single(kv_line("Album"@, album));
    lemma_block_single(kv_line("Album Artist"@, None));
    assert(l2 == seq![kv_line("Genre"@, None)] + seq![kv_line("Composer"@, None)] + seq![
        Seq::<char>::empty(),
    ]);
    lemma_block_append(seq![kv_line("Genre"@, None)] + seq![kv_line("Composer"@, None)], seq![
        Seq::<char>::empty(),
    ]);
    lemma_block_append(seq![kv_line("Genre"@, None)], seq![kv_line("Composer"@, None)]);
    lemma_block_single(kv_line("Genre"@, None));
    lemma_block_single(kv_line("Composer"@, None));
    lemma_block_single(Seq::<char>::empty());
    match date {
        Some(d) => {
            lemma_block_single(kv_line("Date"@, Some(d)));
        },
        None => {
            assert(block(l1) == Seq::<char>::empty());
        },
    }
    assert(album_line(album) == kv_line("Album"@, album).push('\n'));
    assert(global_section(album, date) =~= block(global_lines(album, date)));
}


/// The lines of a track section.
pub open spec fn track_lines(t: TemplateTrackModel) -> Seq<Seq<char>> {
    seq![
        track_header(t.number),
        kv_line("File"@, Some(t.file)),
        kv_line("Title"@, t.title),
        kv_line("Artist"@, None),
        Seq::empty(),
    ]
}

/// A block of five lines.
proof fn lemma_block_five(a: Seq<char>, b: Seq<char>, c: Seq<char>, d: Seq<char>, e: Seq<char>)
    ensures
        block(seq![a, b, c, d, e]) == a.push('\n') + b.push('\n') + c.push('\n') + d.push('\n')
            + e.push('\n'),
{
    let s = seq![a, b, c, d, e];
    assert(s == seq![a] + seq![b] + seq![c] + seq![d] + seq![e]);
    lemma_block_append(seq![a] + seq![b] + seq![c] + seq![d], seq![e]);
    lemma_block_append(seq![a] + seq![b] + seq![c], seq![d]);
    lemma_block_append(seq![a] + seq![b], seq![c]);
    lemma_block_append(seq![a], seq![b]);
    lemma_block_single(a);
    lemma_block_single(b);
    lemma_block_single(c);
    lemma_block_single(d);
    lemma_block_single(e);
}

/// A track section is its lines, one per line.
proof fn lemma_track_block(t: TemplateTrackModel)
    ensures
        track_section(t) == block(track_lines(t)),
{
    reveal_strlit("\n");
    reveal_strlit("File = \"");
    reveal_strlit("File");
    reveal_strlit(" = ");
    reveal_strlit("\"");
    reveal_strlit("\"\n");
    reveal_strlit("Title = \"");
    reveal_strlit("Title = \n");
    reveal_strlit("Title");
    reveal_strlit("Artist = \n\n");
    reveal_strlit("Artist");
    lemma_block_five(
        track_header(t.number),
        kv_line("File"@, Some(t.file)),
        kv_line("Title"@, t.title),
        kv_line("Artist"@, None),
        Seq::empty(),
    );
    assert(title_line(t.title) == kv_line("Title"@, t.title).push('\n'));
    assert(track_section(t) =~= block(track_lines(t)));
}

/// The lines of the track sections, in order.
pub open spec fn tracks_lines(ts: Seq<TemplateTrackModel>) -> Seq<Seq<char>>
    decreases ts.len(),
{
    if ts.len() == 0 {
        Seq::empty()
    } else {
        tracks_lines(ts.drop_last()) + track_lines(ts.last())
    }
}

/// The track sections are their lines, one per line.
proof fn lemma_tracks_block(ts: Seq<TemplateTrackModel>)
    ensures
        track_sections(ts) == block(tracks_lines(ts)),
    decreases ts.len(),
{
    if ts.len() > 0 {
        lemma_tracks_block(ts.drop_last());
        lemma_track_block(ts.last());
        lemma_block_append(tracks_lines(ts.drop_last()), track_lines(ts.last()));
    }
}

/// The lines of the disc marker.
pub open spec fn disc_lines(disc: Option<nat>) -> Seq<Seq<char>> {
    match disc {
        Some(n) => seq!["[Disc "@ + decimal(n) + "]"@, Seq::empty()],
        None => Seq::empty(),
    }
}

/// The disc marker is its lines, one per line.
proof fn lemma_disc_block(disc: Option<nat>)
    ensures
        disc_section(disc) == block(disc_lines(disc)),
{
    match disc {
        Some(n) => {
            reveal_strlit("]\n\n");
            reveal_strlit("]");
            let a = "[Disc "@ + decimal(n) + "]"@;
            assert(seq![a, Seq::<char>::empty()] == seq![a] + seq![Seq::<char>::empty()]);
            lemma_block_append(seq![a], seq![Seq::<char>::empty()]);
            lemma_block_single(a);
            lemma_block_single(Seq::<char>::empty());
            assert(disc_section(disc) =~= block(disc_lines(disc)));
        },
        None => {},
    }
}

/// The lines of the whole template.
pub open spec fn template_lines(
    album: Option<Seq<char>>,
    date: Option<Seq<char>>,
    disc: Option<nat>,
    tracks: Seq<TemplateTrackModel>,
) -> Seq<Seq<char>> {
    global_lines(album, date) + disc_lines(disc) + tracks_lines(tracks)
}

/// The template is its lines, one per line.
proof fn lemma_template_block(
    album: Option<Seq<char>>,
    date: Option<Seq<char>>,
    disc: Option<nat>,
    tracks: Seq<TemplateTrackModel>,
)
    ensures
        template_text(album, date, disc, tracks) == block(template_lines(album, date, disc, tracks)),
{
    lemma_global_block(album, date);
    lemma_disc_block(disc);
    lemma_tracks_block(tracks);
    lemma_block_append(global_lines(album, date) + disc_lines(disc), tracks_lines(tracks));
    lemma_block_append(global_lines(album, date), disc_lines(disc));
}


/// The keys that the template writes are plain keys.
proof fn lemma_template_keys_plain()
    ensures
        plain_key("Album"@),
        plain_key("Album Artist"@),
        plain_key("Date"@),
        plain_key("Genre"@),
        plain_key("Composer"@),
        plain_key("File"@),
        plain_key("Title"@),
        plain_key("Artist"@),
{
    reveal_strlit("Album");
    reveal_strlit("Album Artist");
    reveal_strlit("Date");
    reveal_strlit("Genre");
    reveal_strlit("Composer");
    reveal_strlit("File");
    reveal_strlit("Title");
    reveal_strlit("Artist");
}


/// A `key = value` line of the template is a plain line.
proof fn lemma_kv_plain(key: Seq<char>, value: Option<Seq<char>>)
    requires
        plain_key(key),
        value is Some ==> quotable(value.unwrap()),
    ensures
        plain_line(kv_line(key, value)),
{
    reveal_strlit(" = ");
    reveal_strlit("\"");
    let line = kv_line(key, value);
    let n = key.len() as int;
    assert forall|i: int| 0 <= i < line.len() implies line[i] != '\n' by {
        if i < n {
            assert(line[i] == key[i]);
            assert(is_letter(key[i]) || key[i] == ' ');
        } else if i >= n + 4 {
            let v = value.unwrap();
            if i - n - 4 < v.len() {
                assert(line[i] == v[i - n - 4]);
                if v[i - n - 4] == '\n' {
                    assert(v.contains('\n'));
                }
            }
        }
    }
    assert(!line.contains('\n'));
}

/// A track header is a plain line.
proof fn lemma_header_plain(number: Option<Seq<char>>)
    requires
        header_number_ok(number),
    ensures
        plain_line(track_header(number)),
{
    reveal_strlit("[Track ");
    reveal_strlit("[Track]");
    reveal_strlit("]");
    let line = track_header(number);
    assert forall|i: int| 0 <= i < line.len() implies line[i] != '\n' by {
        if let Some(n) = number {
            if 7 <= i < 7 + n.len() {
                assert(line[i] == n[i - 7]);
                if n[i - 7] == '\n' {
                    assert(n.contains('\n'));
                }
            }
        }
    }
    assert(!line.contains('\n'));
}

/// The disc marker is a plain line.
proof fn lemma_disc_plain(n: nat)
    ensures
        plain_line("[Disc "@ + decimal(n) + "]"@),
{
    reveal_strlit("[Disc ");
    reveal_strlit("]");
    lemma_decimal_digits(n);
    let d = decimal(n);
    let line = "[Disc "@ + d + "]"@;
    assert forall|i: int| 0 <= i < line.len() implies line[i] != '\n' by {
        if 6 <= i < 6 + d.len() {
            assert(line[i] == d[i - 6]);
            assert(is_digit(d[i - 6]));
        }
    }
    assert(!line.contains('\n'));
}


/// Running one line is one step.
proof fn lemma_run_one(st: ParseState, a: Seq<char>)
    ensures
        run_lines(st, seq![a]) == step(st, a),
{
    assert(seq![a][0] == a);
    assert(seq![a].drop_first() == Seq::<Seq<char>>::empty());
    assert(run_lines(step(st, a), Seq::<Seq<char>>::empty()) == step(st, a));
}

/// Running a list of lines one by one.
proof fn lemma_run_cons(st: ParseState, a: Seq<char>, rest: Seq<Seq<char>>)
    ensures
        run_lines(st, seq![a] + rest) == run_lines(step(st, a), rest),
{
    assert((seq![a] + rest)[0] == a);
    assert((seq![a] + rest).drop_first() == rest);
}

/// The album-wide tags that the template's `[Global]` section reads back as.
pub open spec fn template_global(album: Option<Seq<char>>, date: Option<Seq<char>>) -> GlobalModel {
    GlobalModel {
        album: Some(or_empty(album)),
        composer: Some(Seq::empty()),
        genre: Some(Seq::empty()),
        date: date,
        ..empty_global()
    }
}

/// The state after the `[Global]` section of the template.
pub open spec fn global_read_state(album: Option<Seq<char>>, date: Option<Seq<char>>) -> ParseState {
    ParseState { global: template_global(album, date), ..initial_state() }
}

/// The lengths and distinguishing characters of the field names.
proof fn lemma_field_names()
    ensures
        "album"@.len() == 5,
        "album"@[0] == 'a',
        "albumartist"@.len() == 11,
        "albumartist"@[0] == 'a',
        "composer"@.len() == 8,
        "composer"@[0] == 'c',
        "genre"@.len() == 5,
        "genre"@[0] == 'g',
        "date"@.len() == 4,
        "date"@[0] == 'd',
        "date"@[1] == 'a',
        "comment"@.len() == 7,
        "comment"@[0] == 'c',
        "conductor"@.len() == 9,
        "conductor"@[0] == 'c',
        "conductor"@[2] == 'n',
        "publisher"@.len() == 9,
        "publisher"@[0] == 'p',
        "copyright"@.len() == 9,
        "copyright"@[0] == 'c',
        "copyright"@[2] == 'p',
        "file"@.len() == 4,
        "file"@[0] == 'f',
        "number"@.len() == 6,
        "number"@[0] == 'n',
        "title"@.len() == 5,
        "title"@[0] == 't',
        "artist"@.len() == 6,
        "artist"@[0] == 'a',
        "disc"@.len() == 4,
        "disc"@[0] == 'd',
        "disc"@[1] == 'i',
{
    reveal_strlit("album");
    reveal_strlit("albumartist");
    reveal_strlit("composer");
    reveal_strlit("genre");
    reveal_strlit("date");
    reveal_strlit("comment");
    reveal_strlit("conductor");
    reveal_strlit("publisher");
    reveal_strlit("copyright");
    reveal_strlit("file");
    reveal_strlit("number");
    reveal_strlit("title");
    reveal_strlit("artist");
    reveal_strlit("disc");
}

/// Reading the `[Global]` section of the template.
proof fn lemma_run_global(album: Option<Seq<char>>, date: Option<Seq<char>>)
    requires
        album is Some ==> quotable(album.unwrap()),
        date is Some ==> quotable(date.unwrap()),
    ensures
        run_lines(initial_state(), global_lines(album, date)) == global_read_state(album, date),
{
    lemma_template_keys();
    lemma_template_keys_plain();
    lemma_field_names();
    let s0 = initial_state();
    let head = seq!["[Global]"@, kv_line("Album"@, album), kv_line("Album Artist"@, None)];
    let mid = match date {
        Some(d) => seq![kv_line("Date"@, Some(d))],
        None => Seq::<Seq<char>>::empty(),
    };
    let tail = seq![kv_line("Genre"@, None), kv_line("Composer"@, None), Seq::<char>::empty()];
    lemma_run_lines_concat(s0, head + mid, tail);
    lemma_run_lines_concat(s0, head, mid);
    assert(head == seq!["[Global]"@] + seq![kv_line("Album"@, album), kv_line("Album Artist"@, None)]);
    lemma_run_cons(s0, "[Global]"@, seq![kv_line("Album"@, album), kv_line("Album Artist"@, None)]);
    lemma_step_global(s0);
    assert(seq![kv_line("Album"@, album), kv_line("Album Artist"@, None)] == seq![
        kv_line("Album"@, album),
    ] + seq![kv_line("Album Artist"@, None)]);
    lemma_run_cons(s0, kv_line("Album"@, album), seq![kv_line("Album Artist"@, None)]);
    lemma_step_kv(s0, "Album"@, album);
    let s1 = step(s0, kv_line("Album"@, album));
    assert(s1 == ParseState {
        global: GlobalModel { album: Some(or_empty(album)), ..empty_global() },
        ..s0
    });
    lemma_run_one(s1, kv_line("Album Artist"@, None));
    lemma_step_kv(s1, "Album Artist"@, None);
    let s2 = step(s1, kv_line("Album Artist"@, None));
    assert(s2 == s1);
    let s3 = run_lines(s2, mid);
    match date {
        Some(d) => {
            lemma_run_one(s2, kv_line("Date"@, Some(d)));
            lemma_step_kv(s2, "Date"@, Some(d));
            assert(s3 == ParseState {
                global: GlobalModel { album: Some(or_empty(album)), date: Some(d), ..empty_global() },
                ..s0
            });
        },
        None => {
            assert(s3 == s2);
        },
    }
    assert(tail == seq![kv_line("Genre"@, None)] + seq![kv_line("Composer"@, None), Seq::<char>::empty()]);
    lemma_run_cons(s3, kv_line("Genre"@, None), seq![kv_line("Composer"@, None), Seq::<char>::empty()]);
    lemma_step_kv(s3, "Genre"@, None);
    let s4 = step(s3, kv_line("Genre"@, None));
    assert(seq![kv_line("Composer"@, None), Seq::<char>::empty()] == seq![kv_line("Composer"@, None)]
        + seq![Seq::<char>::empty()]);
    lemma_run_cons(s4, kv_line("Composer"@, None), seq![Seq::<char>::empty()]);
    lemma_step_kv(s4, "Composer"@, None);
    let s5 = step(s4, kv_line("Composer"@, None));
    lemma_run_one(s5, Seq::<char>::empty());
    lemma_step_blank(s5);
    assert(s5 == global_read_state(album, date));
}


/// Reading the disc marker of the template.
proof fn lemma_run_disc(st: ParseState, disc: Option<nat>)
    requires
        (st.disc is None),
    ensures
        run_lines(st, disc_lines(disc)) == (ParseState { disc: disc_read_back(disc), ..st }),
{
    match disc {
        Some(n) => {
            let a = "[Disc "@ + decimal(n) + "]"@;
            assert(seq![a, Seq::<char>::empty()] == seq![a] + seq![Seq::<char>::empty()]);
            lemma_run_cons(st, a, seq![Seq::<char>::empty()]);
            lemma_step_disc(st, n);
            lemma_run_one(step(st, a), Seq::<char>::empty());
            lemma_step_blank(step(st, a));
        },
        None => {
            assert(run_lines(st, Seq::<Seq<char>>::empty()) == st);
        },
    }
}

/// A track of the template that reads back intact: a quotable file name and
/// title, and a number fit for the header.
pub open spec fn readable_track(t: TemplateTrackModel) -> bool {
    &&& quotable(t.file)
    &&& (t.title is Some ==> quotable(t.title.unwrap()))
    &&& header_number_ok(t.number)
}

/// The track that a track section reads back as, before its disc is known.
pub open spec fn open_track(t: TemplateTrackModel) -> TrackModel {
    TrackModel { file: t.file, number: t.number, title: Some(or_empty(t.title)), ..empty_track() }
}

/// The track that a track section reads back as, with the disc in effect.
pub open spec fn read_back_track(t: TemplateTrackModel, disc: Option<u8>) -> TrackModel {
    TrackModel { disc: disc, ..open_track(t) }
}

/// The state once a track section is read: the track under way finished, the
/// new one under way.
pub open spec fn after_track(st: ParseState, t: TemplateTrackModel) -> ParseState {
    ParseState { tracks: flush_track(st), current: Some(open_track(t)), ..st }
}

/// Reading one track section of the template.
proof fn lemma_run_track(st: ParseState, t: TemplateTrackModel)
    requires
        readable_track(t),
    ensures
        run_lines(st, track_lines(t)) == after_track(st, t),
{
    lemma_template_keys();
    lemma_template_keys_plain();
    lemma_field_names();
    let a = track_header(t.number);
    let b = kv_line("File"@, Some(t.file));
    let c = kv_line("Title"@, t.title);
    let d = kv_line("Artist"@, None);
    let e = Seq::<char>::empty();
    assert(track_lines(t) == seq![a] + seq![b, c, d, e]);
    assert(seq![b, c, d, e] == seq![b] + seq![c, d, e]);
    assert(seq![c, d, e] == seq![c] + seq![d, e]);
    assert(seq![d, e] == seq![d] + seq![e]);
    lemma_run_cons(st, a, seq![b, c, d, e]);
    lemma_step_track_header(st, t.number);
    let s1 = step(st, a);
    lemma_run_cons(s1, b, seq![c, d, e]);
    lemma_step_kv(s1, "File"@, Some(t.file));
    let s2 = step(s1, b);
    lemma_run_cons(s2, c, seq![d, e]);
    lemma_step_kv(s2, "Title"@, t.title);
    let s3 = step(s2, c);
    lemma_run_cons(s3, d, seq![e]);
    lemma_step_kv(s3, "Artist"@, None);
    let s4 = step(s3, d);
    lemma_run_one(s4, e);
    lemma_step_blank(s4);
    assert(s4 == after_track(st, t));
}

/// The tracks of the template, read back with the disc in effect.
pub open spec fn read_back_tracks(ts: Seq<TemplateTrackModel>, disc: Option<u8>) -> Seq<TrackModel> {
    ts.map_values(|t: TemplateTrackModel| read_back_track(t, disc))
}

/// The state once the track sections of `ts` are read.
pub open spec fn after_tracks(st: ParseState, ts: Seq<TemplateTrackModel>) -> ParseState {
    if ts.len() == 0 {
        st
    } else {
        ParseState {
            tracks: st.tracks + read_back_tracks(ts.drop_last(), st.disc),
            current: Some(open_track(ts.last())),
            ..st
        }
    }
}

/// Reading the track sections of the template.
proof fn lemma_run_tracks(st: ParseState, ts: Seq<TemplateTrackModel>)
    requires
        (st.current is None),
        forall|i: int| 0 <= i < ts.len() ==> readable_track(#[trigger] ts[i]),
    ensures
        run_lines(st, tracks_lines(ts)) == after_tracks(st, ts),
    decreases ts.len(),
{
    if ts.len() > 0 {
        let init = ts.drop_last();
        assert forall|i: int| 0 <= i < init.len() implies readable_track(#[trigger] init[i]) by {
            assert(init[i] == ts[i]);
        }
        lemma_run_tracks(st, init);
        lemma_run_lines_concat(st, tracks_lines(init), track_lines(ts.last()));
        assert(readable_track(ts[ts.len() - 1]));
        lemma_run_track(run_lines(st, tracks_lines(init)), ts.last());
        if init.len() == 0 {
            assert(read_back_tracks(init, st.disc) == Seq::<TrackModel>::empty());
            assert(st.tracks + Seq::<TrackModel>::empty() == st.tracks);
        } else {
            assert(init.drop_last().push(init.last()) == init);
            assert(read_back_tracks(init, st.disc) == read_back_tracks(init.drop_last(), st.disc).push(
                read_back_track(init.last(), st.disc),
            ));
            assert(st.tracks + read_back_tracks(init, st.disc) == (st.tracks + read_back_tracks(
                init.drop_last(),
                st.disc,
            )).push(read_back_track(init.last(), st.disc)));
        }
    } else {
        assert(run_lines(st, Seq::<Seq<char>>::empty()) == st);
    }
}

/// The album, the date and the tracks read back intact from the template.
pub open spec fn readable_template(
    album: Option<Seq<char>>,
    date: Option<Seq<char>>,
    tracks: Seq<TemplateTrackModel>,
) -> bool {
    &&& (album is Some ==> quotable(album.unwrap()))
    &&& (date is Some ==> quotable(date.unwrap()))
    &&& forall|i: int| 0 <= i < tracks.len() ==> readable_track(#[trigger] tracks[i])
}

/// Every line of the template is a plain line.
proof fn lemma_template_lines_plain(
    album: Option<Seq<char>>,
    date: Option<Seq<char>>,
    disc: Option<nat>,
    tracks: Seq<TemplateTrackModel>,
)
    requires
        readable_template(album, date, tracks),
    ensures
        forall|i: int|
            0 <= i < template_lines(album, date, disc, tracks).len() ==> plain_line(
                #[trigger] template_lines(album, date, disc, tracks)[i],
            ),
{
    lemma_template_keys_plain();
    reveal_strlit("[Global]");
    lemma_kv_plain("Album"@, album);
    lemma_kv_plain("Album Artist"@, None);
    lemma_kv_plain("Genre"@, None);
    lemma_kv_plain("Composer"@, None);
    if let Some(d) = date {
        lemma_kv_plain("Date"@, Some(d));
    }
    assert(plain_line("[Global]"@));
    assert(plain_line(Seq::<char>::empty()));
    let g = global_lines(album, date);
    assert forall|i: int| 0 <= i < g.len() implies plain_line(#[trigger] g[i]) by {}
    let dl = disc_lines(disc);
    if let Some(n) = disc {
        lemma_disc_plain(n);
    }
    assert forall|i: int| 0 <= i < dl.len() implies plain_line(#[trigger] dl[i]) by {}
    lemma_tracks_lines_plain(tracks);
    let tl = tracks_lines(tracks);
    let all = template_lines(album, date, disc, tracks);
    assert forall|i: int| 0 <= i < all.len() implies plain_line(#[trigger] all[i]) by {
        if i < g.len() {
            assert(all[i] == g[i]);
        } else if i < g.len() + dl.len() {
            assert(all[i] == dl[i - g.len()]);
        } else {
            assert(all[i] == tl[i - g.len() - dl.len()]);
        }
    }
}

/// Every line of the track sections is a plain line.
proof fn lemma_tracks_lines_plain(ts: Seq<TemplateTrackModel>)
    requires
        forall|i: int| 0 <= i < ts.len() ==> readable_track(#[trigger] ts[i]),
    ensures
        forall|i: int| 0 <= i < tracks_lines(ts).len() ==> plain_line(#[trigger] tracks_lines(ts)[i]),
    decreases ts.len(),
{
    if ts.len() > 0 {
        let init = ts.drop_last();
        assert forall|i: int| 0 <= i < init.len() implies readable_track(#[trigger] init[i]) by {
            assert(init[i] == ts[i]);
        }
        lemma_tracks_lines_plain(init);
        let t = ts.last();
        assert(readable_track(ts[ts.len() - 1]));
        lemma_template_keys_plain();
        lemma_header_plain(t.number);
        lemma_kv_plain("File"@, Some(t.file));
        lemma_kv_plain("Title"@, t.title);
        lemma_kv_plain("Artist"@, None);
        assert(plain_line(Seq::<char>::empty()));
        let a = tracks_lines(init);
        let b = track_lines(t);
        assert forall|i: int| 0 <= i < b.len() implies plain_line(#[trigger] b[i]) by {}
        assert forall|i: int| 0 <= i < (a + b).len() implies plain_line(#[trigger] (a + b)[i]) by {
            if i < a.len() {
                assert((a + b)[i] == a[i]);
            } else {
                assert((a + b)[i] == b[i - a.len()]);
            }
        }
    }
}

/// Reading back a generated template gives what was put into it: the album
/// (the empty text when there was none) and the date; empty genre and
/// composer; and each track, in the template's order, with its file, number
/// and title (the empty text when there was none), and the disc of the template
/// when it fits in a `u8`. It holds when no value holds a newline or has a
/// double quote at either end, and each track number is a non-blank text that
/// does not start or end with whitespace.
pub proof fn lemma_template_reads_back(
    album: Option<Seq<char>>,
    date: Option<Seq<char>>,
    disc: Option<nat>,
    tracks: Seq<TemplateTrackModel>,
)
    requires
        readable_template(album, date, tracks),
    ensures
        config_of(template_text(album, date, disc, tracks)) == (
            template_global(album, date),
            read_back_tracks(tracks, disc_read_back(disc)),
        ),
{
    lemma_template_block(album, date, disc, tracks);
    lemma_template_lines_plain(album, date, disc, tracks);
    lemma_lines_block(template_lines(album, date, disc, tracks));
    let g = global_lines(album, date);
    let dl = disc_lines(disc);
    let tl = tracks_lines(tracks);
    lemma_run_lines_concat(initial_state(), g + dl, tl);
    lemma_run_lines_concat(initial_state(), g, dl);
    lemma_run_global(album, date);
    let sg = global_read_state(album, date);
    lemma_run_disc(sg, disc);
    let sd = ParseState { disc: disc_read_back(disc), ..sg };
    lemma_run_tracks(sd, tracks);
    let st = after_tracks(sd, tracks);
    if tracks.len() == 0 {
        assert(read_back_tracks(tracks, disc_read_back(disc)) == Seq::<TrackModel>::empty());
    } else {
        assert(tracks.drop_last().push(tracks.last()) == tracks);
        assert(read_back_tracks(tracks, disc_read_back(disc)) == read_back_tracks(
            tracks.drop_last(),
            disc_read_back(disc),
        ).push(read_back_track(tracks.last(), disc_read_back(disc))));
        assert(Seq::<TrackModel>::empty() + read_back_tracks(tracks.drop_last(), disc_read_back(disc))
            == read_back_tracks(tracks.drop_last(), disc_read_back(disc)));
    }
}


/// A value written without quotes that reads back as itself: not empty, no
/// newline, no whitespace or double quote at either end.
pub open spec fn bare_value(v: Seq<char>) -> bool {
    &&& v.len() > 0
    &&& !v.contains('\n')
    &&& !is_ws(v[0])
    &&& !is_ws(v.last())
    &&& v[0] != '"'
    &&& v.last() != '"'
}

/// A `key = value` line with the value written without quotes.
pub open spec fn bare_line(key: Seq<char>, v: Seq<char>) -> Seq<char> {
    key + " = "@ + v
}

/// Reading a `key = value` line whose value is written without quotes sets
/// that value.
pub proof fn lemma_step_bare(st: ParseState, key: Seq<char>, v: Seq<char>)
    requires
        plain_key(key),
        bare_value(v),
    ensures
        step(st, bare_line(key, v)) == apply_field(st, normalized_key(key), v, true),
{
    reveal_strlit(" = ");
    let line = bare_line(key, v);
    assert(line == key + seq![' ', '='] + (seq![' '] + v));
    lemma_trim_fixed(line);
    lemma_letter_line(st, line);
    lemma_kv_split(key, seq![' '] + v);
    let sv = seq![' '] + v;
    lemma_trim_start_skip(sv, false, 1);
    assert(sv.skip(1) == v);
    lemma_trim_fixed(v);
    lemma_trim_start_stop(v, true);
    lemma_trim_end_stop(v, true);
}

/// The other keys that a configuration may hold are plain keys, and their
/// normalized forms are the field names.
pub proof fn lemma_other_keys()
    ensures
        plain_key("Number"@),
        normalized_key("Number"@) == "number"@,
        plain_key("Disc"@),
        normalized_key("Disc"@) == "disc"@,
        plain_key("Comment"@),
        normalized_key("Comment"@) == "comment"@,
        plain_key("Conductor"@),
        normalized_key("Conductor"@) == "conductor"@,
        plain_key("Publisher"@),
        normalized_key("Publisher"@) == "publisher"@,
        plain_key("Copyright"@),
        normalized_key("Copyright"@) == "copyright"@,
{
    reveal_strlit("Number");
    reveal_strlit("number");
    assert("Number"@.map_values(|c: char| ascii_lower(c)) == "number"@);
    lemma_simple_key("Number"@, "number"@);
    reveal_strlit("Disc");
    reveal_strlit("disc");
    assert("Disc"@.map_values(|c: char| ascii_lower(c)) == "disc"@);
    lemma_simple_key("Disc"@, "disc"@);
    reveal_strlit("Comment");
    reveal_strlit("comment");
    assert("Comment"@.map_values(|c: char| ascii_lower(c)) == "comment"@);
    lemma_simple_key("Comment"@, "comment"@);
    reveal_strlit("Conductor");
    reveal_strlit("conductor");
    assert("Conductor"@.map_values(|c: char| ascii_lower(c)) == "conductor"@);
    lemma_simple_key("Conductor"@, "conductor"@);
    reveal_strlit("Publisher");
    reveal_strlit("publisher");
    assert("Publisher"@.map_values(|c: char| ascii_lower(c)) == "publisher"@);
    lemma_simple_key("Publisher"@, "publisher"@);
    reveal_strlit("Copyright");
    reveal_strlit("copyright");
    assert("Copyright"@.map_values(|c: char| ascii_lower(c)) == "copyright"@);
    lemma_simple_key("Copyright"@, "copyright"@);
}


/// Within a track section, a `Key = v` line sets that one tag of the track to
/// `v` (the file to `v`), leaves its other tags alone, and leaves the
/// album-wide tags, the finished tracks and the disc alone. Album-wide keys
/// there change nothing.
pub proof fn lemma_track_key_lines(st: ParseState, v: Seq<char>)
    requires
        (st.current is Some),
        bare_value(v),
    ensures
        step(st, bare_line("File"@, v)).current == Some(
            TrackModel { file: v, ..st.current.unwrap() },
        ),
        step(st, bare_line("Title"@, v)).current == Some(
            TrackModel { title: Some(v), ..st.current.unwrap() },
        ),
        step(st, bare_line("Number"@, v)).current == Some(
            TrackModel { number: Some(v), ..st.current.unwrap() },
        ),
        step(st, bare_line("Composer"@, v)).current == Some(
            TrackModel { composer: Some(v), ..st.current.unwrap() },
        ),
        step(st, bare_line("Genre"@, v)).current == Some(
            TrackModel { genre: Some(v), ..st.current.unwrap() },
        ),
        step(st, bare_line("Date"@, v)).current == Some(
            TrackModel { date: Some(v), ..st.current.unwrap() },
        ),
        step(st, bare_line("Comment"@, v)).current == Some(
            TrackModel { comment: Some(v), ..st.current.unwrap() },
        ),
        step(st, bare_line("Conductor"@, v)).current == Some(
            TrackModel { conductor: Some(v), ..st.current.unwrap() },
        ),
        step(st, bare_line("Title"@, v)).global == st.global,
        step(st, bare_line("Title"@, v)).tracks == st.tracks,
        step(st, bare_line("Title"@, v)).disc == st.disc,
        step(st, bare_line("Album"@, v)) == st,
        step(st, bare_line("Album Artist"@, v)) == st,
        step(st, bare_line("Publisher"@, v)) == st,
        step(st, bare_line("Copyright"@, v)) == st,
{
    lemma_template_keys();
    lemma_template_keys_plain();
    lemma_other_keys();
    lemma_field_names();
    lemma_step_bare(st, "File"@, v);
    lemma_step_bare(st, "Title"@, v);
    lemma_step_bare(st, "Number"@, v);
    lemma_step_bare(st, "Composer"@, v);
    lemma_step_bare(st, "Genre"@, v);
    lemma_step_bare(st, "Date"@, v);
    lemma_step_bare(st, "Comment"@, v);
    lemma_step_bare(st, "Conductor"@, v);
    lemma_step_bare(st, "Album"@, v);
    lemma_step_bare(st, "Album Artist"@, v);
    lemma_step_bare(st, "Publisher"@, v);
    lemma_step_bare(st, "Copyright"@, v);
}

/// Within a track section, `Disc = N` sets the track's disc to `N` when `N`
/// fits in a `u8`, and leaves it alone otherwise.
pub proof fn lemma_track_disc_line(st: ParseState, n: nat)
    requires
        (st.current is Some),
    ensures
        n <= 255 ==> step(st, bare_line("Disc"@, decimal(n))).current == Some(
            TrackModel { disc: Some(n as u8), ..st.current.unwrap() },
        ),
        n > 255 ==> step(st, bare_line("Disc"@, decimal(n))) == st,
{
    lemma_other_keys();
    lemma_field_names();
    let d = decimal(n);
    lemma_decimal_digits(n);
    assert(is_digit(d[0]) && is_digit(d.last()));
    assert(!d.contains('\n')) by {
        if d.contains('\n') {
            let i = choose|i: int| 0 <= i < d.len() && d[i] == '\n';
            assert(is_digit(d[i]));
        }
    }
    lemma_step_bare(st, "Disc"@, d);
    if n <= 255 {
        lemma_parse_decimal(n, 255);
    } else {
        assert(parse_unsigned(d, 255) is None);
    }
}

/// Before the first track section, a `Key = v` line sets that album-wide tag
/// to `v`, `Album Artist = v` adds `v` after the album artists read so far,
/// and track keys change nothing; no track begins.
pub proof fn lemma_global_key_lines(st: ParseState, v: Seq<char>)
    requires
        (st.current is None),
        bare_value(v),
    ensures
        step(st, bare_line("Album"@, v)).global == (GlobalModel { album: Some(v), ..st.global }),
        step(st, bare_line("Composer"@, v)).global == (GlobalModel { composer: Some(v), ..st.global }),
        step(st, bare_line("Genre"@, v)).global == (GlobalModel { genre: Some(v), ..st.global }),
        step(st, bare_line("Date"@, v)).global == (GlobalModel { date: Some(v), ..st.global }),
        step(st, bare_line("Comment"@, v)).global == (GlobalModel { comment: Some(v), ..st.global }),
        step(st, bare_line("Conductor"@, v)).global == (GlobalModel { conductor: Some(v), ..st.global }),
        step(st, bare_line("Publisher"@, v)).global == (GlobalModel { publisher: Some(v), ..st.global }),
        step(st, bare_line("Copyright"@, v)).global == (GlobalModel { copyright: Some(v), ..st.global }),
        step(st, bare_line("Album Artist"@, v)).global == (GlobalModel {
            album_artist: st.global.album_artist.push(v),
            ..st.global
        }),
        step(st, bare_line("Album"@, v)).current is None,
        step(st, bare_line("Album"@, v)).tracks == st.tracks,
        step(st, bare_line("Album"@, v)).disc == st.disc,
        step(st, bare_line("Title"@, v)) == st,
        step(st, bare_line("File"@, v)) == st,
        step(st, bare_line("Artist"@, v)) == st,
        step(st, bare_line("Number"@, v)) == st,
{
    lemma_template_keys();
    lemma_template_keys_plain();
    lemma_other_keys();
    lemma_field_names();
    lemma_step_bare(st, "Album"@, v);
    lemma_step_bare(st, "Album Artist"@, v);
    lemma_step_bare(st, "Composer"@, v);
    lemma_step_bare(st, "Genre"@, v);
    lemma_step_bare(st, "Date"@, v);
    lemma_step_bare(st, "Comment"@, v);
    lemma_step_bare(st, "Conductor"@, v);
    lemma_step_bare(st, "Publisher"@, v);
    lemma_step_bare(st, "Copyright"@, v);
    lemma_step_bare(st, "Title"@, v);
    lemma_step_bare(st, "File"@, v);
    lemma_step_bare(st, "Artist"@, v);
    lemma_step_bare(st, "Number"@, v);
}

/// Lines `Artist = v` for each `v` of `vs`, the values written without quotes.
pub open spec fn artist_lines(vs: Seq<Seq<char>>) -> Seq<Seq<char>> {
    vs.map_values(|v: Seq<char>| bare_line("Artist"@, v))
}

/// Within a track section, an `Artist = v` line adds `v` after the artists read
/// so far and changes nothing else; `Artist = "v"` does the same.
pub proof fn lemma_artist_line_appends(st: ParseState, v: Seq<char>)
    requires
        (st.current is Some),
        bare_value(v),
    ensures
        step(st, bare_line("Artist"@, v)).current == Some(
            TrackModel { artist: st.current.unwrap().artist.push(v), ..st.current.unwrap() },
        ),
        step(st, kv_line("Artist"@, Some(v))).current == Some(
            TrackModel { artist: st.current.unwrap().artist.push(v), ..st.current.unwrap() },
        ),
        step(st, bare_line("Artist"@, v)).global == st.global,
        step(st, bare_line("Artist"@, v)).tracks == st.tracks,
        step(st, bare_line("Artist"@, v)).disc == st.disc,
{
    lemma_template_keys();
    lemma_template_keys_plain();
    lemma_field_names();
    lemma_step_bare(st, "Artist"@, v);
    lemma_step_kv(st, "Artist"@, Some(v));
    assert(quotable(v));
}

/// Within a track section, an `Artist =` line with nothing after the `=`
/// changes nothing.
pub proof fn lemma_empty_artist_line_ignored(st: ParseState)
    requires
        (st.current is Some),
    ensures
        step(st, kv_line("Artist"@, None)) == st,
{
    lemma_template_keys();
    lemma_template_keys_plain();
    lemma_field_names();
    lemma_step_kv(st, "Artist"@, None);
}

/// Within a track section, a run of `Artist = v` lines adds the values, in
/// order, after the artists read so far: the artists are accumulated, one per
/// line, and no other tag or state changes.
pub proof fn lemma_artist_lines_accumulate(st: ParseState, vs: Seq<Seq<char>>)
    requires
        (st.current is Some),
        forall|i: int| 0 <= i < vs.len() ==> bare_value(#[trigger] vs[i]),
    ensures
        run_lines(st, artist_lines(vs)).current == Some(
            TrackModel { artist: st.current.unwrap().artist + vs, ..st.current.unwrap() },
        ),
        run_lines(st, artist_lines(vs)).current.unwrap().artist.len() == st.current.unwrap().artist.len()
            + vs.len(),
        run_lines(st, artist_lines(vs)).global == st.global,
        run_lines(st, artist_lines(vs)).tracks == st.tracks,
        run_lines(st, artist_lines(vs)).disc == st.disc,
    decreases vs.len(),
{
    let t = st.current.unwrap();
    if vs.len() == 0 {
        assert(artist_lines(vs) == Seq::<Seq<char>>::empty());
        assert(t.artist + vs == t.artist);
    } else {
        let ls = artist_lines(vs);
        assert(ls[0] == bare_line("Artist"@, vs[0]));
        assert(ls.drop_first() == artist_lines(vs.drop_first()));
        lemma_artist_line_appends(st, vs[0]);
        let s1 = step(st, ls[0]);
        assert forall|i: int| 0 <= i < vs.drop_first().len() implies bare_value(
            #[trigger] vs.drop_first()[i],
        ) by {
            assert(vs.drop_first()[i] == vs[i + 1]);
        }
        lemma_artist_lines_accumulate(s1, vs.drop_first());
        assert(t.artist.push(vs[0]) + vs.drop_first() == t.artist + vs);
    }
}

} // verus!

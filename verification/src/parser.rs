//! The tag configuration file: an INI-like text with a `[Global]` section,
//! optional `[Disc N]` markers and one `[Track ...]` section per track.

use vstd::prelude::*;
use crate::bindings::{lowercase, push_char, to_lowercase};
use crate::text::{
    chars_of, find_char, is_first, is_white_space, is_ws, lemma_first_unique,
    lemma_split_once_absent, lemma_split_once_found, opt_view, parse_unsigned, parse_unsigned_range,
    range_eq, range_has_prefix, same_text, split_once, string_of, trim, trim_quotes, trim_range, trim_range_with,
    trim_str, views,
};

verus! {

/// Album-wide tags.
#[derive(Debug, Clone)]
pub struct GlobalMeta {
    pub album: Option<String>,
    pub album_artist: Vec<String>,
    pub composer: Option<String>,
    pub genre: Option<String>,
    pub date: Option<String>,
    pub comment: Option<String>,
    pub conductor: Option<String>,
    pub publisher: Option<String>,
    pub copyright: Option<String>,
}

/// Tags of one track.
#[derive(Debug, Clone)]
pub struct TrackMeta {
    pub file: String,
    pub number: Option<String>,
    pub title: Option<String>,
    pub artist: Vec<String>,
    pub disc: Option<u8>,
    pub composer: Option<String>,
    pub genre: Option<String>,
    pub date: Option<String>,
    pub comment: Option<String>,
    pub conductor: Option<String>,
}

/// The value of a `GlobalMeta`.
pub struct GlobalModel {
    pub album: Option<Seq<char>>,
    pub album_artist: Seq<Seq<char>>,
    pub composer: Option<Seq<char>>,
    pub genre: Option<Seq<char>>,
    pub date: Option<Seq<char>>,
    pub comment: Option<Seq<char>>,
    pub conductor: Option<Seq<char>>,
    pub publisher: Option<Seq<char>>,
    pub copyright: Option<Seq<char>>,
}

/// The value of a `TrackMeta`.
pub struct TrackModel {
    pub file: Seq<char>,
    pub number: Option<Seq<char>>,
    pub title: Option<Seq<char>>,
    pub artist: Seq<Seq<char>>,
    pub disc: Option<u8>,
    pub composer: Option<Seq<char>>,
    pub genre: Option<Seq<char>>,
    pub date: Option<Seq<char>>,
    pub comment: Option<Seq<char>>,
    pub conductor: Option<Seq<char>>,
}

impl View for GlobalMeta {
    type V = GlobalModel;

    open spec fn view(&self) -> GlobalModel {
        GlobalModel {
            album: opt_view(self.album),
            album_artist: views(self.album_artist@),
            composer: opt_view(self.composer),
            genre: opt_view(self.genre),
            date: opt_view(self.date),
            comment: opt_view(self.comment),
            conductor: opt_view(self.conductor),
            publisher: opt_view(self.publisher),
            copyright: opt_view(self.copyright),
        }
    }
}

impl View for TrackMeta {
    type V = TrackModel;

    open spec fn view(&self) -> TrackModel {
        TrackModel {
            file: self.file@,
            number: opt_view(self.number),
            title: opt_view(self.title),
            artist: views(self.artist@),
            disc: self.disc,
            composer: opt_view(self.composer),
            genre: opt_view(self.genre),
            date: opt_view(self.date),
            comment: opt_view(self.comment),
            conductor: opt_view(self.conductor),
        }
    }
}

/// The values of a list of tracks.
pub open spec fn track_views(v: Seq<TrackMeta>) -> Seq<TrackModel> {
    v.map_values(|t: TrackMeta| t@)
}

/// No album-wide tag set.
pub open spec fn empty_global() -> GlobalModel {
    GlobalModel {
        album: None,
        album_artist: Seq::empty(),
        composer: None,
        genre: None,
        date: None,
        comment: None,
        conductor: None,
        publisher: None,
        copyright: None,
    }
}

/// A track with no file and no tag.
pub open spec fn empty_track() -> TrackModel {
    TrackModel {
        file: Seq::empty(),
        number: None,
        title: None,
        artist: Seq::empty(),
        disc: None,
        composer: None,
        genre: None,
        date: None,
        comment: None,
        conductor: None,
    }
}

impl Default for GlobalMeta {
    fn default() -> (r: Self)
        ensures
            r@ == empty_global(),
    {
        let r = GlobalMeta {
            album: None,
            album_artist: Vec::new(),
            composer: None,
            genre: None,
            date: None,
            comment: None,
            conductor: None,
            publisher: None,
            copyright: None,
        };
        assert(views(r.album_artist@) == Seq::<Seq<char>>::empty());
        r
    }
}

impl Default for TrackMeta {
    fn default() -> (r: Self)
        ensures
            r@ == empty_track(),
    {
        let r = TrackMeta {
            file: String::new(),
            number: None,
            title: None,
            artist: Vec::new(),
            disc: None,
            composer: None,
            genre: None,
            date: None,
            comment: None,
            conductor: None,
        };
        assert(views(r.artist@) == Seq::<Seq<char>>::empty());
        r
    }
}

/// `s` without its whitespace characters.
pub open spec fn without_ws(s: Seq<char>) -> Seq<char> {
    s.filter(|c: char| !is_ws(c))
}

/// A key as the configuration compares it: trimmed, lowercased, and with all
/// whitespace removed, so that `Album Artist` and `albumartist` are one key.
pub open spec fn normalized_key(k: Seq<char>) -> Seq<char> {
    without_ws(lowercase(trim(k)))
}

/// `s` without its whitespace (`split_whitespace` joined with nothing between).
pub fn strip_whitespace(s: &str) -> (r: String)
    ensures
        r@ == without_ws(s@),
        forall|i: int| 0 <= i < r@.len() ==> !is_ws(#[trigger] r@[i]),
{
    let cs = chars_of(s);
    let mut r = String::new();
    let mut i: usize = 0;
    while i < cs.len()
        invariant
            i <= cs@.len(),
            r@ == without_ws(cs@.take(i as int)),
        decreases cs.len() - i,
    {
        proof {
            reveal(Seq::filter);
            assert(cs@.take(i + 1).drop_last() == cs@.take(i as int));
        }
        if !is_white_space(cs[i]) {
            push_char(&mut r, cs[i]);
        }
        i += 1;
    }
    assert(cs@.take(cs@.len() as int) == cs@);
    proof {
        let p = |c: char| !is_ws(c);
        assert forall|i: int| 0 <= i < r@.len() implies !is_ws(#[trigger] r@[i]) by {
            cs@.lemma_filter_pred(p, i);
        }
    }
    r
}

/// Normalizes a configuration key (see `normalized_key`).
pub fn normalize_key(key: &str) -> (r: String)
    ensures
        r@ == normalized_key(key@),
        forall|i: int| 0 <= i < r@.len() ==> !is_ws(#[trigger] r@[i]),
{
    let t = trim_str(key);
    let low = to_lowercase(t.as_str());
    assert(low@ == lowercase(t@));
    strip_whitespace(low.as_str())
}

/// The state of a reading: the album-wide tags, the finished tracks, the disc
/// of the last valid `[Disc N]` marker, and the track being read.
pub struct ParseState {
    pub global: GlobalModel,
    pub tracks: Seq<TrackModel>,
    pub disc: Option<u8>,
    pub current: Option<TrackModel>,
}

/// Nothing read yet.
pub open spec fn initial_state() -> ParseState {
    ParseState { global: empty_global(), tracks: Seq::empty(), disc: None, current: None }
}

/// A finished track: it keeps its own disc, else takes the disc in effect.
pub open spec fn close_track(t: TrackModel, disc: Option<u8>) -> TrackModel {
    TrackModel {
        disc: if t.disc is Some {
            t.disc
        } else {
            disc
        },
        ..t
    }
}

/// The state once the track being read, if any, is finished.
pub open spec fn flush_track(st: ParseState) -> Seq<TrackModel> {
    match st.current {
        Some(t) => st.tracks.push(close_track(t, st.disc)),
        None => st.tracks,
    }
}

/// Sets one tag of a track from a normalized key; `has_value` tells whether
/// anything followed the separator. Unknown keys leave the track unchanged.
pub open spec fn apply_track_field(
    t: TrackModel,
    key: Seq<char>,
    value: Seq<char>,
    has_value: bool,
) -> TrackModel {
    if key == "file"@ {
        TrackModel { file: value, ..t }
    } else if key == "number"@ {
        TrackModel { number: Some(value), ..t }
    } else if key == "title"@ {
        TrackModel { title: Some(value), ..t }
    } else if key == "artist"@ {
        if has_value {
            TrackModel { artist: t.artist.push(value), ..t }
        } else {
            t
        }
    } else if key == "disc"@ {
        match parse_unsigned(value, 255) {
            Some(n) => TrackModel { disc: Some(n as u8), ..t },
            None => t,
        }
    } else if key == "composer"@ {
        TrackModel { composer: Some(value), ..t }
    } else if key == "genre"@ {
        TrackModel { genre: Some(value), ..t }
    } else if key == "date"@ {
        TrackModel { date: Some(value), ..t }
    } else if key == "comment"@ {
        TrackModel { comment: Some(value), ..t }
    } else if key == "conductor"@ {
        TrackModel { conductor: Some(value), ..t }
    } else {
        t
    }
}

/// Sets one album-wide tag from a normalized key. Unknown keys change nothing.
pub open spec fn apply_global_field(
    g: GlobalModel,
    key: Seq<char>,
    value: Seq<char>,
    has_value: bool,
) -> GlobalModel {
    if key == "album"@ {
        GlobalModel { album: Some(value), ..g }
    } else if key == "albumartist"@ {
        if has_value {
            GlobalModel { album_artist: g.album_artist.push(value), ..g }
        } else {
            g
        }
    } else if key == "composer"@ {
        GlobalModel { composer: Some(value), ..g }
    } else if key == "genre"@ {
        GlobalModel { genre: Some(value), ..g }
    } else if key == "date"@ {
        GlobalModel { date: Some(value), ..g }
    } else if key == "comment"@ {
        GlobalModel { comment: Some(value), ..g }
    } else if key == "conductor"@ {
        GlobalModel { conductor: Some(value), ..g }
    } else if key == "publisher"@ {
        GlobalModel { publisher: Some(value), ..g }
    } else if key == "copyright"@ {
        GlobalModel { copyright: Some(value), ..g }
    } else {
        g
    }
}

/// A `key = value` line applied to the track being read, or to the album-wide
/// tags before the first track.
pub open spec fn apply_field(
    st: ParseState,
    key: Seq<char>,
    value: Seq<char>,
    has_value: bool,
) -> ParseState {
    match st.current {
        Some(t) => ParseState {
            current: Some(apply_track_field(t, key, value, has_value)),
            ..st
        },
        None => ParseState { global: apply_global_field(st.global, key, value, has_value), ..st },
    }
}

/// The key and the raw value of a line: split at the first `=`, or else at the
/// first `:`.
pub open spec fn key_value(line: Seq<char>) -> Option<(Seq<char>, Seq<char>)> {
    match split_once(line, '=') {
        Some(kv) => Some(kv),
        None => split_once(line, ':'),
    }
}

/// What the text between `[Disc` and `]` of a disc marker denotes, if the
/// marker is well formed.
pub open spec fn disc_marker(line: Seq<char>) -> Option<u8> {
    let rest = line.skip("[Disc"@.len() as int);
    if rest.len() > 0 && rest.last() == ']' {
        match parse_unsigned(trim(rest.drop_last()), 255) {
            Some(n) => Some(n as u8),
            None => None,
        }
    } else {
        None
    }
}

/// The track number that a `[Track ...]` header gives, if any.
pub open spec fn track_marker(line: Seq<char>) -> Option<Seq<char>> {
    let rest = line.skip("[Track"@.len() as int);
    if rest.len() > 0 && rest.last() == ']' && trim(rest.drop_last()).len() > 0 {
        Some(trim(rest.drop_last()))
    } else {
        None
    }
}

/// One line of the configuration applied to the state.
pub open spec fn step(st: ParseState, raw: Seq<char>) -> ParseState {
    let line = trim(raw);
    if line.len() == 0 || line[0] == ';' || line[0] == '#' {
        st
    } else if line == "[Global]"@ {
        st
    } else if "[Disc"@.is_prefix_of(line) {
        match disc_marker(line) {
            Some(n) => ParseState { disc: Some(n), ..st },
            None => st,
        }
    } else if "[Track"@.is_prefix_of(line) {
        ParseState {
            tracks: flush_track(st),
            current: Some(TrackModel { number: track_marker(line), ..empty_track() }),
            ..st
        }
    } else {
        match key_value(line) {
            Some((k, v)) => {
                let raw_value = trim(v);
                let has_value = raw_value.len() > 0;
                let value = if has_value {
                    trim_quotes(raw_value)
                } else {
                    Seq::empty()
                };
                apply_field(st, normalized_key(trim(k)), value, has_value)
            },
            None => st,
        }
    }
}

/// `l` without one trailing carriage return.
pub open spec fn strip_cr(l: Seq<char>) -> Seq<char> {
    if l.len() > 0 && l.last() == '\r' {
        l.drop_last()
    } else {
        l
    }
}

/// `str::lines`: the text split at each `\n` (a `\r` just before it is dropped
/// too); a final line ending adds no empty line.
pub open spec fn lines(s: Seq<char>) -> Seq<Seq<char>>
    decreases s.len(),
{
    if s.len() == 0 {
        Seq::empty()
    } else if exists|k: int| is_first(s, '\n', k) {
        let k = choose|k: int| is_first(s, '\n', k);
        seq![strip_cr(s.take(k))] + lines(s.skip(k + 1))
    } else {
        seq![s]
    }
}

/// The lines applied one after the other.
pub open spec fn run_lines(st: ParseState, ls: Seq<Seq<char>>) -> ParseState
    decreases ls.len(),
{
    if ls.len() == 0 {
        st
    } else {
        run_lines(step(st, ls[0]), ls.drop_first())
    }
}

/// What a configuration text says: the album-wide tags and the tracks in the
/// order of their sections.
pub open spec fn config_of(content: Seq<char>) -> (GlobalModel, Seq<TrackModel>) {
    let st = run_lines(initial_state(), lines(content));
    (st.global, flush_track(st))
}


fn set_track_field(t: &mut TrackMeta, key: &String, value: String, has_value: bool)
    ensures
        final(t)@ == apply_track_field(old(t)@, key@, value@, has_value),
{
    let k = key.as_str();
    if same_text(k, "file") {
        t.file = value;
    } else if same_text(k, "number") {
        t.number = Some(value);
    } else if same_text(k, "title") {
        t.title = Some(value);
    } else if same_text(k, "artist") {
        if has_value {
            let ghost before = t.artist@;
            t.artist.push(value);
            assert(views(t.artist@) == views(before).push(value@));
        }
    } else if same_text(k, "disc") {
        let cs = chars_of(value.as_str());
        assert(cs@.subrange(0, cs@.len() as int) == cs@);
        match parse_unsigned_range(cs.as_slice(), 0, cs.len(), 255) {
            Some(n) => {
                t.disc = Some(n as u8);
            },
            None => {},
        }
    } else if same_text(k, "composer") {
        t.composer = Some(value);
    } else if same_text(k, "genre") {
        t.genre = Some(value);
    } else if same_text(k, "date") {
        t.date = Some(value);
    } else if same_text(k, "comment") {
        t.comment = Some(value);
    } else if same_text(k, "conductor") {
        t.conductor = Some(value);
    }
}

fn set_global_field(g: &mut GlobalMeta, key: &String, value: String, has_value: bool)
    ensures
        final(g)@ == apply_global_field(old(g)@, key@, value@, has_value),
{
    let k = key.as_str();
    if same_text(k, "album") {
        g.album = Some(value);
    } else if same_text(k, "albumartist") {
        if has_value {
            let ghost before = g.album_artist@;
            g.album_artist.push(value);
            assert(views(g.album_artist@) == views(before).push(value@));
        }
    } else if same_text(k, "composer") {
        g.composer = Some(value);
    } else if same_text(k, "genre") {
        g.genre = Some(value);
    } else if same_text(k, "date") {
        g.date = Some(value);
    } else if same_text(k, "comment") {
        g.comment = Some(value);
    } else if same_text(k, "conductor") {
        g.conductor = Some(value);
    } else if same_text(k, "publisher") {
        g.publisher = Some(value);
    } else if same_text(k, "copyright") {
        g.copyright = Some(value);
    }
}

/// The reading in progress.
struct Parser {
    global: GlobalMeta,
    tracks: Vec<TrackMeta>,
    disc: Option<u8>,
    current: Option<TrackMeta>,
}

impl View for Parser {
    type V = ParseState;

    closed spec fn view(&self) -> ParseState {
        ParseState {
            global: self.global@,
            tracks: track_views(self.tracks@),
            disc: self.disc,
            current: match self.current {
                Some(t) => Some(t@),
                None => None,
            },
        }
    }
}

fn set_field(st: &mut Parser, key: &String, value: String, has_value: bool)
    ensures
        final(st)@ == apply_field(old(st)@, key@, value@, has_value),
{
    match st.current.take() {
        Some(mut t) => {
            set_track_field(&mut t, key, value, has_value);
            st.current = Some(t);
        },
        None => {
            set_global_field(&mut st.global, key, value, has_value);
        },
    }
}

/// Finishes the track being read, if any.
fn flush(st: &mut Parser)
    ensures
        track_views(final(st).tracks@) == flush_track(old(st)@),
        final(st).current is None,
        final(st).global == old(st).global,
        final(st).disc == old(st).disc,
{
    match st.current.take() {
        Some(mut t) => {
            if t.disc.is_none() {
                t.disc = st.disc;
            }
            let ghost before = st.tracks@;
            st.tracks.push(t);
            assert(track_views(st.tracks@) == track_views(before).push(t@));
        },
        None => {},
    }
}


/// Applies the line `v[lo..hi]`.
fn apply_line(st: &mut Parser, v: &[char], lo: usize, hi: usize)
    requires
        lo <= hi <= v@.len(),
    ensures
        final(st)@ == step(old(st)@, v@.subrange(lo as int, hi as int)),
{
    let (a, b) = trim_range(v, lo, hi);
    let ghost line = v@.subrange(a as int, b as int);
    if a == b || v[a] == ';' || v[a] == '#' {
        return;
    }
    assert(line[0] == v@[a as int]);
    let global_lit = chars_of("[Global]");
    if range_eq(v, a, b, global_lit.as_slice()) {
        return;
    }
    let disc_lit = chars_of("[Disc");
    if range_has_prefix(v, a, b, disc_lit.as_slice()) {
        let p = a + disc_lit.len();
        assert(line.skip("[Disc"@.len() as int) == v@.subrange(p as int, b as int));
        if p < b && v[b - 1] == ']' {
            assert(v@.subrange(p as int, b as int).drop_last() == v@.subrange(p as int, b - 1));
            let (x, y) = trim_range(v, p, b - 1);
            match parse_unsigned_range(v, x, y, 255) {
                Some(n) => {
                    st.disc = Some(n as u8);
                },
                None => {},
            }
        }
        return;
    }
    let track_lit = chars_of("[Track");
    if range_has_prefix(v, a, b, track_lit.as_slice()) {
        flush(st);
        let mut t = TrackMeta::default();
        let p = a + track_lit.len();
        assert(line.skip("[Track"@.len() as int) == v@.subrange(p as int, b as int));
        if p < b && v[b - 1] == ']' {
            assert(v@.subrange(p as int, b as int).drop_last() == v@.subrange(p as int, b - 1));
            let (x, y) = trim_range(v, p, b - 1);
            if x < y {
                t.number = Some(string_of(v, x, y));
            }
        }
        st.current = Some(t);
        return;
    }
    let sep = match find_char(v, a, b, '=') {
        Some(k) => {
            proof {
                lemma_split_once_found(v@, a as int, b as int, '=', k as int);
            }
            k
        },
        None => {
            proof {
                lemma_split_once_absent(v@, a as int, b as int, '=');
            }
            match find_char(v, a, b, ':') {
                Some(k) => {
                    proof {
                        lemma_split_once_found(v@, a as int, b as int, ':', k as int);
                    }
                    k
                },
                None => {
                    proof {
                        lemma_split_once_absent(v@, a as int, b as int, ':');
                    }
                    return;
                },
            }
        },
    };
    let (k1, k2) = trim_range(v, a, sep);
    let key = string_of(v, k1, k2);
    let norm = normalize_key(key.as_str());
    let (r1, r2) = trim_range(v, sep + 1, b);
    let has_value = r1 < r2;
    let value = if has_value {
        let (q1, q2) = trim_range_with(v, r1, r2, true);
        string_of(v, q1, q2)
    } else {
        String::new()
    };
    set_field(st, &norm, value, has_value);
}

/// Running the lines of `seq![x] + ls` applies `x` first.
proof fn lemma_run_lines_cons(st: ParseState, x: Seq<char>, ls: Seq<Seq<char>>)
    ensures
        run_lines(st, seq![x] + ls) == run_lines(step(st, x), ls),
{
    let all = seq![x] + ls;
    assert(all[0] == x);
    assert(all.drop_first() == ls);
}

/// The lines of `v[lo..n]` when its first line ends at the newline at `e`.
proof fn lemma_lines_found(v: Seq<char>, lo: int, n: int, e: int)
    requires
        0 <= lo <= e < n == v.len(),
        is_first(v.subrange(lo, n), '\n', e - lo),
    ensures
        lines(v.subrange(lo, n)) == seq![strip_cr(v.subrange(lo, e))] + lines(v.subrange(e + 1, n)),
{
    let rest = v.subrange(lo, n);
    let k = choose|k: int| is_first(rest, '\n', k);
    lemma_first_unique(rest, '\n', k, e - lo);
    assert(rest.take(e - lo) == v.subrange(lo, e));
    assert(rest.skip(e - lo + 1) == v.subrange(e + 1, n));
}

/// A text without a newline is one line.
proof fn lemma_lines_last(v: Seq<char>, lo: int, n: int)
    requires
        0 <= lo < n == v.len(),
        forall|k: int| lo <= k < n ==> v[k] != '\n',
    ensures
        lines(v.subrange(lo, n)) == seq![v.subrange(lo, n)],
{
    let rest = v.subrange(lo, n);
    assert forall|k: int| !is_first(rest, '\n', k) by {
        if 0 <= k < rest.len() {
            assert(rest[k] == v[lo + k]);
        }
    }
}

/// Reads a tag configuration text (see `config_of`): the album-wide tags, and
/// the tracks in the order of their `[Track ...]` sections.
pub fn parse_config(content: &str) -> (r: (GlobalMeta, Vec<TrackMeta>))
    ensures
        (r.0@, track_views(r.1@)) == config_of(content@),
{
    let v = chars_of(content);
    let mut st = Parser {
        global: GlobalMeta::default(),
        tracks: Vec::new(),
        disc: None,
        current: None,
    };
    let n = v.len();
    let mut pos: usize = 0;
    assert(v@.subrange(0, n as int) == v@);
    assert(track_views(st.tracks@) == Seq::<TrackModel>::empty());
    assert(st@ == initial_state());
    while pos < n
        invariant
            pos <= n == v@.len(),
            v@ == content@,
            run_lines(initial_state(), lines(v@)) == run_lines(
                st@,
                lines(v@.subrange(pos as int, n as int)),
            ),
        decreases n - pos,
    {
        match find_char(v.as_slice(), pos, n, '\n') {
            Some(e) => {
                let mut end = e;
                if end > pos && v[end - 1] == '\r' {
                    end = end - 1;
                    assert(v@.subrange(pos as int, e as int).drop_last() == v@.subrange(
                        pos as int,
                        end as int,
                    ));
                }
                proof {
                    lemma_lines_found(v@, pos as int, n as int, e as int);
                    assert(strip_cr(v@.subrange(pos as int, e as int)) == v@.subrange(
                        pos as int,
                        end as int,
                    ));
                    lemma_run_lines_cons(
                        st@,
                        v@.subrange(pos as int, end as int),
                        lines(v@.subrange(e + 1, n as int)),
                    );
                }
                apply_line(&mut st, v.as_slice(), pos, end);
                pos = e + 1;
            },
            None => {
                proof {
                    lemma_lines_last(v@, pos as int, n as int);
                    lemma_run_lines_cons(
                        st@,
                        v@.subrange(pos as int, n as int),
                        Seq::<Seq<char>>::empty(),
                    );
                    assert(seq![v@.subrange(pos as int, n as int)] + Seq::<Seq<char>>::empty()
                        == seq![v@.subrange(pos as int, n as int)]);
                }
                apply_line(&mut st, v.as_slice(), pos, n);
                pos = n;
                assert(lines(v@.subrange(n as int, n as int)) == Seq::<Seq<char>>::empty());
            },
        }
    }
    assert(lines(v@.subrange(n as int, n as int)) == Seq::<Seq<char>>::empty());
    flush(&mut st);
    (st.global, st.tracks)
}


/// Lines of text, each followed by a newline.
pub open spec fn block(ls: Seq<Seq<char>>) -> Seq<char>
    decreases ls.len(),
{
    if ls.len() == 0 {
        Seq::empty()
    } else {
        block(ls.drop_last()) + ls.last().push('\n')
    }
}

/// A line that reads back as itself: no newline in it, no carriage return at
/// its end.
pub open spec fn plain_line(l: Seq<char>) -> bool {
    &&& !l.contains('\n')
    &&& !(l.len() > 0 && l.last() == '\r')
}

/// A character that occurs has a first occurrence.
pub proof fn lemma_first_exists(s: Seq<char>, c: char, i: int)
    requires
        0 <= i < s.len(),
        s[i] == c,
    ensures
        exists|k: int| is_first(s, c, k),
    decreases i,
{
    if exists|j: int| 0 <= j < i && s[j] == c {
        let j = choose|j: int| 0 <= j < i && s[j] == c;
        lemma_first_exists(s, c, j);
    } else {
        assert(is_first(s, c, i));
    }
}

/// The lines of two texts, the first empty or ending with a newline, are the
/// lines of each.
pub proof fn lemma_lines_concat(x: Seq<char>, y: Seq<char>)
    requires
        x.len() == 0 || x.last() == '\n',
    ensures
        lines(x + y) == lines(x) + lines(y),
    decreases x.len(),
{
    if x.len() == 0 {
        assert(x + y == y);
        assert(lines(x) == Seq::<Seq<char>>::empty());
        assert(lines(x) + lines(y) == lines(y));
    } else {
        let xy = x + y;
        lemma_first_exists(x, '\n', x.len() - 1);
        let k = choose|k: int| is_first(x, '\n', k);
        assert(is_first(xy, '\n', k));
        let k2 = choose|k: int| is_first(xy, '\n', k);
        lemma_first_unique(xy, '\n', k, k2);
        assert(xy.take(k) == x.take(k));
        let rest = x.skip(k + 1);
        assert(xy.skip(k + 1) == rest + y);
        assert(rest.len() == 0 || rest.last() == '\n');
        lemma_lines_concat(rest, y);
        assert(lines(x) == seq![strip_cr(x.take(k))] + lines(rest));
        assert(lines(xy) == seq![strip_cr(x.take(k))] + lines(rest + y));
        assert(seq![strip_cr(x.take(k))] + (lines(rest) + lines(y)) == (seq![strip_cr(x.take(k))]
            + lines(rest)) + lines(y));
    }
}

/// A plain line with its newline is one line.
pub proof fn lemma_lines_one(l: Seq<char>)
    requires
        plain_line(l),
    ensures
        lines(l.push('\n')) == seq![l],
{
    let s = l.push('\n');
    assert(is_first(s, '\n', l.len() as int)) by {
        assert forall|j: int| 0 <= j < l.len() implies s[j] != '\n' by {
            assert(s[j] == l[j]);
            if l[j] == '\n' {
                assert(l.contains('\n'));
            }
        }
    }
    let k = choose|k: int| is_first(s, '\n', k);
    lemma_first_unique(s, '\n', k, l.len() as int);
    assert(s.take(l.len() as int) == l);
    assert(s.skip(l.len() as int + 1).len() == 0);
    assert(lines(s.skip(l.len() as int + 1)) == Seq::<Seq<char>>::empty());
    assert(seq![l] + Seq::<Seq<char>>::empty() == seq![l]);
}

/// A plain line ended by `\r\n` is the same one line: the carriage return
/// before the newline is dropped.
pub proof fn lemma_lines_crlf(l: Seq<char>)
    requires
        plain_line(l),
    ensures
        lines(l.push('\r').push('\n')) == seq![l],
{
    let m = l.push('\r');
    assert(!m.contains('\n')) by {
        if m.contains('\n') {
            let i = choose|i: int| 0 <= i < m.len() && m[i] == '\n';
            assert(i < l.len());
            assert(l[i] == m[i]);
            assert(l.contains('\n'));
        }
    }
    let s = m.push('\n');
    assert(is_first(s, '\n', m.len() as int)) by {
        assert forall|j: int| 0 <= j < m.len() implies s[j] != '\n' by {
            assert(s[j] == m[j]);
            if m[j] == '\n' {
                assert(m.contains('\n'));
            }
        }
    }
    let k = choose|k: int| is_first(s, '\n', k);
    lemma_first_unique(s, '\n', k, m.len() as int);
    assert(s.take(m.len() as int) == m);
    assert(m.drop_last() == l);
    assert(s.skip(m.len() as int + 1).len() == 0);
    assert(lines(s.skip(m.len() as int + 1)) == Seq::<Seq<char>>::empty());
    assert(seq![l] + Seq::<Seq<char>>::empty() == seq![l]);
}

/// Plain lines written one per line read back as the same lines.
pub proof fn lemma_lines_block(ls: Seq<Seq<char>>)
    requires
        forall|i: int| 0 <= i < ls.len() ==> plain_line(#[trigger] ls[i]),
    ensures
        lines(block(ls)) == ls,
        block(ls).len() == 0 || block(ls).last() == '\n',
    decreases ls.len(),
{
    if ls.len() > 0 {
        let init = ls.drop_last();
        assert forall|i: int| 0 <= i < init.len() implies plain_line(#[trigger] init[i]) by {
            assert(init[i] == ls[i]);
        }
        lemma_lines_block(init);
        lemma_lines_concat(block(init), ls.last().push('\n'));
        assert(plain_line(ls[ls.len() - 1]));
        lemma_lines_one(ls.last());
        assert(init + seq![ls.last()] == ls);
    }
}

/// Running two lists of lines runs the first, then the second.
pub proof fn lemma_run_lines_concat(st: ParseState, a: Seq<Seq<char>>, b: Seq<Seq<char>>)
    ensures
        run_lines(st, a + b) == run_lines(run_lines(st, a), b),
    decreases a.len(),
{
    if a.len() == 0 {
        assert(a + b == b);
    } else {
        assert((a + b)[0] == a[0]);
        assert((a + b).drop_first() == a.drop_first() + b);
        lemma_run_lines_concat(step(st, a[0]), a.drop_first(), b);
    }
}


/// A line that the reading skips: blank, or a comment starting with `;` or `#`.
pub open spec fn is_comment(raw: Seq<char>) -> bool {
    let line = trim(raw);
    line.len() == 0 || line[0] == ';' || line[0] == '#'
}

/// Blank lines and comment lines change nothing: inserting one between two
/// lines of a configuration leaves what it says unchanged.
pub proof fn lemma_comment_lines_ignored(before: Seq<char>, comment: Seq<char>, after: Seq<char>)
    requires
        before.len() == 0 || before.last() == '\n',
        plain_line(comment),
        is_comment(comment),
    ensures
        config_of(before + comment.push('\n') + after) == config_of(before + after),
{
    let c = comment.push('\n');
    assert(before + c + after == before + (c + after));
    lemma_lines_concat(before, c + after);
    lemma_lines_concat(c, after);
    lemma_lines_one(comment);
    lemma_lines_concat(before, after);
    let lb = lines(before);
    let la = lines(after);
    assert(lb + (seq![comment] + la) == (lb + seq![comment]) + la);
    lemma_run_lines_concat(initial_state(), lb + seq![comment], la);
    lemma_run_lines_concat(initial_state(), lb, seq![comment]);
    lemma_run_lines_concat(initial_state(), lb, la);
    let st = run_lines(initial_state(), lb);
    assert(seq![comment].drop_first() == Seq::<Seq<char>>::empty());
    assert(run_lines(st, seq![comment]) == run_lines(step(st, comment), Seq::<Seq<char>>::empty()));
}

/// A line that opens a track section.
pub open spec fn is_track_header(raw: Seq<char>) -> bool {
    "[Track"@.is_prefix_of(trim(raw))
}

/// The number of track headers among the lines.
pub open spec fn track_header_count(ls: Seq<Seq<char>>) -> nat
    decreases ls.len(),
{
    if ls.len() == 0 {
        0
    } else {
        (if is_track_header(ls[0]) {
            1nat
        } else {
            0nat
        }) + track_header_count(ls.drop_first())
    }
}

/// The tracks finished or under way.
pub open spec fn tracks_begun(st: ParseState) -> nat {
    flush_track(st).len()
}

/// A header line begins one more track; any other line begins none.
proof fn lemma_step_tracks_begun(st: ParseState, raw: Seq<char>)
    ensures
        tracks_begun(step(st, raw)) == tracks_begun(st) + (if is_track_header(raw) {
            1nat
        } else {
            0nat
        }),
{
    let line = trim(raw);
    reveal_strlit("[Track");
    reveal_strlit("[Disc");
    reveal_strlit("[Global]");
    if is_track_header(raw) {
        assert(line.subrange(0, 6) == "[Track"@);
        assert(line.subrange(0, 6)[0] == line[0]);
        assert(line.subrange(0, 6)[1] == line[1]);
        assert(line[0] == '[');
        assert(line[1] == 'T');
        assert(!"[Disc"@.is_prefix_of(line)) by {
            if "[Disc"@.is_prefix_of(line) {
                assert(line.subrange(0, 5)[1] == 'D');
            }
        }
        assert(line != "[Global]"@) by {
            if line == "[Global]"@ {
                assert(line[1] == 'G');
            }
        }
        assert(line.subrange(0, 6)[1] == line[1]);
    }
}

/// Each track header begins exactly one track, and nothing else does.
proof fn lemma_run_tracks_begun(st: ParseState, ls: Seq<Seq<char>>)
    ensures
        tracks_begun(run_lines(st, ls)) == tracks_begun(st) + track_header_count(ls),
    decreases ls.len(),
{
    if ls.len() > 0 {
        lemma_step_tracks_begun(st, ls[0]);
        lemma_run_tracks_begun(step(st, ls[0]), ls.drop_first());
    }
}

/// A configuration yields exactly one track per `[Track ...]` header line.
pub proof fn lemma_one_track_per_header(content: Seq<char>)
    ensures
        config_of(content).1.len() == track_header_count(lines(content)),
{
    lemma_run_tracks_begun(initial_state(), lines(content));
}

} // verus!

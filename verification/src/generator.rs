//! The template generator: what a directory listing says of album, date, disc
//! and tracks, and the configuration text written from it.

use vstd::prelude::*;
use crate::bindings::{ascii_lower, is_ascii_text, file_stem, file_stem_of, lowercase, regex_group, regex_group_of, to_lowercase};
use crate::text::{
    chars_of, decimal, lemma_parse_decimal, opt_view, parse_unsigned, push_decimal, parse_unsigned_range, same_text, strip_prefixes,
    strip_prefixes_range, string_of, trim, trim_range, trim_str,
};

verus! {

/// The file extensions taken for audio files.
pub open spec fn audio_extensions() -> Seq<Seq<char>> {
    seq!["flac"@, "mp3"@, "ape"@, "aac"@, "opus"@, "m4a"@, "wv"@, "wma"@]
}

/// Whether a lowercase file extension is one of `audio_extensions`.
pub fn is_listed_audio_extension(ext: &str) -> (r: bool)
    ensures
        r == audio_extensions().contains(ext@),
{
    let r = same_text(ext, "flac") || same_text(ext, "mp3") || same_text(ext, "ape") || same_text(
        ext,
        "aac",
    ) || same_text(ext, "opus") || same_text(ext, "m4a") || same_text(ext, "wv") || same_text(
        ext,
        "wma",
    );
    proof {
        let e = audio_extensions();
        let l = ext@;
        if r {
            if l == "flac"@ {
                assert(e[0] == l);
            }
            if l == "mp3"@ {
                assert(e[1] == l);
            }
            if l == "ape"@ {
                assert(e[2] == l);
            }
            if l == "aac"@ {
                assert(e[3] == l);
            }
            if l == "opus"@ {
                assert(e[4] == l);
            }
            if l == "m4a"@ {
                assert(e[5] == l);
            }
            if l == "wv"@ {
                assert(e[6] == l);
            }
            if l == "wma"@ {
                assert(e[7] == l);
            }
        } else {
            assert forall|i: int| 0 <= i < e.len() implies e[i] != l by {}
        }
    }
    r
}

/// Whether a file extension, in any letter case, is that of an audio file.
pub fn is_audio_extension(ext: &str) -> (r: bool)
    ensures
        r == audio_extensions().contains(lowercase(ext@)),
{
    let low = to_lowercase(ext);
    assert(low@ == lowercase(ext@));
    is_listed_audio_extension(low.as_str())
}

/// The number that a matched group denotes, if it is a `u32`.
pub open spec fn group_number(g: Option<Seq<char>>) -> Option<nat> {
    match g {
        Some(d) => parse_unsigned(d, u32::MAX as nat),
        None => None,
    }
}

/// The disc number from the digits after `disc`, else from those after `cd`.
pub open spec fn disc_number_of(disc_digits: Option<Seq<char>>, cd_digits: Option<Seq<char>>) -> Option<
    nat,
> {
    match group_number(disc_digits) {
        Some(n) => Some(n),
        None => group_number(cd_digits),
    }
}

/// The pattern of a disc directory name such as `disc 2` or `disc2`.
pub open spec fn disc_pattern() -> Seq<char> {
    r"^disc\s*(\d+)$"@
}

/// The pattern of a disc directory name such as `cd 2` or `cd2`.
pub open spec fn cd_pattern() -> Seq<char> {
    r"^cd\s*(\d+)$"@
}

/// The disc number that a directory name announces, if any.
pub open spec fn detected_disc(dir_name: Seq<char>) -> Option<nat> {
    let low = lowercase(dir_name);
    disc_number_of(regex_group_of(disc_pattern(), low, 1), regex_group_of(cd_pattern(), low, 1))
}

fn group_number_exec(g: &Option<String>) -> (r: Option<u32>)
    ensures
        match r {
            Some(n) => group_number(opt_view(*g)) == Some(n as nat),
            None => group_number(opt_view(*g)) is None,
        },
{
    match g {
        Some(d) => {
            let cs = chars_of(d.as_str());
            assert(cs@.subrange(0, cs@.len() as int) == cs@);
            parse_unsigned_range(cs.as_slice(), 0, cs.len(), u32::MAX)
        },
        None => None,
    }
}

/// The disc number from the matched digit groups (see `disc_number_of`).
pub fn disc_number_from_groups(disc_digits: &Option<String>, cd_digits: &Option<String>) -> (r:
    Option<u32>)
    ensures
        match r {
            Some(n) => disc_number_of(opt_view(*disc_digits), opt_view(*cd_digits)) == Some(
                n as nat,
            ),
            None => disc_number_of(opt_view(*disc_digits), opt_view(*cd_digits)) is None,
        },
{
    match group_number_exec(disc_digits) {
        Some(n) => Some(n),
        None => group_number_exec(cd_digits),
    }
}

/// The disc number of a directory named `disc N`, `discN`, `cd N` or `cdN`
/// in any letter case (see `detected_disc`).
pub fn detect_disc_directory(dir_name: &str) -> (r: Option<u32>)
    ensures
        match r {
            Some(n) => detected_disc(dir_name@) == Some(n as nat),
            None => detected_disc(dir_name@) is None,
        },
{
    let low = to_lowercase(dir_name);
    assert(low@ == lowercase(dir_name@));
    let disc_digits = regex_group(r"^disc\s*(\d+)$", low.as_str(), 1);
    let cd_digits = regex_group(r"^cd\s*(\d+)$", low.as_str(), 1);
    disc_number_from_groups(&disc_digits, &cd_digits)
}


/// A pair of matched groups.
pub type GroupPair = (Option<String>, Option<String>);

/// The text of a pair of matched groups.
pub open spec fn pair_view(p: GroupPair) -> (Option<Seq<char>>, Option<Seq<char>>) {
    (opt_view(p.0), opt_view(p.1))
}

/// The texts of a list of pairs of matched groups.
pub open spec fn pair_views(v: Seq<GroupPair>) -> Seq<(Option<Seq<char>>, Option<Seq<char>>)> {
    v.map_values(|p: GroupPair| pair_view(p))
}

/// The first pair in which both groups matched and the second is not blank
/// once trimmed: its first group and its trimmed second group.
pub open spec fn first_pair(pairs: Seq<(Option<Seq<char>>, Option<Seq<char>>)>) -> Option<
    (Seq<char>, Seq<char>),
>
    decreases pairs.len(),
{
    if pairs.len() == 0 {
        None
    } else if pairs[0].0 is Some && pairs[0].1 is Some && trim(pairs[0].1.unwrap()).len() > 0 {
        Some((pairs[0].0.unwrap(), trim(pairs[0].1.unwrap())))
    } else {
        first_pair(pairs.drop_first())
    }
}

/// Computes `first_pair`.
pub fn first_pair_of(pairs: &Vec<GroupPair>) -> (r: Option<(String, String)>)
    ensures
        match r {
            Some(p) => first_pair(pair_views(pairs@)) == Some((p.0@, p.1@)),
            None => first_pair(pair_views(pairs@)) is None,
        },
{
    let ghost pv = pair_views(pairs@);
    let mut i: usize = 0;
    assert(pv.skip(0) == pv);
    while i < pairs.len()
        invariant
            i <= pairs@.len(),
            pv == pair_views(pairs@),
            first_pair(pv) == first_pair(pv.skip(i as int)),
        decreases pairs.len() - i,
    {
        assert(pv.skip(i as int)[0] == pair_view(pairs@[i as int]));
        assert(pv.skip(i as int).drop_first() == pv.skip(i + 1));
        let p = &pairs[i];
        match (&p.0, &p.1) {
            (Some(a), Some(b)) => {
                let t = trim_str(b.as_str());
                if !t.as_str().is_empty() {
                    return Some((a.clone(), t));
                }
            },
            _ => {},
        }
        i += 1;
    }
    assert(pv.skip(i as int).len() == 0);
    None
}

/// The album and the date that a directory name gives, from the groups its
/// patterns matched: the first `(date, album)` pattern that matched with a
/// non-blank album; else, after a leading year, the album after a dash, or
/// else the rest of the name once every leading copy of the year is removed;
/// else the whole name as album and no date.
pub open spec fn album_and_date(
    name: Seq<char>,
    pairs: Seq<(Option<Seq<char>>, Option<Seq<char>>)>,
    year: Option<Seq<char>>,
    dashed_album: Option<Seq<char>>,
) -> (Option<Seq<char>>, Option<Seq<char>>) {
    match first_pair(pairs) {
        Some((date, album)) => (Some(album), Some(date)),
        None => match year {
            Some(date) => if dashed_album is Some && trim(dashed_album.unwrap()).len() > 0 {
                (Some(trim(dashed_album.unwrap())), Some(date))
            } else if trim(strip_prefixes(name, date)).len() > 0 {
                (Some(trim(strip_prefixes(name, date))), Some(date))
            } else {
                (Some(name), None)
            },
            None => (Some(name), None),
        },
    }
}

/// Computes `album_and_date` from the matched groups.
pub fn album_from_groups(
    name: &str,
    pairs: &Vec<GroupPair>,
    year: &Option<String>,
    dashed_album: &Option<String>,
) -> (r: (Option<String>, Option<String>))
    ensures
        (opt_view(r.0), opt_view(r.1)) == album_and_date(
            name@,
            pair_views(pairs@),
            opt_view(*year),
            opt_view(*dashed_album),
        ),
{
    match first_pair_of(pairs) {
        Some((date, album)) => {
            return (Some(album), Some(date));
        },
        None => {},
    }
    match year {
        Some(date) => {
            match dashed_album {
                Some(a) => {
                    let t = trim_str(a.as_str());
                    if !t.as_str().is_empty() {
                        return (Some(t), Some(date.clone()));
                    }
                },
                None => {},
            }
            let v = chars_of(name);
            let p = chars_of(date.as_str());
            assert(v@.subrange(0, v@.len() as int) == v@);
            let start = strip_prefixes_range(v.as_slice(), 0, v.len(), p.as_slice());
            let (x, y) = trim_range(v.as_slice(), start, v.len());
            if x < y {
                return (Some(string_of(v.as_slice(), x, y)), Some(date.clone()));
            }
            (Some(name.to_owned()), None)
        },
        None => (Some(name.to_owned()), None),
    }
}

/// The patterns of a directory name that starts with a year and goes on with
/// the album: `2023 - Album`, `2023 Album`, `2023. Album`, `(2023) Album`,
/// `[2023] Album`; group 1 is the year, group 2 the album.
pub open spec fn album_patterns() -> Seq<Seq<char>> {
    seq![
        r"^(\d{4})\s*[-–—]\s*(.+)$"@,
        r"^(\d{4})\s+(.+)$"@,
        r"^(\d{4})\.\s*(.+)$"@,
        r"^\((\d{4})\)\s*(.+)$"@,
        r"^\[(\d{4})\]\s*(.+)$"@,
    ]
}

/// Groups 1 and 2 of each pattern matched against a text.
pub open spec fn groups_of(patterns: Seq<Seq<char>>, text: Seq<char>) -> Seq<
    (Option<Seq<char>>, Option<Seq<char>>),
> {
    patterns.map_values(|p: Seq<char>| (regex_group_of(p, text, 1), regex_group_of(p, text, 2)))
}

/// The pattern of a leading year.
pub open spec fn year_pattern() -> Seq<char> {
    r"^(\d{4})"@
}

/// The pattern of a leading year, a dash and the album (group 1).
pub open spec fn dashed_album_pattern() -> Seq<char> {
    r"^\d{4}\s*[-–—]\s*(.+)$"@
}

/// Groups 1 and 2 of one pattern against a text.
fn group_pair(pattern: &str, text: &str) -> (r: GroupPair)
    ensures
        pair_view(r) == (regex_group_of(pattern@, text@, 1), regex_group_of(pattern@, text@, 2)),
{
    (regex_group(pattern, text, 1), regex_group(pattern, text, 2))
}

/// The album and the date that an album directory name gives, from what its
/// patterns match (see `album_and_date`).
pub open spec fn album_info(dir_name: Seq<char>) -> (Option<Seq<char>>, Option<Seq<char>>) {
    album_and_date(
        dir_name,
        groups_of(album_patterns(), dir_name),
        regex_group_of(year_pattern(), dir_name, 1),
        regex_group_of(dashed_album_pattern(), dir_name, 1),
    )
}

/// The album and the date of an album directory name (see `album_info`).
pub fn parse_album_from_dir(dir_name: &str) -> (r: (Option<String>, Option<String>))
    ensures
        (opt_view(r.0), opt_view(r.1)) == album_info(dir_name@),
{
    let mut pairs: Vec<GroupPair> = Vec::new();
    pairs.push(group_pair(r"^(\d{4})\s*[-–—]\s*(.+)$", dir_name));
    pairs.push(group_pair(r"^(\d{4})\s+(.+)$", dir_name));
    pairs.push(group_pair(r"^(\d{4})\.\s*(.+)$", dir_name));
    pairs.push(group_pair(r"^\((\d{4})\)\s*(.+)$", dir_name));
    pairs.push(group_pair(r"^\[(\d{4})\]\s*(.+)$", dir_name));
    assert(pair_views(pairs@) == groups_of(album_patterns(), dir_name@));
    let year = regex_group(r"^(\d{4})", dir_name, 1);
    let dashed = regex_group(r"^\d{4}\s*[-–—]\s*(.+)$", dir_name, 1);
    album_from_groups(dir_name, &pairs, &year, &dashed)
}

/// The track number and the title that a file name gives: the first pattern
/// that matched with a non-blank title, else no number and the whole name as
/// title.
pub open spec fn number_and_title(
    name: Seq<char>,
    pairs: Seq<(Option<Seq<char>>, Option<Seq<char>>)>,
) -> (Option<Seq<char>>, Option<Seq<char>>) {
    match first_pair(pairs) {
        Some((number, title)) => (Some(number), Some(title)),
        None => (None, Some(name)),
    }
}

/// Computes `number_and_title` from the matched groups.
pub fn filename_from_groups(name: &str, pairs: &Vec<GroupPair>) -> (r: (
    Option<String>,
    Option<String>,
))
    ensures
        (opt_view(r.0), opt_view(r.1)) == number_and_title(name@, pair_views(pairs@)),
{
    match first_pair_of(pairs) {
        Some((number, title)) => (Some(number), Some(title)),
        None => (None, Some(name.to_owned())),
    }
}

/// The patterns of a file name that starts with a track number of one to three
/// digits: `03. Title`, `03 - Title`, `03_Title`, `03 Title`, `03-Title`;
/// group 1 is the number, group 2 the title.
pub open spec fn filename_patterns() -> Seq<Seq<char>> {
    seq![r"^(\d{1,3})\s*[\.\-_]\s*(.+)$"@, r"^(\d{1,3})\s+(.+)$"@, r"^(\d{1,3})[\.\-_](.+)$"@]
}

/// A file name without its extension (the whole name if it has no stem).
pub open spec fn name_without_extension(file_name: Seq<char>) -> Seq<char> {
    match file_stem_of(file_name) {
        Some(s) => s,
        None => file_name,
    }
}

/// The track number and the title of an audio file name (see
/// `number_and_title`), read from the name without its extension.
pub fn parse_filename(file_name: &str) -> (r: (Option<String>, Option<String>))
    ensures
        (opt_view(r.0), opt_view(r.1)) == number_and_title(
            name_without_extension(file_name@),
            groups_of(filename_patterns(), name_without_extension(file_name@)),
        ),
{
    let name = match file_stem(file_name) {
        Some(s) => s,
        None => file_name.to_owned(),
    };
    let n = name.as_str();
    let mut pairs: Vec<GroupPair> = Vec::new();
    pairs.push(group_pair(r"^(\d{1,3})\s*[\.\-_]\s*(.+)$", n));
    pairs.push(group_pair(r"^(\d{1,3})\s+(.+)$", n));
    pairs.push(group_pair(r"^(\d{1,3})[\.\-_](.+)$", n));
    assert(pair_views(pairs@) == groups_of(filename_patterns(), n@));
    filename_from_groups(n, &pairs)
}


/// One audio file of the template: its file name and what its name gives.
#[derive(Debug)]
pub struct TemplateTrack {
    pub file: String,
    pub number: Option<String>,
    pub title: Option<String>,
}

/// The value of a `TemplateTrack`.
pub struct TemplateTrackModel {
    pub file: Seq<char>,
    pub number: Option<Seq<char>>,
    pub title: Option<Seq<char>>,
}

impl View for TemplateTrack {
    type V = TemplateTrackModel;

    open spec fn view(&self) -> TemplateTrackModel {
        TemplateTrackModel { file: self.file@, number: opt_view(self.number), title: opt_view(self.title) }
    }
}

/// The values of a list of template tracks.
pub open spec fn template_views(v: Seq<TemplateTrack>) -> Seq<TemplateTrackModel> {
    v.map_values(|t: TemplateTrack| t@)
}

/// The position of a track in the template: its number if that reads as a
/// `u32`, else 999.
pub open spec fn sort_key(number: Option<Seq<char>>) -> nat {
    match number {
        Some(s) => match parse_unsigned(s, u32::MAX as nat) {
            Some(n) => n,
            None => 999,
        },
        None => 999,
    }
}

/// The sort key of a track.
pub open spec fn key_of(t: TemplateTrackModel) -> nat {
    sort_key(t.number)
}

/// Computes `sort_key`.
pub fn track_sort_key(number: &Option<String>) -> (r: u32)
    ensures
        r as nat == sort_key(opt_view(*number)),
{
    match number {
        Some(s) => {
            let cs = chars_of(s.as_str());
            assert(cs@.subrange(0, cs@.len() as int) == cs@);
            match parse_unsigned_range(cs.as_slice(), 0, cs.len(), u32::MAX) {
                Some(n) => n,
                None => 999,
            }
        },
        None => 999,
    }
}

/// The tracks of `s` whose key is `k`, in their order in `s`.
pub open spec fn with_key(s: Seq<TemplateTrackModel>, k: nat) -> Seq<TemplateTrackModel> {
    s.filter(has_key(k))
}

/// The tracks of key `k`.
pub open spec fn has_key(k: nat) -> spec_fn(TemplateTrackModel) -> bool {
    |t: TemplateTrackModel| key_of(t) == k
}

/// The keys never decrease along `s`.
pub open spec fn sorted_by_key(s: Seq<TemplateTrackModel>) -> bool {
    forall|i: int, j: int| 0 <= i <= j < s.len() ==> key_of(s[i]) <= key_of(s[j])
}

/// `r` is `s` sorted by key, tracks of equal key keeping their order: the
/// keys never decrease along `r`, and for each key `r` and `s` hold the same
/// tracks in the same order.
pub open spec fn is_stable_sort_of(r: Seq<TemplateTrackModel>, s: Seq<TemplateTrackModel>) -> bool {
    &&& sorted_by_key(r)
    &&& forall|k: nat| #[trigger] with_key(r, k) == with_key(s, k)
}

/// No track of `s` has key `k`.
proof fn lemma_with_key_none(s: Seq<TemplateTrackModel>, k: nat)
    requires
        forall|i: int| 0 <= i < s.len() ==> key_of(s[i]) != k,
    ensures
        with_key(s, k) == Seq::<TemplateTrackModel>::empty(),
    decreases s.len(),
{
    reveal(Seq::filter);
    if s.len() > 0 {
        lemma_with_key_none(s.drop_last(), k);
    }
}

/// The tracks of key `k` of a one-track sequence.
proof fn lemma_with_key_single(x: TemplateTrackModel, k: nat)
    ensures
        with_key(seq![x], k) == (if key_of(x) == k {
            seq![x]
        } else {
            Seq::<TemplateTrackModel>::empty()
        }),
{
    reveal(Seq::filter);
    assert(seq![x].drop_last() == Seq::<TemplateTrackModel>::empty());
    lemma_with_key_none(Seq::<TemplateTrackModel>::empty(), k);
}

/// Inserting `x` where the keys below it are smaller and those above are not
/// puts it first among the tracks of its key.
proof fn lemma_insert_with_key(s: Seq<TemplateTrackModel>, p: int, x: TemplateTrackModel, k: nat)
    requires
        0 <= p <= s.len(),
        forall|j: int| 0 <= j < p ==> key_of(s[j]) < key_of(x),
        forall|j: int| p <= j < s.len() ==> key_of(s[j]) >= key_of(x),
    ensures
        with_key(s.insert(p, x), k) == with_key(seq![x] + s, k),
{
    let pred = has_key(k);
    let a = s.subrange(0, p);
    let b = s.subrange(p, s.len() as int);
    assert(s.insert(p, x) == a + (seq![x] + b));
    assert(s == a + b);
    Seq::filter_distributes_over_add(a, seq![x] + b, pred);
    Seq::filter_distributes_over_add(seq![x], b, pred);
    Seq::filter_distributes_over_add(seq![x], s, pred);
    Seq::filter_distributes_over_add(a, b, pred);
    lemma_with_key_single(x, k);
    if k == key_of(x) {
        lemma_with_key_none(a, k);
        assert(a.filter(pred) + (seq![x].filter(pred) + b.filter(pred)) == seq![x].filter(pred) + (
        a.filter(pred) + b.filter(pred)));
    } else {
        assert(a.filter(pred) + (seq![x].filter(pred) + b.filter(pred)) == seq![x].filter(pred) + (
        a.filter(pred) + b.filter(pred)));
    }
}

/// Sorts the tracks by `sort_key`, keeping the order of tracks of equal key
/// (`slice::sort_by` is stable).
pub fn sort_tracks(tracks: Vec<TemplateTrack>) -> (r: Vec<TemplateTrack>)
    ensures
        is_stable_sort_of(template_views(r@), template_views(tracks@)),
{
    let ghost input = template_views(tracks@);
    let mut rest = tracks;
    let mut out: Vec<TemplateTrack> = Vec::new();
    let mut keys: Vec<u32> = Vec::new();
    while rest.len() > 0
        invariant
            rest@.len() <= input.len(),
            template_views(rest@) == input.take(rest@.len() as int),
            keys@.len() == out@.len(),
            forall|j: int| 0 <= j < out@.len() ==> keys@[j] as nat == key_of(#[trigger] out@[j]@),
            sorted_by_key(template_views(out@)),
            forall|k: nat|
                #[trigger] with_key(template_views(out@), k) == with_key(
                    input.skip(rest@.len() as int),
                    k,
                ),
        decreases rest@.len(),
    {
        let ghost n = rest@.len() as int;
        let x = rest.pop().unwrap();
        let kx = track_sort_key(&x.number);
        let mut p: usize = 0;
        while p < keys.len() && keys[p] < kx
            invariant
                p <= keys@.len() == out@.len(),
                forall|j: int| 0 <= j < p ==> keys@[j] < kx,
            decreases keys.len() - p,
        {
            p += 1;
        }
        let ghost before = template_views(out@);
        let ghost old_out = out@;
        let ghost old_keys = keys@;
        proof {
            assert forall|j: int| 0 <= j < p implies key_of(before[j]) < key_of(x@) by {
                assert(keys@[j] as nat == key_of(out@[j]@));
            }
            assert forall|j: int| p <= j < before.len() implies key_of(before[j]) >= key_of(x@) by {
                assert(keys@[p as int] as nat == key_of(out@[p as int]@));
                assert(key_of(before[p as int]) <= key_of(before[j]));
            }
            assert(input.take(n)[n - 1] == x@);
            assert(input.skip(n - 1) == seq![x@] + input.skip(n));
            assert forall|k: nat|
                #[trigger] with_key(before.insert(p as int, x@), k) == with_key(
                    input.skip(n - 1),
                    k,
                ) by {
                lemma_insert_with_key(before, p as int, x@, k);
                Seq::filter_distributes_over_add(seq![x@], before, has_key(k));
                Seq::filter_distributes_over_add(seq![x@], input.skip(n), has_key(k));
                assert(with_key(before, k) == with_key(input.skip(n), k));
            }
        }
        out.insert(p, x);
        keys.insert(p, kx);
        proof {
            assert(template_views(out@) == before.insert(p as int, x@));
            assert(template_views(rest@) == input.take(n - 1));
            let after = template_views(out@);
            assert forall|i: int, j: int| 0 <= i <= j < after.len() implies key_of(after[i])
                <= key_of(after[j]) by {
                before.insert_ensures(p as int, x@);
            }
            old_out.insert_ensures(p as int, x);
            old_keys.insert_ensures(p as int, kx);
            assert forall|j: int| 0 <= j < out@.len() implies keys@[j] as nat == key_of(
                #[trigger] out@[j]@,
            ) by {
                if j < p {
                    assert(keys@[j] as nat == key_of(old_out[j]@));
                } else if j > p {
                    assert(keys@[j] as nat == key_of(old_out[j - 1]@));
                }
            }
        }
    }
    assert(input.skip(0) == input);
    out
}


/// The album line of the template.
pub open spec fn album_line(album: Option<Seq<char>>) -> Seq<char> {
    match album {
        Some(a) => "Album = \""@ + a + "\"\n"@,
        None => "Album = \n"@,
    }
}

/// The date line of the template, present only with a date.
pub open spec fn date_line(date: Option<Seq<char>>) -> Seq<char> {
    match date {
        Some(d) => "Date = \""@ + d + "\"\n"@,
        None => Seq::empty(),
    }
}

/// The `[Global]` section of the template.
pub open spec fn global_section(album: Option<Seq<char>>, date: Option<Seq<char>>) -> Seq<char> {
    "[Global]\n"@ + album_line(album) + "Album Artist = \n"@ + date_line(date) + "Genre = \n"@
        + "Composer = \n\n"@
}

/// The disc marker of the template, if a disc was detected.
pub open spec fn disc_section(disc: Option<nat>) -> Seq<char> {
    match disc {
        Some(n) => "[Disc "@ + decimal(n) + "]\n\n"@,
        None => Seq::empty(),
    }
}

/// The header of a track section.
pub open spec fn track_header(number: Option<Seq<char>>) -> Seq<char> {
    match number {
        Some(n) => "[Track "@ + n + "]"@,
        None => "[Track]"@,
    }
}

/// The title line of a track section.
pub open spec fn title_line(title: Option<Seq<char>>) -> Seq<char> {
    match title {
        Some(x) => "Title = \""@ + x + "\"\n"@,
        None => "Title = \n"@,
    }
}

/// The section of one track.
pub open spec fn track_section(t: TemplateTrackModel) -> Seq<char> {
    track_header(t.number) + "\n"@ + "File = \""@ + t.file + "\"\n"@ + title_line(t.title)
        + "Artist = \n\n"@
}

/// The sections of the tracks, in order.
pub open spec fn track_sections(ts: Seq<TemplateTrackModel>) -> Seq<char>
    decreases ts.len(),
{
    if ts.len() == 0 {
        Seq::empty()
    } else {
        track_sections(ts.drop_last()) + track_section(ts.last())
    }
}

/// The template text: the global section, the disc marker, and the tracks in
/// the order given.
pub open spec fn template_text(
    album: Option<Seq<char>>,
    date: Option<Seq<char>>,
    disc: Option<nat>,
    tracks: Seq<TemplateTrackModel>,
) -> Seq<char> {
    global_section(album, date) + disc_section(disc) + track_sections(tracks)
}

/// The value of an optional `u32`.
pub open spec fn opt_nat(o: Option<u32>) -> Option<nat> {
    match o {
        Some(n) => Some(n as nat),
        None => None,
    }
}

fn append_quoted(out: &mut String, key_eq: &str, value: &String)
    ensures
        final(out)@ == old(out)@ + key_eq@ + "\""@ + value@ + "\"\n"@,
{
    out.append(key_eq);
    out.append("\"");
    out.append(value.as_str());
    out.append("\"\n");
}

fn append_track(out: &mut String, t: &TemplateTrack)
    ensures
        final(out)@ == old(out)@ + track_section(t@),
{
    let ghost start = out@;
    match &t.number {
        Some(n) => {
            out.append("[Track ");
            out.append(n.as_str());
            out.append("]");
        },
        None => {
            out.append("[Track]");
        },
    }
    out.append("\n");
    out.append("File = \"");
    out.append(t.file.as_str());
    out.append("\"\n");
    match &t.title {
        Some(x) => {
            append_quoted(out, "Title = ", x);
            assert("Title = "@ + "\""@ == "Title = \""@) by {
                reveal_strlit("Title = ");
                reveal_strlit("\"");
                reveal_strlit("Title = \"");
            }
        },
        None => {
            out.append("Title = \n");
        },
    }
    out.append("Artist = \n\n");
    assert(out@ == start + track_section(t@));
}

/// Writes the template text (see `template_text`) for tracks in the given
/// order.
pub fn render_template(
    album: &Option<String>,
    date: &Option<String>,
    disc: Option<u32>,
    tracks: &Vec<TemplateTrack>,
) -> (r: String)
    ensures
        r@ == template_text(opt_view(*album), opt_view(*date), opt_nat(disc), template_views(tracks@)),
{
    let mut out = String::new();
    out.append("[Global]\n");
    match album {
        Some(a) => {
            append_quoted(&mut out, "Album = ", a);
            assert("Album = "@ + "\""@ == "Album = \""@) by {
                reveal_strlit("Album = ");
                reveal_strlit("\"");
                reveal_strlit("Album = \"");
            }
        },
        None => {
            out.append("Album = \n");
        },
    }
    out.append("Album Artist = \n");
    match date {
        Some(d) => {
            append_quoted(&mut out, "Date = ", d);
            assert("Date = "@ + "\""@ == "Date = \""@) by {
                reveal_strlit("Date = ");
                reveal_strlit("\"");
                reveal_strlit("Date = \"");
            }
        },
        None => {},
    }
    out.append("Genre = \n");
    out.append("Composer = \n\n");
    assert(out@ == global_section(opt_view(*album), opt_view(*date)));
    match disc {
        Some(n) => {
            out.append("[Disc ");
            push_decimal(&mut out, n);
            out.append("]\n\n");
        },
        None => {},
    }
    let ghost head = global_section(opt_view(*album), opt_view(*date)) + disc_section(opt_nat(disc));
    assert(out@ == head);
    let ghost tv = template_views(tracks@);
    let mut i: usize = 0;
    while i < tracks.len()
        invariant
            i <= tracks@.len(),
            tv == template_views(tracks@),
            out@ == head + track_sections(tv.take(i as int)),
        decreases tracks.len() - i,
    {
        append_track(&mut out, &tracks[i]);
        assert(tv.take(i + 1).drop_last() == tv.take(i as int));
        i += 1;
    }
    assert(tv.take(tracks@.len() as int) == tv);
    out
}


/// The tracks of key `k` without the last track, in terms of the tracks of key
/// `k` with it.
proof fn lemma_with_key_drop_last(r: Seq<TemplateTrackModel>, k: nat)
    requires
        r.len() > 0,
    ensures
        with_key(r, k) == (if key_of(r.last()) == k {
            with_key(r.drop_last(), k).push(r.last())
        } else {
            with_key(r.drop_last(), k)
        }),
{
    reveal(Seq::filter);
}

/// Two orders that are both sorted by key and agree on the tracks of each key
/// are the same order.
proof fn lemma_sorted_groups_unique(r1: Seq<TemplateTrackModel>, r2: Seq<TemplateTrackModel>)
    requires
        sorted_by_key(r1),
        sorted_by_key(r2),
        forall|k: nat| #[trigger] with_key(r1, k) == with_key(r2, k),
    ensures
        r1 == r2,
    decreases r1.len() + r2.len(),
{
    if r1.len() == 0 && r2.len() == 0 {
        assert(r1 == r2);
    } else if r1.len() == 0 {
        let m = key_of(r2.last());
        lemma_with_key_drop_last(r2, m);
        lemma_with_key_none(r1, m);
        assert(with_key(r1, m) == with_key(r2, m));
    } else if r2.len() == 0 {
        let m = key_of(r1.last());
        lemma_with_key_drop_last(r1, m);
        lemma_with_key_none(r2, m);
        assert(with_key(r1, m) == with_key(r2, m));
    } else {
        let m1 = key_of(r1.last());
        let m2 = key_of(r2.last());
        lemma_with_key_drop_last(r1, m1);
        lemma_with_key_drop_last(r2, m2);
        if m1 < m2 {
            assert forall|i: int| 0 <= i < r1.len() implies key_of(r1[i]) != m2 by {
                assert(key_of(r1[i]) <= key_of(r1[r1.len() - 1]));
            }
            lemma_with_key_none(r1, m2);
            assert(with_key(r2, m2).len() > 0);
            assert(with_key(r1, m2) == with_key(r2, m2));
        }
        if m2 < m1 {
            assert forall|i: int| 0 <= i < r2.len() implies key_of(r2[i]) != m1 by {
                assert(key_of(r2[i]) <= key_of(r2[r2.len() - 1]));
            }
            lemma_with_key_none(r2, m1);
            assert(with_key(r1, m1).len() > 0);
            assert(with_key(r1, m1) == with_key(r2, m1));
        }
        assert(m1 == m2);
        assert(with_key(r1, m1) == with_key(r2, m1));
        assert(r1.last() == with_key(r1, m1).last());
        assert(r1.last() == r2.last());
        assert forall|k: nat| #[trigger]
            with_key(r1.drop_last(), k) == with_key(r2.drop_last(), k) by {
            lemma_with_key_drop_last(r1, k);
            lemma_with_key_drop_last(r2, k);
            assert(with_key(r1, k) == with_key(r2, k));
            if k == m1 {
                assert(with_key(r1, k).drop_last() == with_key(r1.drop_last(), k));
                assert(with_key(r2, k).drop_last() == with_key(r2.drop_last(), k));
            }
        }
        lemma_sorted_groups_unique(r1.drop_last(), r2.drop_last());
        assert(r1 == r1.drop_last().push(r1.last()));
        assert(r2 == r2.drop_last().push(r2.last()));
    }
}

/// A list of tracks has exactly one stable sort by key: `sort_tracks` can give
/// no other order.
pub proof fn lemma_stable_sort_unique(
    r1: Seq<TemplateTrackModel>,
    r2: Seq<TemplateTrackModel>,
    s: Seq<TemplateTrackModel>,
)
    requires
        is_stable_sort_of(r1, s),
        is_stable_sort_of(r2, s),
    ensures
        r1 == r2,
{
    assert forall|k: nat| #[trigger] with_key(r1, k) == with_key(r2, k) by {
        assert(with_key(r1, k) == with_key(s, k));
        assert(with_key(r2, k) == with_key(s, k));
    }
    lemma_sorted_groups_unique(r1, r2);
}

/// The stable sort of a list of tracks by key.
pub open spec fn stably_sorted(s: Seq<TemplateTrackModel>) -> Seq<TemplateTrackModel> {
    choose|r: Seq<TemplateTrackModel>| is_stable_sort_of(r, s)
}

/// The template text for the given album, date, disc and audio files, the
/// tracks sorted by number (see `sort_key`).
pub fn template_content(
    album: &Option<String>,
    date: &Option<String>,
    disc: Option<u32>,
    tracks: Vec<TemplateTrack>,
) -> (r: String)
    ensures
        r@ == template_text(
            opt_view(*album),
            opt_view(*date),
            opt_nat(disc),
            stably_sorted(template_views(tracks@)),
        ),
{
    let ghost input = template_views(tracks@);
    let sorted = sort_tracks(tracks);
    proof {
        let chosen = stably_sorted(input);
        assert(is_stable_sort_of(template_views(sorted@), input));
        assert(is_stable_sort_of(chosen, input));
        lemma_stable_sort_unique(template_views(sorted@), chosen, input);
    }
    render_template(album, date, disc, &sorted)
}


/// The file the template is written to: the one given, else `tags.ini`.
pub fn output_path(output: Option<String>) -> (r: String)
    ensures
        r@ == or_tags_ini(opt_view(output)),
{
    match output {
        Some(p) => p,
        None => "tags.ini".to_owned(),
    }
}

/// The path given, else `tags.ini`.
pub open spec fn or_tags_ini(output: Option<Seq<char>>) -> Seq<char> {
    match output {
        Some(p) => p,
        None => "tags.ini"@,
    }
}


/// The directory whose name gives album and date: the parent of a disc
/// directory when there is one, else the directory itself.
pub open spec fn album_directory(
    dir_name: Seq<char>,
    parent_name: Option<Seq<char>>,
) -> Seq<char> {
    if detected_disc(dir_name) is Some && parent_name is Some {
        parent_name.unwrap()
    } else {
        dir_name
    }
}

/// What the current directory says: its disc number, if it is a disc
/// directory, and the album and the date, read from the parent directory's
/// name for a disc directory.
pub fn describe_directory(dir_name: &str, parent_name: &Option<String>) -> (r: (
    Option<u32>,
    Option<String>,
    Option<String>,
))
    ensures
        opt_nat(r.0) == detected_disc(dir_name@),
        (opt_view(r.1), opt_view(r.2)) == album_info(album_directory(dir_name@, opt_view(*parent_name))),
{
    let disc = detect_disc_directory(dir_name);
    let (album, date) = match (disc, parent_name) {
        (Some(_), Some(p)) => parse_album_from_dir(p.as_str()),
        _ => parse_album_from_dir(dir_name),
    };
    (disc, album, date)
}


/// The audio extensions are exactly flac, mp3, ape, aac, opus, m4a, wv and wma.
pub proof fn lemma_audio_extensions(e: Seq<char>)
    ensures
        audio_extensions().contains(e) <==> (e == "flac"@ || e == "mp3"@ || e == "ape"@ || e
            == "aac"@ || e == "opus"@ || e == "m4a"@ || e == "wv"@ || e == "wma"@),
{
    let x = audio_extensions();
    if e == "flac"@ {
        assert(x[0] == e);
    }
    if e == "mp3"@ {
        assert(x[1] == e);
    }
    if e == "ape"@ {
        assert(x[2] == e);
    }
    if e == "aac"@ {
        assert(x[3] == e);
    }
    if e == "opus"@ {
        assert(x[4] == e);
    }
    if e == "m4a"@ {
        assert(x[5] == e);
    }
    if e == "wv"@ {
        assert(x[6] == e);
    }
    if e == "wma"@ {
        assert(x[7] == e);
    }
}

/// In any letter case: an ASCII extension is that of an audio file exactly
/// when its lowercase form is one of flac, mp3, ape, aac, opus, m4a, wv, wma.
pub proof fn lemma_audio_extension_any_case(e: Seq<char>)
    requires
        is_ascii_text(e),
    ensures
        audio_extensions().contains(lowercase(e)) <==> ({
            let l = e.map_values(|c: char| ascii_lower(c));
            l == "flac"@ || l == "mp3"@ || l == "ape"@ || l == "aac"@ || l == "opus"@ || l
                == "m4a"@ || l == "wv"@ || l == "wma"@
        }),
{
    lemma_audio_extensions(lowercase(e));
}

/// Album and date come from the directory's own name unless it is a disc
/// directory with a parent; then they come from the parent's name. So for a
/// directory that is not a disc directory the parent's name plays no part.
pub proof fn lemma_album_directory(dir_name: Seq<char>, parent_name: Option<Seq<char>>)
    ensures
        (detected_disc(dir_name) is None) ==> album_directory(dir_name, parent_name) == dir_name,
        (parent_name is None) ==> album_directory(dir_name, parent_name) == dir_name,
        (detected_disc(dir_name) is Some && parent_name is Some) ==> album_directory(
            dir_name,
            parent_name,
        ) == parent_name.unwrap(),
{
}

/// For a directory that is not a disc directory, any two parent names give
/// the same album and date.
pub proof fn lemma_parent_ignored_without_disc(
    dir_name: Seq<char>,
    p1: Option<Seq<char>>,
    p2: Option<Seq<char>>,
)
    requires
        (detected_disc(dir_name) is None),
    ensures
        album_info(album_directory(dir_name, p1)) == album_info(album_directory(dir_name, p2)),
        album_info(album_directory(dir_name, p1)) == album_info(dir_name),
{
    lemma_album_directory(dir_name, p1);
    lemma_album_directory(dir_name, p2);
}


/// A pair in which both groups matched and the second is not blank.
pub open spec fn qualifies(p: (Option<Seq<char>>, Option<Seq<char>>)) -> bool {
    p.0 is Some && p.1 is Some && trim(p.1.unwrap()).len() > 0
}

/// The first qualifying pair is the one chosen, its second group trimmed; with
/// no qualifying pair, none is.
pub proof fn lemma_first_pair_is_first(pairs: Seq<(Option<Seq<char>>, Option<Seq<char>>)>, i: int)
    requires
        0 <= i < pairs.len(),
        qualifies(pairs[i]),
        forall|j: int| 0 <= j < i ==> !qualifies(#[trigger] pairs[j]),
    ensures
        first_pair(pairs) == Some((pairs[i].0.unwrap(), trim(pairs[i].1.unwrap()))),
    decreases i,
{
    if i > 0 {
        let rest = pairs.drop_first();
        assert(!qualifies(pairs[0]));
        assert forall|j: int| 0 <= j < i - 1 implies !qualifies(#[trigger] rest[j]) by {
            assert(rest[j] == pairs[j + 1]);
        }
        assert(rest[i - 1] == pairs[i]);
        lemma_first_pair_is_first(rest, i - 1);
    }
}

/// With no qualifying pair, none is chosen.
pub proof fn lemma_first_pair_none(pairs: Seq<(Option<Seq<char>>, Option<Seq<char>>)>)
    requires
        forall|j: int| 0 <= j < pairs.len() ==> !qualifies(#[trigger] pairs[j]),
    ensures
        first_pair(pairs) is None,
    decreases pairs.len(),
{
    if pairs.len() > 0 {
        let rest = pairs.drop_first();
        assert(!qualifies(pairs[0]));
        assert forall|j: int| 0 <= j < rest.len() implies !qualifies(#[trigger] rest[j]) by {
            assert(rest[j] == pairs[j + 1]);
        }
        lemma_first_pair_none(rest);
    }
}

/// The album and date of a directory name: the first pattern that matched with
/// a non-blank album gives the album (trimmed) and the year; with none, a
/// leading year and a non-blank album after a dash; with no leading year, the
/// whole name as album and no date. There is always an album.
pub proof fn lemma_album_choice(
    name: Seq<char>,
    pairs: Seq<(Option<Seq<char>>, Option<Seq<char>>)>,
    year: Option<Seq<char>>,
    dashed: Option<Seq<char>>,
    i: int,
)
    ensures
        album_and_date(name, pairs, year, dashed).0 is Some,
        (0 <= i < pairs.len() && qualifies(pairs[i]) && forall|j: int|
            0 <= j < i ==> !qualifies(#[trigger] pairs[j])) ==> album_and_date(
            name,
            pairs,
            year,
            dashed,
        ) == (Some(trim(pairs[i].1.unwrap())), pairs[i].0),
        ((forall|j: int| 0 <= j < pairs.len() ==> !qualifies(#[trigger] pairs[j])) && year is None)
            ==> album_and_date(name, pairs, year, dashed) == (Some(name), None::<Seq<char>>),
        ((forall|j: int| 0 <= j < pairs.len() ==> !qualifies(#[trigger] pairs[j])) && year is Some
            && dashed is Some && trim(dashed.unwrap()).len() > 0) ==> album_and_date(
            name,
            pairs,
            year,
            dashed,
        ) == (Some(trim(dashed.unwrap())), year),
{
    if 0 <= i < pairs.len() && qualifies(pairs[i]) && forall|j: int|
        0 <= j < i ==> !qualifies(#[trigger] pairs[j]) {
        lemma_first_pair_is_first(pairs, i);
    }
    if forall|j: int| 0 <= j < pairs.len() ==> !qualifies(#[trigger] pairs[j]) {
        lemma_first_pair_none(pairs);
    }
}

/// The number and title of a file name: the first pattern that matched with a
/// non-blank title gives the number and the title (trimmed); with none, no
/// number and the whole name as title. There is always a title.
pub proof fn lemma_title_choice(
    name: Seq<char>,
    pairs: Seq<(Option<Seq<char>>, Option<Seq<char>>)>,
    i: int,
)
    ensures
        number_and_title(name, pairs).1 is Some,
        (0 <= i < pairs.len() && qualifies(pairs[i]) && forall|j: int|
            0 <= j < i ==> !qualifies(#[trigger] pairs[j])) ==> number_and_title(name, pairs) == (
            pairs[i].0,
            Some(trim(pairs[i].1.unwrap())),
        ),
        (forall|j: int| 0 <= j < pairs.len() ==> !qualifies(#[trigger] pairs[j])) ==> number_and_title(
            name,
            pairs,
        ) == (None::<Seq<char>>, Some(name)),
{
    if 0 <= i < pairs.len() && qualifies(pairs[i]) && forall|j: int|
        0 <= j < i ==> !qualifies(#[trigger] pairs[j]) {
        lemma_first_pair_is_first(pairs, i);
    }
    if forall|j: int| 0 <= j < pairs.len() ==> !qualifies(#[trigger] pairs[j]) {
        lemma_first_pair_none(pairs);
    }
}

/// The disc number: the digits after `disc` win when they form a `u32`, else
/// those after `cd`; with neither, there is no disc number.
pub proof fn lemma_disc_number_choice(n: nat, m: nat, cd: Option<Seq<char>>)
    requires
        n <= u32::MAX,
        m <= u32::MAX,
    ensures
        disc_number_of(Some(decimal(n)), cd) == Some(n),
        disc_number_of(None, Some(decimal(m))) == Some(m),
        disc_number_of(None, None) is None,
{
    lemma_parse_decimal(n, u32::MAX as nat);
    lemma_parse_decimal(m, u32::MAX as nat);
}

/// A track numbered `n` sorts at `n`; a track without a number sorts at 999.
pub proof fn lemma_sort_key_values(n: nat)
    requires
        n <= u32::MAX,
    ensures
        sort_key(Some(decimal(n))) == n,
        sort_key(None) == 999,
{
    lemma_parse_decimal(n, u32::MAX as nat);
}

/// The template goes to the given file, else to `tags.ini`.
pub proof fn lemma_output_path(p: Seq<char>)
    ensures
        or_tags_ini(Some(p)) == p,
        or_tags_ini(None) == "tags.ini"@,
{
}


/// The tracks of key `k` of a two-track sequence.
proof fn lemma_with_key_two(x: TemplateTrackModel, y: TemplateTrackModel, k: nat)
    ensures
        with_key(seq![x, y], k) == with_key(seq![x], k) + with_key(seq![y], k),
{
    assert(seq![x, y] == seq![x] + seq![y]);
    Seq::filter_distributes_over_add(seq![x], seq![y], has_key(k));
}

/// Sorting orders two tracks by number: the smaller key first whatever their
/// order, and two tracks of equal key keep their order.
pub proof fn lemma_sort_two(a: TemplateTrackModel, b: TemplateTrackModel)
    ensures
        key_of(a) < key_of(b) ==> stably_sorted(seq![b, a]) == seq![a, b],
        key_of(a) < key_of(b) ==> stably_sorted(seq![a, b]) == seq![a, b],
        key_of(a) == key_of(b) ==> stably_sorted(seq![b, a]) == seq![b, a],
{
    let ab = seq![a, b];
    let ba = seq![b, a];
    assert forall|k: nat| key_of(a) != key_of(b) implies #[trigger] with_key(ab, k) == with_key(
        ba,
        k,
    ) by {
        lemma_with_key_two(a, b, k);
        lemma_with_key_two(b, a, k);
        lemma_with_key_single(a, k);
        lemma_with_key_single(b, k);
        if key_of(a) != key_of(b) {
            if k == key_of(a) {
                assert(seq![a] + Seq::<TemplateTrackModel>::empty() == Seq::<
                    TemplateTrackModel,
                >::empty() + seq![a]);
            } else if k == key_of(b) {
                assert(seq![b] + Seq::<TemplateTrackModel>::empty() == Seq::<
                    TemplateTrackModel,
                >::empty() + seq![b]);
            } else {
                assert(Seq::<TemplateTrackModel>::empty() + Seq::<TemplateTrackModel>::empty()
                    == Seq::<TemplateTrackModel>::empty());
            }
        }
    }
    if key_of(a) < key_of(b) {
        assert(sorted_by_key(ab));
        assert(is_stable_sort_of(ab, seq![b, a]));
        assert(is_stable_sort_of(ab, ab));
        lemma_stable_sort_unique(stably_sorted(seq![b, a]), ab, seq![b, a]);
        lemma_stable_sort_unique(stably_sorted(ab), ab, ab);
    }
    if key_of(a) == key_of(b) {
        assert(sorted_by_key(ba));
        assert(is_stable_sort_of(ba, ba));
        lemma_stable_sort_unique(stably_sorted(ba), ba, ba);
    }
}

} // verus!

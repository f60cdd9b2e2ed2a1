//! The tags written to each audio file, and the `kid3-cli` arguments that
//! write them.

use vstd::prelude::*;
use crate::parser::{GlobalMeta, GlobalModel, TrackMeta, TrackModel};
use crate::text::{decimal, decimal_string, join, join_strings, opt_view, views};

verus! {

/// The tag values written to one file.
pub struct TrackTags {
    pub title: String,
    pub artist: String,
    pub album: String,
    pub album_artist: String,
    pub date: String,
    pub genre: String,
    pub composer: String,
    pub comment: String,
    pub conductor: String,
    pub publisher: String,
    pub copyright: String,
    pub track_number: String,
    pub disc_number: String,
}

/// The value of a `TrackTags`.
pub struct TrackTagsModel {
    pub title: Seq<char>,
    pub artist: Seq<char>,
    pub album: Seq<char>,
    pub album_artist: Seq<char>,
    pub date: Seq<char>,
    pub genre: Seq<char>,
    pub composer: Seq<char>,
    pub comment: Seq<char>,
    pub conductor: Seq<char>,
    pub publisher: Seq<char>,
    pub copyright: Seq<char>,
    pub track_number: Seq<char>,
    pub disc_number: Seq<char>,
}

impl View for TrackTags {
    type V = TrackTagsModel;

    open spec fn view(&self) -> TrackTagsModel {
        TrackTagsModel {
            title: self.title@,
            artist: self.artist@,
            album: self.album@,
            album_artist: self.album_artist@,
            date: self.date@,
            genre: self.genre@,
            composer: self.composer@,
            comment: self.comment@,
            conductor: self.conductor@,
            publisher: self.publisher@,
            copyright: self.copyright@,
            track_number: self.track_number@,
            disc_number: self.disc_number@,
        }
    }
}

/// The value if there is one, else `default`.
pub open spec fn or_default(v: Option<Seq<char>>, default: Seq<char>) -> Seq<char> {
    match v {
        Some(x) => x,
        None => default,
    }
}

/// The track's own value, else the album-wide one, else the empty text.
pub open spec fn track_or_global(t: Option<Seq<char>>, g: Option<Seq<char>>) -> Seq<char> {
    match t {
        Some(x) => x,
        None => or_default(g, Seq::empty()),
    }
}

/// A list of names as one tag value, separated by `"; "`.
pub open spec fn name_list(names: Seq<Seq<char>>) -> Seq<char> {
    join(names, "; "@)
}

/// The tags of a track, its own tags taking precedence over the album-wide
/// ones. A track has no album, album artist, publisher or copyright of its own,
/// so these come from the album-wide tags.
pub open spec fn merged_tags(g: GlobalModel, t: TrackModel) -> TrackTagsModel {
    TrackTagsModel {
        title: or_default(t.title, "Unknown"@),
        artist: if t.artist.len() > 0 {
            name_list(t.artist)
        } else {
            name_list(g.album_artist)
        },
        album: or_default(g.album, "Unknown Album"@),
        album_artist: name_list(g.album_artist),
        date: track_or_global(t.date, g.date),
        genre: track_or_global(t.genre, g.genre),
        composer: track_or_global(t.composer, g.composer),
        comment: track_or_global(t.comment, g.comment),
        conductor: track_or_global(t.conductor, g.conductor),
        publisher: or_default(g.publisher, Seq::empty()),
        copyright: or_default(g.copyright, Seq::empty()),
        track_number: or_default(t.number, Seq::empty()),
        disc_number: match t.disc {
            Some(d) => decimal(d as nat),
            None => Seq::empty(),
        },
    }
}

fn value_or(v: &Option<String>, default: &str) -> (r: String)
    ensures
        r@ == or_default(opt_view(*v), default@),
{
    match v {
        Some(x) => x.clone(),
        None => default.to_owned(),
    }
}

fn track_or_global_value(t: &Option<String>, g: &Option<String>) -> (r: String)
    ensures
        r@ == track_or_global(opt_view(*t), opt_view(*g)),
{
    match t {
        Some(x) => {
            let r = x.clone();
            assert(opt_view(*t) == Some(x@));
            r
        },
        None => {
            let r = value_or(g, "");
            proof {
                reveal_strlit("");
                assert(""@ =~= Seq::<char>::empty());
            }
            r
        },
    }
}

/// The tags written to a track's file (see `merged_tags`).
pub fn merge_tags(global: &GlobalMeta, track: &TrackMeta) -> (r: TrackTags)
    ensures
        r@ == merged_tags(global@, track@),
{
    let artist = if track.artist.len() > 0 {
        join_strings(&track.artist, "; ")
    } else {
        join_strings(&global.album_artist, "; ")
    };
    let disc_number = match track.disc {
        Some(d) => decimal_string(d as u32),
        None => String::new(),
    };
    proof {
        reveal_strlit("");
        assert(""@ =~= Seq::<char>::empty());
    }
    TrackTags {
        title: value_or(&track.title, "Unknown"),
        artist,
        album: value_or(&global.album, "Unknown Album"),
        album_artist: join_strings(&global.album_artist, "; "),
        date: track_or_global_value(&track.date, &global.date),
        genre: track_or_global_value(&track.genre, &global.genre),
        composer: track_or_global_value(&track.composer, &global.composer),
        comment: track_or_global_value(&track.comment, &global.comment),
        conductor: track_or_global_value(&track.conductor, &global.conductor),
        publisher: value_or(&global.publisher, ""),
        copyright: value_or(&global.copyright, ""),
        track_number: value_or(&track.number, ""),
        disc_number,
    }
}

/// The `kid3-cli` commands that write the tags, then save.
pub open spec fn kid3_commands(t: TrackTagsModel) -> Seq<Seq<char>> {
    seq![
        "set TITLE \""@ + t.title + "\""@,
        "set ARTIST \""@ + t.artist + "\""@,
        "set ALBUM \""@ + t.album + "\""@,
        "set ALBUMARTIST \""@ + t.album_artist + "\""@,
        "set DATE \""@ + t.date + "\""@,
        "set GENRE \""@ + t.genre + "\""@,
        "set COMPOSER \""@ + t.composer + "\""@,
        "set COMMENT \""@ + t.comment + "\""@,
        "set CONDUCTOR \""@ + t.conductor + "\""@,
        "set PUBLISHER \""@ + t.publisher + "\""@,
        "set COPYRIGHT \""@ + t.copyright + "\""@,
        "set TRACKNUMBER \""@ + t.track_number + "\""@,
        "set DISCNUMBER \""@ + t.disc_number + "\""@,
        "save"@,
    ]
}

/// Each command preceded by `-c`.
pub open spec fn flagged(commands: Seq<Seq<char>>) -> Seq<Seq<char>>
    decreases commands.len(),
{
    if commands.len() == 0 {
        Seq::empty()
    } else {
        flagged(commands.drop_last()) + seq!["-c"@, commands.last()]
    }
}

/// The arguments of `kid3-cli` for one track: the file, then each command
/// after `-c`.
pub open spec fn kid3_arguments(g: GlobalModel, t: TrackModel) -> Seq<Seq<char>> {
    seq![t.file] + flagged(kid3_commands(merged_tags(g, t)))
}

fn set_command(prefix: &str, value: &String) -> (r: String)
    ensures
        r@ == prefix@ + value@ + "\""@,
{
    let mut r = prefix.to_owned();
    r.append(value.as_str());
    r.append("\"");
    r
}

/// The commands of `kid3_commands`.
pub fn tag_commands(t: &TrackTags) -> (r: Vec<String>)
    ensures
        views(r@) == kid3_commands(t@),
{
    let mut r: Vec<String> = Vec::new();
    r.push(set_command("set TITLE \"", &t.title));
    r.push(set_command("set ARTIST \"", &t.artist));
    r.push(set_command("set ALBUM \"", &t.album));
    r.push(set_command("set ALBUMARTIST \"", &t.album_artist));
    r.push(set_command("set DATE \"", &t.date));
    r.push(set_command("set GENRE \"", &t.genre));
    r.push(set_command("set COMPOSER \"", &t.composer));
    r.push(set_command("set COMMENT \"", &t.comment));
    r.push(set_command("set CONDUCTOR \"", &t.conductor));
    r.push(set_command("set PUBLISHER \"", &t.publisher));
    r.push(set_command("set COPYRIGHT \"", &t.copyright));
    r.push(set_command("set TRACKNUMBER \"", &t.track_number));
    r.push(set_command("set DISCNUMBER \"", &t.disc_number));
    r.push("save".to_owned());
    assert(views(r@) =~= kid3_commands(t@));
    r
}

/// The arguments of `kid3-cli` that write the tags of one track to its file
/// (see `kid3_arguments`).
pub fn kid3_command_arguments(global: &GlobalMeta, track: &TrackMeta) -> (r: Vec<String>)
    ensures
        views(r@) == kid3_arguments(global@, track@),
{
    let tags = merge_tags(global, track);
    let commands = tag_commands(&tags);
    let ghost cs = views(commands@);
    let mut r: Vec<String> = Vec::new();
    r.push(track.file.clone());
    let mut i: usize = 0;
    while i < commands.len()
        invariant
            i <= commands@.len(),
            cs == views(commands@),
            views(r@) == seq![track.file@] + flagged(cs.take(i as int)),
        decreases commands.len() - i,
    {
        let ghost before = views(r@);
        r.push("-c".to_owned());
        r.push(commands[i].clone());
        assert(cs.take(i + 1).drop_last() == cs.take(i as int));
        assert(views(r@) == before + seq!["-c"@, cs[i as int]]);
        i += 1;
    }
    assert(cs.take(commands@.len() as int) == cs);
    r
}


/// The value of an optional text, else `d`.
pub open spec fn value_else(o: Option<Seq<char>>, d: Seq<char>) -> Seq<char> {
    if o is Some {
        o.unwrap()
    } else {
        d
    }
}

/// A track's own value of date, genre, composer, comment or conductor is the
/// value written, whatever the album-wide value is; the album-wide value is
/// written only when the track has none, and the empty text when neither has
/// one. The title is the track's, else `Unknown`; the artists are the track's,
/// else the album artists; album, album artist, publisher and copyright come
/// from the album-wide tags.
pub proof fn lemma_track_overrides_global(g: GlobalModel, t: TrackModel)
    ensures
        (t.date is Some) ==> merged_tags(g, t).date == t.date.unwrap(),
        (t.genre is Some) ==> merged_tags(g, t).genre == t.genre.unwrap(),
        (t.composer is Some) ==> merged_tags(g, t).composer == t.composer.unwrap(),
        (t.comment is Some) ==> merged_tags(g, t).comment == t.comment.unwrap(),
        (t.conductor is Some) ==> merged_tags(g, t).conductor == t.conductor.unwrap(),
        (t.date is None) ==> merged_tags(g, t).date == value_else(g.date, Seq::empty()),
        (t.genre is None) ==> merged_tags(g, t).genre == value_else(g.genre, Seq::empty()),
        (t.composer is None) ==> merged_tags(g, t).composer == value_else(g.composer, Seq::empty()),
        (t.comment is None) ==> merged_tags(g, t).comment == value_else(g.comment, Seq::empty()),
        (t.conductor is None) ==> merged_tags(g, t).conductor == value_else(
            g.conductor,
            Seq::empty(),
        ),
        merged_tags(g, t).title == value_else(t.title, "Unknown"@),
        (t.artist.len() > 0) ==> merged_tags(g, t).artist == join(t.artist, "; "@),
        (t.artist.len() == 0) ==> merged_tags(g, t).artist == join(g.album_artist, "; "@),
        merged_tags(g, t).album == value_else(g.album, "Unknown Album"@),
        merged_tags(g, t).album_artist == join(g.album_artist, "; "@),
        merged_tags(g, t).publisher == value_else(g.publisher, Seq::empty()),
        merged_tags(g, t).copyright == value_else(g.copyright, Seq::empty()),
        merged_tags(g, t).track_number == value_else(t.number, Seq::empty()),
        (t.disc is Some) ==> merged_tags(g, t).disc_number == decimal(t.disc.unwrap() as nat),
        (t.disc is None) ==> merged_tags(g, t).disc_number == Seq::<char>::empty(),
{
}

/// Where the album-wide value of date, genre, composer, comment and conductor
/// is not used: two sets of album-wide tags give the same values for a track
/// that has its own.
pub proof fn lemma_track_values_ignore_global(g1: GlobalModel, g2: GlobalModel, t: TrackModel)
    ensures
        (t.date is Some) ==> merged_tags(g1, t).date == merged_tags(g2, t).date,
        (t.genre is Some) ==> merged_tags(g1, t).genre == merged_tags(g2, t).genre,
        (t.composer is Some) ==> merged_tags(g1, t).composer == merged_tags(g2, t).composer,
        (t.comment is Some) ==> merged_tags(g1, t).comment == merged_tags(g2, t).comment,
        (t.conductor is Some) ==> merged_tags(g1, t).conductor == merged_tags(g2, t).conductor,
{
    lemma_track_overrides_global(g1, t);
    lemma_track_overrides_global(g2, t);
}

/// `-c` before each command: positions and length.
proof fn lemma_flagged_positions(cs: Seq<Seq<char>>)
    ensures
        flagged(cs).len() == 2 * cs.len(),
        forall|i: int| 0 <= i < cs.len() ==> #[trigger] flagged(cs)[2 * i] == "-c"@,
        forall|i: int| 0 <= i < cs.len() ==> #[trigger] flagged(cs)[2 * i + 1] == cs[i],
    decreases cs.len(),
{
    if cs.len() > 0 {
        let init = cs.drop_last();
        lemma_flagged_positions(init);
        assert forall|i: int| 0 <= i < cs.len() implies #[trigger] flagged(cs)[2 * i] == "-c"@ by {
            if i < init.len() {
                assert(flagged(cs)[2 * i] == flagged(init)[2 * i]);
            }
        }
        assert forall|i: int| 0 <= i < cs.len() implies #[trigger] flagged(cs)[2 * i + 1]
            == cs[i] by {
            if i < init.len() {
                assert(flagged(cs)[2 * i + 1] == flagged(init)[2 * i + 1]);
                assert(init[i] == cs[i]);
            }
        }
    }
}

/// The `kid3-cli` arguments of a track: its file, then for each tag `-c` and a
/// command that sets that tag to the track's value (or the album-wide one, see
/// `lemma_track_overrides_global`), then `-c save`. In particular the album
/// artist command carries the album-wide album artists and the artist command
/// the track's artists.
pub proof fn lemma_kid3_arguments_layout(g: GlobalModel, t: TrackModel)
    ensures
        kid3_arguments(g, t).len() == 29,
        kid3_arguments(g, t)[0] == t.file,
        forall|i: int| 0 <= i < 14 ==> #[trigger] kid3_arguments(g, t)[2 * i + 1] == "-c"@,
        kid3_arguments(g, t)[2] == "set TITLE \""@ + value_else(t.title, "Unknown"@) + "\""@,
        kid3_arguments(g, t)[4] == "set ARTIST \""@ + (if t.artist.len() > 0 {
            join(t.artist, "; "@)
        } else {
            join(g.album_artist, "; "@)
        }) + "\""@,
        kid3_arguments(g, t)[6] == "set ALBUM \""@ + value_else(g.album, "Unknown Album"@) + "\""@,
        kid3_arguments(g, t)[8] == "set ALBUMARTIST \""@ + join(g.album_artist, "; "@) + "\""@,
        kid3_arguments(g, t)[10] == "set DATE \""@ + value_else(
            t.date,
            value_else(g.date, Seq::empty()),
        ) + "\""@,
        kid3_arguments(g, t)[12] == "set GENRE \""@ + value_else(
            t.genre,
            value_else(g.genre, Seq::empty()),
        ) + "\""@,
        kid3_arguments(g, t)[14] == "set COMPOSER \""@ + value_else(
            t.composer,
            value_else(g.composer, Seq::empty()),
        ) + "\""@,
        kid3_arguments(g, t)[16] == "set COMMENT \""@ + value_else(
            t.comment,
            value_else(g.comment, Seq::empty()),
        ) + "\""@,
        kid3_arguments(g, t)[18] == "set CONDUCTOR \""@ + value_else(
            t.conductor,
            value_else(g.conductor, Seq::empty()),
        ) + "\""@,
        kid3_arguments(g, t)[20] == "set PUBLISHER \""@ + value_else(g.publisher, Seq::empty())
            + "\""@,
        kid3_arguments(g, t)[22] == "set COPYRIGHT \""@ + value_else(g.copyright, Seq::empty())
            + "\""@,
        kid3_arguments(g, t)[24] == "set TRACKNUMBER \""@ + value_else(t.number, Seq::empty())
            + "\""@,
        kid3_arguments(g, t)[26] == "set DISCNUMBER \""@ + (if t.disc is Some {
            decimal(t.disc.unwrap() as nat)
        } else {
            Seq::empty()
        }) + "\""@,
        kid3_arguments(g, t)[28] == "save"@,
{
    let cs = kid3_commands(merged_tags(g, t));
    lemma_flagged_positions(cs);
    lemma_track_overrides_global(g, t);
    let a = kid3_arguments(g, t);
    assert forall|i: int| 0 <= i < 14 implies #[trigger] a[2 * i + 1] == "-c"@ by {
        assert(a[2 * i + 1] == flagged(cs)[2 * i]);
    }
    assert forall|i: int| 0 <= i < 14 implies a[2 * i + 2] == cs[i] by {
        assert(a[2 * i + 2] == flagged(cs)[2 * i + 1]);
    }
    assert(a[2] == cs[0]);
    assert(a[4] == cs[1]);
    assert(a[6] == cs[2]);
    assert(a[8] == cs[3]);
    assert(a[10] == cs[4]);
    assert(a[12] == cs[5]);
    assert(a[14] == cs[6]);
    assert(a[16] == cs[7]);
    assert(a[18] == cs[8]);
    assert(a[20] == cs[9]);
    assert(a[22] == cs[10]);
    assert(a[24] == cs[11]);
    assert(a[26] == cs[12]);
    assert(a[28] == cs[13]);
}

} // verus!

use editag::parser::{GlobalMeta, TrackMeta};
use editag::writer::{kid3_command_arguments, merge_tags, tag_commands};

fn global() -> GlobalMeta {
    GlobalMeta {
        album: Some("Album".to_string()),
        album_artist: vec!["A1".to_string(), "A2".to_string()],
        composer: Some("GC".to_string()),
        genre: Some("GG".to_string()),
        date: Some("2000".to_string()),
        comment: None,
        conductor: Some("GD".to_string()),
        publisher: Some("Pub".to_string()),
        copyright: None,
    }
}

fn track() -> TrackMeta {
    TrackMeta {
        file: "01.flac".to_string(),
        number: Some("01".to_string()),
        title: None,
        artist: Vec::new(),
        disc: Some(12),
        composer: Some("TC".to_string()),
        genre: None,
        date: None,
        comment: Some("TM".to_string()),
        conductor: None,
    }
}

#[test]
fn track_tags_override_global_ones() {
    let tags = merge_tags(&global(), &track());
    assert_eq!(tags.title, "Unknown");
    assert_eq!(tags.artist, "A1; A2");
    assert_eq!(tags.album, "Album");
    assert_eq!(tags.album_artist, "A1; A2");
    assert_eq!(tags.date, "2000");
    assert_eq!(tags.genre, "GG");
    assert_eq!(tags.composer, "TC");
    assert_eq!(tags.comment, "TM");
    assert_eq!(tags.conductor, "GD");
    assert_eq!(tags.publisher, "Pub");
    assert_eq!(tags.copyright, "");
    assert_eq!(tags.track_number, "01");
    assert_eq!(tags.disc_number, "12");
}

#[test]
fn track_artists_and_defaults() {
    let mut t = track();
    t.artist = vec!["X".to_string(), "Y".to_string(), "Z".to_string()];
    t.title = Some("T".to_string());
    t.disc = None;
    t.number = None;
    let g = GlobalMeta {
        album: None,
        album_artist: Vec::new(),
        composer: None,
        genre: None,
        date: None,
        comment: None,
        conductor: None,
        publisher: None,
        copyright: None,
    };
    let tags = merge_tags(&g, &t);
    assert_eq!(tags.title, "T");
    assert_eq!(tags.artist, "X; Y; Z");
    assert_eq!(tags.album, "Unknown Album");
    assert_eq!(tags.album_artist, "");
    assert_eq!(tags.genre, "");
    assert_eq!(tags.track_number, "");
    assert_eq!(tags.disc_number, "");
}

#[test]
fn commands_and_arguments() {
    let tags = merge_tags(&global(), &track());
    let commands = tag_commands(&tags);
    assert_eq!(commands.len(), 14);
    assert_eq!(commands[0], "set TITLE \"Unknown\"");
    assert_eq!(commands[1], "set ARTIST \"A1; A2\"");
    assert_eq!(commands[12], "set DISCNUMBER \"12\"");
    assert_eq!(commands[13], "save");
    let args = kid3_command_arguments(&global(), &track());
    assert_eq!(args.len(), 29);
    assert_eq!(args[0], "01.flac");
    assert_eq!(args[1], "-c");
    assert_eq!(args[2], "set TITLE \"Unknown\"");
    assert_eq!(args[27], "-c");
    assert_eq!(args[28], "save");
    assert_eq!(args[10], "set DATE \"2000\"");
}

use editag::parser::{normalize_key, parse_config, strip_whitespace};

#[test]
fn normalize_key_removes_case_and_spaces() {
    assert_eq!(normalize_key("  Album Artist "), "albumartist");
    assert_eq!(normalize_key("TITLE"), "title");
    assert_eq!(normalize_key("Disc\tNumber"), "discnumber");
    assert_eq!(normalize_key(""), "");
}

#[test]
fn parse_global_and_tracks() {
    let content = "[Global]\nAlbum = \"Blue\"\nAlbum Artist = A\nAlbum Artist = B\nDate: 1999\n\n[Track 01]\nFile = \"01.flac\"\nTitle = \"One\"\nArtist = X\n[Track 02]\nfile=02.flac\nDisc = 2\n";
    let (g, tracks) = parse_config(content);
    assert_eq!(g.album.as_deref(), Some("Blue"));
    assert_eq!(g.album_artist, vec!["A".to_string(), "B".to_string()]);
    assert_eq!(g.date.as_deref(), Some("1999"));
    assert_eq!(g.genre, None);
    assert_eq!(tracks.len(), 2);
    assert_eq!(tracks[0].file, "01.flac");
    assert_eq!(tracks[0].number.as_deref(), Some("01"));
    assert_eq!(tracks[0].title.as_deref(), Some("One"));
    assert_eq!(tracks[0].artist, vec!["X".to_string()]);
    assert_eq!(tracks[0].disc, None);
    assert_eq!(tracks[1].file, "02.flac");
    assert_eq!(tracks[1].disc, Some(2));
}

#[test]
fn parse_empty_text() {
    let (g, tracks) = parse_config("");
    assert_eq!(g.album, None);
    assert!(g.album_artist.is_empty());
    assert!(tracks.is_empty());
}

#[test]
fn comments_and_blank_lines_are_skipped() {
    let plain = "Album = X\n[Track 1]\nFile = a.mp3\n";
    let commented = "; a comment\nAlbum = X\n\n   # another = comment\n[Track 1]\n  \nFile = a.mp3\n";
    let (g1, t1) = parse_config(plain);
    let (g2, t2) = parse_config(commented);
    assert_eq!(g1.album, g2.album);
    assert_eq!(t1.len(), t2.len());
    assert_eq!(t1[0].file, t2[0].file);
    assert_eq!(t1[0].number, t2[0].number);
}

#[test]
fn one_track_per_header() {
    let content = "[Track]\n[Track 7]\n[Track]\nTitle = last\n";
    let (_, tracks) = parse_config(content);
    assert_eq!(tracks.len(), 3);
    assert_eq!(tracks[0].number, None);
    assert_eq!(tracks[1].number.as_deref(), Some("7"));
    assert_eq!(tracks[2].title.as_deref(), Some("last"));
}

#[test]
fn disc_markers_apply_to_tracks_without_their_own_disc() {
    let content = "[Disc 1]\n[Track 1]\nFile=a\n[Track 2]\nFile=b\nDisc=3\n[Disc 2]\n[Track 3]\nFile=c\n";
    let (_, tracks) = parse_config(content);
    assert_eq!(tracks.len(), 3);
    assert_eq!(tracks[0].disc, Some(1));
    assert_eq!(tracks[1].disc, Some(3));
    assert_eq!(tracks[2].disc, Some(2));
}

#[test]
fn disc_marker_in_effect_when_a_track_is_finished() {
    // The second marker comes before the track that it follows is finished.
    let content = "[Disc 1]\n[Track 1]\nFile=a\n[Disc 2]\n[Track 2]\nFile=b\n";
    let (_, tracks) = parse_config(content);
    assert_eq!(tracks[0].disc, Some(2));
    assert_eq!(tracks[1].disc, Some(2));
}

#[test]
fn invalid_disc_values_are_ignored() {
    let content = "[Disc 300]\n[Disc x]\n[Track 1]\nDisc = 256\n[Track 2]\nDisc = +7\n[Track 3]\nDisc = -1\n";
    let (_, tracks) = parse_config(content);
    assert_eq!(tracks[0].disc, None);
    assert_eq!(tracks[1].disc, Some(7));
    assert_eq!(tracks[2].disc, None);
}

#[test]
fn empty_values_and_quotes() {
    let content = "Album =\nAlbum Artist =\nComposer = \"\"\nGenre = \"\"Rock\"\"\n[Track]\nArtist =\nArtist = \"Y\"\nTitle:\n";
    let (g, tracks) = parse_config(content);
    assert_eq!(g.album.as_deref(), Some(""));
    assert!(g.album_artist.is_empty());
    assert_eq!(g.composer.as_deref(), Some(""));
    assert_eq!(g.genre.as_deref(), Some("Rock"));
    assert_eq!(tracks[0].artist, vec!["Y".to_string()]);
    assert_eq!(tracks[0].title.as_deref(), Some(""));
}

#[test]
fn equals_sign_splits_before_colon() {
    let content = "Comment = a: b = c\nConductor: x = y\n";
    let (g, _) = parse_config(content);
    assert_eq!(g.comment.as_deref(), Some("a: b = c"));
    assert_eq!(g.conductor, None);
}

#[test]
fn unknown_keys_and_lines_without_separator_are_ignored() {
    let content = "Mood = calm\njust some words\nPublisher = P\nCopyright = C\n[Track]\nPublisher = Q\n";
    let (g, tracks) = parse_config(content);
    assert_eq!(g.publisher.as_deref(), Some("P"));
    assert_eq!(g.copyright.as_deref(), Some("C"));
    assert_eq!(tracks.len(), 1);
}

#[test]
fn later_values_replace_earlier_ones() {
    let content = "Genre = A\nGenre = B\n[Track]\nTitle = x\nTitle = y\n";
    let (g, tracks) = parse_config(content);
    assert_eq!(g.genre.as_deref(), Some("B"));
    assert_eq!(tracks[0].title.as_deref(), Some("y"));
}

#[test]
fn crlf_line_endings() {
    let content = "Album = \"A\"\r\n[Track 1]\r\nFile = \"f.flac\"\r\n";
    let (g, tracks) = parse_config(content);
    assert_eq!(g.album.as_deref(), Some("A"));
    assert_eq!(tracks[0].file, "f.flac");
}

#[test]
fn global_and_track_fields() {
    let content = "Comment = gc\nConductor = gd\n[Track]\nNumber = 9\nComposer = tc\nGenre = tg\nDate = td\nComment = tm\nConductor = tn\n";
    let (g, tracks) = parse_config(content);
    assert_eq!(g.comment.as_deref(), Some("gc"));
    assert_eq!(g.conductor.as_deref(), Some("gd"));
    let t = &tracks[0];
    assert_eq!(t.number.as_deref(), Some("9"));
    assert_eq!(t.composer.as_deref(), Some("tc"));
    assert_eq!(t.genre.as_deref(), Some("tg"));
    assert_eq!(t.date.as_deref(), Some("td"));
    assert_eq!(t.comment.as_deref(), Some("tm"));
    assert_eq!(t.conductor.as_deref(), Some("tn"));
}

#[test]
fn whitespace_is_removed() {
    assert_eq!(strip_whitespace(" a b\tc\n"), "abc");
    assert_eq!(strip_whitespace("\u{2003}"), "");
}

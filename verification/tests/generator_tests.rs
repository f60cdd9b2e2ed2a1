use editag::generator::{
    describe_directory, detect_disc_directory, is_audio_extension, is_listed_audio_extension, output_path, parse_album_from_dir, parse_filename,
    render_template, sort_tracks, template_content, track_sort_key, TemplateTrack,
};
use editag::parser::parse_config;

fn track(file: &str, number: Option<&str>, title: Option<&str>) -> TemplateTrack {
    TemplateTrack {
        file: file.to_string(),
        number: number.map(|s| s.to_string()),
        title: title.map(|s| s.to_string()),
    }
}

#[test]
fn audio_extensions() {
    assert!(is_audio_extension("flac"));
    assert!(is_audio_extension("MP3"));
    assert!(is_audio_extension("Opus"));
    assert!(is_audio_extension("wma"));
    assert!(!is_audio_extension("txt"));
    assert!(!is_audio_extension(""));
    assert!(!is_audio_extension("flacx"));
}

#[test]
fn disc_directories() {
    assert_eq!(detect_disc_directory("Disc 2"), Some(2));
    assert_eq!(detect_disc_directory("disc10"), Some(10));
    assert_eq!(detect_disc_directory("CD 3"), Some(3));
    assert_eq!(detect_disc_directory("cd1"), Some(1));
    assert_eq!(detect_disc_directory("Discography"), None);
    assert_eq!(detect_disc_directory("2020 - Album"), None);
    assert_eq!(detect_disc_directory("disc 99999999999"), None);
}

#[test]
fn album_directories() {
    assert_eq!(
        parse_album_from_dir("2023 - Something"),
        (Some("Something".to_string()), Some("2023".to_string()))
    );
    assert_eq!(
        parse_album_from_dir("1999 Album Name"),
        (Some("Album Name".to_string()), Some("1999".to_string()))
    );
    assert_eq!(
        parse_album_from_dir("2001. Odyssey"),
        (Some("Odyssey".to_string()), Some("2001".to_string()))
    );
    assert_eq!(
        parse_album_from_dir("(1984) Title"),
        (Some("Title".to_string()), Some("1984".to_string()))
    );
    assert_eq!(
        parse_album_from_dir("[2010] Other"),
        (Some("Other".to_string()), Some("2010".to_string()))
    );
    assert_eq!(
        parse_album_from_dir("2020Thing"),
        (Some("Thing".to_string()), Some("2020".to_string()))
    );
    assert_eq!(parse_album_from_dir("Just An Album"), (Some("Just An Album".to_string()), None));
    assert_eq!(parse_album_from_dir("2020"), (Some("2020".to_string()), None));
    assert_eq!(
        parse_album_from_dir("20202020x"),
        (Some("x".to_string()), Some("2020".to_string()))
    );
}

#[test]
fn file_names() {
    assert_eq!(
        parse_filename("03. Title.flac"),
        (Some("03".to_string()), Some("Title".to_string()))
    );
    assert_eq!(
        parse_filename("03 - Some Song.mp3"),
        (Some("03".to_string()), Some("Some Song".to_string()))
    );
    assert_eq!(
        parse_filename("7_Seven.opus"),
        (Some("7".to_string()), Some("Seven".to_string()))
    );
    assert_eq!(
        parse_filename("12 Twelve.wv"),
        (Some("12".to_string()), Some("Twelve".to_string()))
    );
    assert_eq!(parse_filename("Intro.flac"), (None, Some("Intro".to_string())));
    assert_eq!(parse_filename("1234 Song.flac"), (None, Some("1234 Song".to_string())));
    assert_eq!(parse_filename(".hidden"), (None, Some(".hidden".to_string())));
}

#[test]
fn sort_keys() {
    assert_eq!(track_sort_key(&Some("07".to_string())), 7);
    assert_eq!(track_sort_key(&Some("x".to_string())), 999);
    assert_eq!(track_sort_key(&None), 999);
}

#[test]
fn sorting_is_stable_by_number() {
    let tracks = vec![
        track("c", Some("3"), None),
        track("x", None, None),
        track("a", Some("1"), None),
        track("b", Some("01"), None),
        track("y", Some("999"), None),
        track("z", None, None),
    ];
    let sorted = sort_tracks(tracks);
    let files: Vec<&str> = sorted.iter().map(|t| t.file.as_str()).collect();
    assert_eq!(files, vec!["a", "b", "c", "x", "y", "z"]);
}

#[test]
fn render_exact_text() {
    let tracks = vec![
        track("01 - One.flac", Some("01"), Some("One")),
        track("Intro.flac", None, Some("Intro")),
    ];
    let text = render_template(&Some("Blue".to_string()), &Some("1999".to_string()), Some(2), &tracks);
    assert_eq!(
        text,
        "[Global]\nAlbum = \"Blue\"\nAlbum Artist = \nDate = \"1999\"\nGenre = \nComposer = \n\n[Disc 2]\n\n[Track 01]\nFile = \"01 - One.flac\"\nTitle = \"One\"\nArtist = \n\n[Track]\nFile = \"Intro.flac\"\nTitle = \"Intro\"\nArtist = \n\n"
    );
    let bare = render_template(&None, &None, None, &vec![track("f", None, None)]);
    assert_eq!(
        bare,
        "[Global]\nAlbum = \nAlbum Artist = \nGenre = \nComposer = \n\n[Track]\nFile = \"f\"\nTitle = \nArtist = \n\n"
    );
}

#[test]
fn template_sorts_tracks() {
    let tracks = vec![track("b", Some("2"), None), track("a", Some("1"), None)];
    let text = template_content(&None, &None, None, tracks);
    let a = text.find("File = \"a\"").unwrap();
    let b = text.find("File = \"b\"").unwrap();
    assert!(a < b);
}

#[test]
fn template_reads_back() {
    let tracks = vec![
        track("02 - Two.flac", Some("02"), Some("Two")),
        track("01 - One.flac", Some("01"), Some("One")),
        track("Bonus.flac", None, None),
    ];
    let text = template_content(&Some("Blue".to_string()), &Some("1999".to_string()), Some(3), tracks);
    let (g, parsed) = parse_config(&text);
    assert_eq!(g.album.as_deref(), Some("Blue"));
    assert_eq!(g.date.as_deref(), Some("1999"));
    assert_eq!(g.genre.as_deref(), Some(""));
    assert_eq!(g.composer.as_deref(), Some(""));
    assert!(g.album_artist.is_empty());
    assert_eq!(parsed.len(), 3);
    assert_eq!(parsed[0].file, "01 - One.flac");
    assert_eq!(parsed[0].number.as_deref(), Some("01"));
    assert_eq!(parsed[0].title.as_deref(), Some("One"));
    assert_eq!(parsed[1].file, "02 - Two.flac");
    assert_eq!(parsed[2].number, None);
    assert_eq!(parsed[2].title.as_deref(), Some(""));
    for t in &parsed {
        assert_eq!(t.disc, Some(3));
        assert!(t.artist.is_empty());
    }
}

#[test]
fn large_disc_number_is_not_read_back() {
    let text = render_template(&None, &None, Some(300), &vec![track("f", None, None)]);
    let (g, parsed) = parse_config(&text);
    assert_eq!(g.album.as_deref(), Some(""));
    assert_eq!(parsed[0].disc, None);
}

#[test]
fn default_output_path() {
    assert_eq!(output_path(None), "tags.ini");
    assert_eq!(output_path(Some("x.ini".to_string())), "x.ini");
}

#[test]
fn listed_extensions_are_lowercase() {
    assert!(is_listed_audio_extension("m4a"));
    assert!(!is_listed_audio_extension("M4A"));
}

#[test]
fn directory_description() {
    assert_eq!(
        describe_directory("CD 2", &Some("2019 - Live".to_string())),
        (Some(2), Some("Live".to_string()), Some("2019".to_string()))
    );
    assert_eq!(
        describe_directory("2019 - Live", &Some("Music".to_string())),
        (None, Some("Live".to_string()), Some("2019".to_string()))
    );
    assert_eq!(describe_directory("Disc 1", &None), (Some(1), Some("Disc 1".to_string()), None));
}

# editag

Edits the tags of audio files from an INI-like configuration file
(`tags.ini`), and writes such a file as a template for the audio files of a
directory.

- `src/` is the verified library:
  - `text.rs`: character-level operations (whitespace, trimming, splitting,
    decimal numbers, joining) with their mathematical meaning;
  - `parser.rs`: reading a configuration text into album-wide and per-track
    tags, with laws on comment lines and track sections;
  - `generator.rs`: what directory and file names say of album, date, disc,
    track number and title, the stable sort of the tracks, and the template
    text;
  - `writer.rs`: the tags written to each file and the `kid3-cli` arguments;
  - `round_trip.rs`: a generated template reads back as what was put into it;
  - `bindings.rs`: the calls into std and the `regex` crate taken on trust;
  - `cli.rs`: the commands.
- `app/main.rs` is the program: command line (clap), files, the directory
  listing and the `kid3-cli` processes.

//! The commands of the program.

use vstd::prelude::*;

verus! {

/// The command line: one subcommand.
#[derive(Debug)]
pub struct Cli {
    pub command: Commands,
}

/// The subcommands.
#[derive(Debug)]
pub enum Commands {
    /// Write the tags of a configuration file to the audio files; with
    /// `dry_run`, only show the tracks.
    Write { config: String, dry_run: bool },
    /// Write a template configuration for the current directory.
    Generate { output: Option<String> },
}

} // verus!

//! Audio tag configuration: parsing of the INI-style tag file, generation of a
//! template from a directory listing, and the tag commands written per track.

pub mod bindings;
pub mod text;
pub mod parser;
pub mod generator;
pub mod writer;
pub mod cli;
pub mod round_trip;

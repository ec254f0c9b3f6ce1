//! Errors raised while parsing a song or loading the waveform bank.

use vstd::prelude::*;

verus! {

/// Errors of the song parser.
#[derive(Clone, Copy, Debug, PartialEq, Eq, Structural)]
pub enum FormatError {
    /// Fewer bytes remain than a field requires.
    Truncated,
    /// The 6-byte format tag is not valid text.
    InvalidTag,
}

/// The waveform bank's byte source cannot supply a required length.
#[derive(Clone, Copy, Debug, PartialEq, Eq, Structural)]
pub struct IoError;

/// An instrument index referenced by a track descriptor is out of range
/// for the loaded waveform bank.
#[derive(Clone, Copy, Debug, PartialEq, Eq, Structural)]
pub struct ConfigError;

} // verus!

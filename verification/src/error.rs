use vstd::prelude::*;

verus! {

/// Library error taxonomy. Each public operation surfaces one of these
/// instead of panicking; the payload carries the human-readable reason.
#[derive(Debug)]
pub enum AudioPaletteError {
    /// The input file could not be opened, probed or decoded.
    AudioLoadError(String),
    /// A persistence-layer failure, wrapped verbatim.
    DatabaseError(String),
    /// Audio too short, empty samples, or a serialization failure.
    FingerprintError(String),
    /// A filesystem failure during export.
    IoError(String),
    /// An empty match list or a MIDI encoding failure.
    MidiError(String),
}

} // verus!

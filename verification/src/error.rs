//! The ways in which decoding fails.

use vstd::prelude::*;

verus! {

/// Why a buffer is not a well-formed MIDI file. Every error is final: the
/// decoders never recover from one or replace it by a default value.
#[derive(Debug, Clone, Copy, PartialEq, Eq, Structural)]
pub enum ParseError {
    /// The buffer does not begin with an `MThd` chunk.
    MissingHeader,
    /// A chunk tag is not a chunk identifier. Tags are compared for equality
    /// only, so no decoder of this crate reports it.
    MalformedTag,
    /// A declared length, a variable-length quantity or the data bytes of an
    /// event reach past the end of the input.
    UnexpectedEof,
    /// A variable-length quantity does not end within four bytes.
    MalformedVarLength,
    /// An event starts with a data byte before any status byte was seen in
    /// its track.
    MissingRunningStatus,
    /// A status byte that is neither a channel status nor one of the meta and
    /// system-exclusive introducers.
    UnreachableStatus,
    /// Bytes after the last chunk that are too few for a chunk's tag and length.
    TrailingGarbage,
}

} // verus!

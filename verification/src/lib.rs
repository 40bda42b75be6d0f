//! A decoder for Standard MIDI Files.
//!
//! The whole file is decoded in one pass from a byte buffer: a fixed header,
//! then a sequence of length-prefixed chunks, of which the track chunks are
//! decoded into timed events. Every decoder is specified by a spec function
//! over the byte sequence it reads, and proved to compute exactly that.

pub mod compose;
pub mod error;
pub mod event;
pub mod file;
pub mod vlq;
pub mod wire;

pub use error::ParseError;
pub use event::{ChannelData, Event, MetaEvent, MidiEvent, SysexEvent};
pub use file::{parse_midi, Chunk, Header, Midi, TrackChunk};
pub use vlq::var_length;

//! The events of a track and their decoders.

use crate::error::ParseError;
use crate::vlq::{lemma_var_length_bounds, spec_var_length, var_length};
use crate::wire::be_u8;
use vstd::prelude::*;
use vstd::slice::slice_subrange;

verus! {

/// The data bytes of a channel event: one or two, as its status asks.
#[derive(Debug, Clone, Copy, PartialEq, Eq, Structural)]
pub enum ChannelData {
    One(u8),
    Two(u8, u8),
}

/// A channel voice or mode message. The high nibble of `status` is the kind
/// of message, the low nibble the channel.
#[derive(Debug, Clone, Copy, PartialEq, Eq, Structural)]
pub struct MidiEvent {
    pub status: u8,
    pub data: ChannelData,
}

/// A meta event: a kind, which is not interpreted, and its payload.
#[derive(Debug, Clone, Copy, PartialEq, Eq)]
pub struct MetaEvent<'a> {
    pub kind: u8,
    pub data: &'a [u8],
}

/// A system-exclusive event, or one segment of a split one.
#[derive(Debug, Clone, Copy, PartialEq, Eq)]
pub struct SysexEvent<'a> {
    /// Set when the event was introduced by `0xF0`, unset for `0xF7`.
    pub start: bool,
    /// Set when the payload ends with `0xF7`.
    pub end: bool,
    pub data: &'a [u8],
}

/// One event of a track, with the ticks that passed since the event before.
#[derive(Debug, Clone, Copy, PartialEq, Eq)]
pub enum Event<'a> {
    Midi(u32, MidiEvent),
    Meta(u32, MetaEvent<'a>),
    Sysex(u32, SysexEvent<'a>),
}

/// What a `MetaEvent` holds.
pub struct MetaEventView {
    pub kind: u8,
    pub data: Seq<u8>,
}

/// What a `SysexEvent` holds.
pub struct SysexEventView {
    pub start: bool,
    pub end: bool,
    pub data: Seq<u8>,
}

/// What an `Event` holds.
pub enum EventView {
    Midi(u32, MidiEvent),
    Meta(u32, MetaEventView),
    Sysex(u32, SysexEventView),
}

/// How many data bytes follow a status byte; `None` for a byte that is no
/// channel status.
pub open spec fn channel_data_len(status: u8) -> Option<nat> {
    let kind = status / 16;
    if kind == 0xC || kind == 0xD {
        Some(1)
    } else if 0x8 <= kind <= 0xE {
        Some(2)
    } else {
        None
    }
}

impl MidiEvent {
    /// The status is a channel status and the data bytes are as many as it
    /// asks for.
    pub open spec fn wf(&self) -> bool {
        match self.data {
            ChannelData::One(_) => channel_data_len(self.status) == Some(1nat),
            ChannelData::Two(_, _) => channel_data_len(self.status) == Some(2nat),
        }
    }
}

impl<'a> View for MetaEvent<'a> {
    type V = MetaEventView;

    open spec fn view(&self) -> MetaEventView {
        MetaEventView { kind: self.kind, data: self.data@ }
    }
}

impl SysexEventView {
    /// `end` records whether the payload ends with `0xF7`.
    pub open spec fn wf(&self) -> bool {
        self.end == ends_sysex(self.data)
    }
}

impl<'a> View for SysexEvent<'a> {
    type V = SysexEventView;

    open spec fn view(&self) -> SysexEventView {
        SysexEventView { start: self.start, end: self.end, data: self.data@ }
    }
}

impl EventView {
    /// The delta time fits in 28 bits and the event inside is well formed.
    pub open spec fn wf(&self) -> bool {
        match *self {
            EventView::Midi(delta, e) => delta <= 0x0FFF_FFFF && e.wf(),
            EventView::Meta(delta, _) => delta <= 0x0FFF_FFFF,
            EventView::Sysex(delta, e) => delta <= 0x0FFF_FFFF && e.wf(),
        }
    }
}

impl<'a> View for Event<'a> {
    type V = EventView;

    open spec fn view(&self) -> EventView {
        match *self {
            Event::Midi(delta, e) => EventView::Midi(delta, e),
            Event::Meta(delta, e) => EventView::Meta(delta, e@),
            Event::Sysex(delta, e) => EventView::Sysex(delta, e@),
        }
    }
}

/// Whether a payload is not empty and ends with `0xF7`.
pub open spec fn ends_sysex(data: Seq<u8>) -> bool {
    data.len() > 0 && data.last() == 0xF7
}

/// A payload with its length in front: a variable-length quantity `len`, then
/// `len` bytes. The result is the payload and the bytes taken in all.
pub open spec fn spec_payload(s: Seq<u8>) -> Result<(Seq<u8>, int), ParseError> {
    match spec_var_length(s) {
        Err(e) => Err(e),
        Ok((len, n)) => if s.len() - n < len {
            Err(ParseError::UnexpectedEof)
        } else {
            Ok((s.subrange(n as int, n + len), n + len))
        },
    }
}

/// The channel event with the given status whose data bytes stand at the
/// head of `s`, and the number of data bytes.
pub open spec fn spec_midi_event(status: u8, s: Seq<u8>) -> Result<(MidiEvent, int), ParseError> {
    match channel_data_len(status) {
        None => Err(ParseError::UnreachableStatus),
        Some(n) => if s.len() < n {
            Err(ParseError::UnexpectedEof)
        } else if n == 1 {
            Ok((MidiEvent { status, data: ChannelData::One(s[0]) }, 1))
        } else {
            Ok((MidiEvent { status, data: ChannelData::Two(s[0], s[1]) }, 2))
        },
    }
}

/// The meta event that follows the introducer `0xFF`: a kind byte and a
/// payload with its length in front.
pub open spec fn spec_meta_event(s: Seq<u8>) -> Result<(MetaEventView, int), ParseError> {
    if s.len() < 1 {
        Err(ParseError::UnexpectedEof)
    } else {
        match spec_payload(s.skip(1)) {
            Err(e) => Err(e),
            Ok((data, n)) => Ok((MetaEventView { kind: s[0], data }, 1 + n)),
        }
    }
}

/// The system-exclusive event that follows its introducer: a payload with
/// its length in front.
pub open spec fn spec_sysex_event(start: bool, s: Seq<u8>) -> Result<
    (SysexEventView, int),
    ParseError,
> {
    match spec_payload(s) {
        Err(e) => Err(e),
        Ok((data, n)) => Ok((SysexEventView { start, end: ends_sysex(data), data }, n)),
    }
}

/// One event at the head of `s` under the running status `running`: the
/// event, the bytes it takes, and the running status after it.
///
/// A meta event leaves the running status as it is, a system-exclusive event
/// clears it, a status byte sets it, and a data byte in place of a status
/// byte is the first data byte of an event with the running status.
pub open spec fn spec_event(s: Seq<u8>, running: Option<u8>) -> Result<
    (EventView, int, Option<u8>),
    ParseError,
> {
    match spec_var_length(s) {
        Err(e) => Err(e),
        Ok((delta, n)) => if s.len() <= n {
            Err(ParseError::UnexpectedEof)
        } else {
            let lead = s[n as int];
            if lead == 0xFF {
                match spec_meta_event(s.skip(n + 1)) {
                    Err(e) => Err(e),
                    Ok((e, k)) => Ok((EventView::Meta(delta, e), n + 1 + k, running)),
                }
            } else if lead == 0xF0 || lead == 0xF7 {
                match spec_sysex_event(lead == 0xF0, s.skip(n + 1)) {
                    Err(e) => Err(e),
                    Ok((e, k)) => Ok((EventView::Sysex(delta, e), n + 1 + k, None)),
                }
            } else if lead >= 0x80 {
                match spec_midi_event(lead, s.skip(n + 1)) {
                    Err(e) => Err(e),
                    Ok((e, k)) => Ok((EventView::Midi(delta, e), n + 1 + k, Some(lead))),
                }
            } else {
                match running {
                    None => Err(ParseError::MissingRunningStatus),
                    Some(status) => match spec_midi_event(status, s.skip(n as int)) {
                        Err(e) => Err(e),
                        Ok((e, k)) => Ok((EventView::Midi(delta, e), n + k, running)),
                    },
                }
            }
        },
    }
}

/// The errors that decoding an event can give.
pub open spec fn is_event_error(e: ParseError) -> bool {
    e == ParseError::UnexpectedEof || e == ParseError::MalformedVarLength || e
        == ParseError::MissingRunningStatus || e == ParseError::UnreachableStatus
}

/// An event that decodes is well formed and takes at least two bytes and no
/// more than there are; one that does not decode fails with one of the
/// errors of events.
pub proof fn lemma_event_outcome(s: Seq<u8>, running: Option<u8>)
    ensures
        match spec_event(s, running) {
            Ok((e, used, next)) => e.wf() && 2 <= used <= s.len(),
            Err(e) => is_event_error(e),
        },
{
    lemma_var_length_bounds(s);
}

/// Reads a payload with its length in front; the payload borrows from `input`.
pub fn payload<'a>(input: &'a [u8]) -> (r: Result<(&'a [u8], usize), ParseError>)
    ensures
        match r {
            Ok((data, used)) => spec_payload(input@) == Ok::<(Seq<u8>, int), ParseError>(
                (data@, used as int),
            ) && 1 <= used <= input@.len(),
            Err(e) => spec_payload(input@) == Err::<(Seq<u8>, int), ParseError>(e),
        },
{
    let (len, n) = match var_length(input) {
        Ok(p) => p,
        Err(e) => { return Err(e); },
    };
    if input.len() - n < len as usize {
        return Err(ParseError::UnexpectedEof);
    }
    let end: usize = n + len as usize;
    Ok((slice_subrange(input, n, end), end))
}

/// Decodes the data bytes of a channel event with the given status.
pub fn midi_event(status: u8, input: &[u8]) -> (r: Result<(MidiEvent, usize), ParseError>)
    ensures
        match r {
            Ok((e, used)) => spec_midi_event(status, input@) == Ok::<(MidiEvent, int), ParseError>(
                (e, used as int),
            ) && e.wf() && 1 <= used <= input@.len(),
            Err(e) => spec_midi_event(status, input@) == Err::<(MidiEvent, int), ParseError>(e),
        },
{
    let kind: u8 = status / 16;
    if kind < 0x8 || kind > 0xE {
        Err(ParseError::UnreachableStatus)
    } else if kind == 0xC || kind == 0xD {
        if input.len() < 1 {
            Err(ParseError::UnexpectedEof)
        } else {
            Ok((MidiEvent { status, data: ChannelData::One(input[0]) }, 1))
        }
    } else {
        if input.len() < 2 {
            Err(ParseError::UnexpectedEof)
        } else {
            Ok((MidiEvent { status, data: ChannelData::Two(input[0], input[1]) }, 2))
        }
    }
}

/// Decodes the meta event that follows the introducer `0xFF`.
pub fn meta_event<'a>(input: &'a [u8]) -> (r: Result<(MetaEvent<'a>, usize), ParseError>)
    ensures
        match r {
            Ok((e, used)) => spec_meta_event(input@) == Ok::<(MetaEventView, int), ParseError>(
                (e@, used as int),
            ) && 2 <= used <= input@.len(),
            Err(e) => spec_meta_event(input@) == Err::<(MetaEventView, int), ParseError>(e),
        },
{
    let kind: u8 = match be_u8(input) {
        Some(kind) => kind,
        None => { return Err(ParseError::UnexpectedEof); },
    };
    let rest = slice_subrange(input, 1, input.len());
    assert(rest@ =~= input@.skip(1));
    match payload(rest) {
        Err(e) => Err(e),
        Ok((data, used)) => Ok((MetaEvent { kind, data }, 1 + used)),
    }
}

/// Decodes the system-exclusive event that follows its introducer; `start`
/// says that the introducer was `0xF0`.
pub fn sysex_event<'a>(start: bool, input: &'a [u8]) -> (r: Result<
    (SysexEvent<'a>, usize),
    ParseError,
>)
    ensures
        match r {
            Ok((e, used)) => spec_sysex_event(start, input@) == Ok::<
                (SysexEventView, int),
                ParseError,
            >((e@, used as int)) && e@.wf() && 1 <= used <= input@.len(),
            Err(e) => spec_sysex_event(start, input@) == Err::<(SysexEventView, int), ParseError>(
                e,
            ),
        },
{
    match payload(input) {
        Err(e) => Err(e),
        Ok((data, used)) => {
            let end = data.len() > 0 && data[data.len() - 1] == 0xF7;
            Ok((SysexEvent { start, end, data }, used))
        },
    }
}

/// Decodes one event at the head of `input` under the running status
/// `running`, and gives the running status for the event after it.
pub fn event<'a>(input: &'a [u8], running: Option<u8>) -> (r: Result<
    (Event<'a>, usize, Option<u8>),
    ParseError,
>)
    ensures
        match r {
            Ok((e, used, next)) => spec_event(input@, running) == Ok::<
                (EventView, int, Option<u8>),
                ParseError,
            >((e@, used as int, next)) && e@.wf() && 2 <= used <= input@.len(),
            Err(e) => spec_event(input@, running) == Err::<
                (EventView, int, Option<u8>),
                ParseError,
            >(e) && is_event_error(e),
        },
{
    proof {
        lemma_event_outcome(input@, running);
    }
    let (delta, n) = match var_length(input) {
        Ok(p) => p,
        Err(e) => { return Err(e); },
    };
    let from_lead = slice_subrange(input, n, input.len());
    assert(from_lead@ =~= input@.skip(n as int));
    let lead: u8 = match be_u8(from_lead) {
        Some(lead) => lead,
        None => { return Err(ParseError::UnexpectedEof); },
    };
    let after_lead = slice_subrange(input, n + 1, input.len());
    assert(after_lead@ =~= input@.skip(n + 1));
    if lead == 0xFF {
        match meta_event(after_lead) {
            Err(e) => Err(e),
            Ok((e, k)) => Ok((Event::Meta(delta, e), n + 1 + k, running)),
        }
    } else if lead == 0xF0 || lead == 0xF7 {
        match sysex_event(lead == 0xF0, after_lead) {
            Err(e) => Err(e),
            Ok((e, k)) => Ok((Event::Sysex(delta, e), n + 1 + k, None)),
        }
    } else if lead >= 0x80 {
        match midi_event(lead, after_lead) {
            Err(e) => Err(e),
            Ok((e, k)) => Ok((Event::Midi(delta, e), n + 1 + k, Some(lead))),
        }
    } else {
        match running {
            None => Err(ParseError::MissingRunningStatus),
            Some(status) => match midi_event(status, from_lead) {
                Err(e) => Err(e),
                Ok((e, k)) => Ok((Event::Midi(delta, e), n + k, running)),
            },
        }
    }
}

} // verus!

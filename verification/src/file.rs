//! The file as a whole: the header chunk, chunk framing, tracks, and the
//! decoder of a whole buffer.

use crate::error::ParseError;
use crate::event::{
    event, is_event_error, lemma_event_outcome, spec_event, Event, EventView,
};
use crate::wire::{be_u16, be_u32, spec_be_u16, spec_be_u32};
use vstd::prelude::*;
use vstd::slice::slice_subrange;

verus! {

/// The fixed fields of the `MThd` chunk. `length` is the body length that the
/// chunk declares; it is recorded and not used.
#[derive(Debug, Clone, Copy, PartialEq, Eq, Structural)]
pub struct Header {
    pub length: u32,
    pub format: u16,
    pub track_count: u16,
    pub division: u16,
}

/// The events of one `MTrk` chunk, in file order.
#[derive(Debug, PartialEq, Eq)]
pub struct TrackChunk<'a> {
    pub events: Vec<Event<'a>>,
}

/// A chunk that the decoder keeps. Chunks of other kinds leave no trace.
#[derive(Debug, PartialEq, Eq)]
pub enum Chunk<'a> {
    Track(TrackChunk<'a>),
}

/// A decoded file: the header and the track chunks in file order.
#[derive(Debug, PartialEq, Eq)]
pub struct Midi<'a> {
    pub header: Header,
    pub chunks: Vec<Chunk<'a>>,
}

/// What a `Chunk` holds.
pub enum ChunkView {
    Track(Seq<EventView>),
}

/// What a `Midi` holds.
pub struct MidiView {
    pub header: Header,
    pub chunks: Seq<ChunkView>,
}

/// Every event of the sequence is well formed.
pub open spec fn events_wf(events: Seq<EventView>) -> bool {
    forall|i: int| 0 <= i < events.len() ==> (#[trigger] events[i]).wf()
}

impl ChunkView {
    /// Every event of the track is well formed.
    pub open spec fn wf(&self) -> bool {
        match *self {
            ChunkView::Track(events) => events_wf(events),
        }
    }
}

impl MidiView {
    /// Every chunk is well formed.
    pub open spec fn wf(&self) -> bool {
        forall|i: int| 0 <= i < self.chunks.len() ==> (#[trigger] self.chunks[i]).wf()
    }
}

impl<'a> View for TrackChunk<'a> {
    type V = Seq<EventView>;

    open spec fn view(&self) -> Seq<EventView> {
        self.events@.map_values(|e: Event<'a>| e@)
    }
}

impl<'a> View for Chunk<'a> {
    type V = ChunkView;

    open spec fn view(&self) -> ChunkView {
        match self {
            Chunk::Track(t) => ChunkView::Track(t@),
        }
    }
}

impl<'a> View for Midi<'a> {
    type V = MidiView;

    open spec fn view(&self) -> MidiView {
        MidiView { header: self.header, chunks: self.chunks@.map_values(|c: Chunk<'a>| c@) }
    }
}

/// The length of the header chunk: tag, declared length and three fields.
pub const HEADER_LEN: usize = 14;

/// Whether `s` starts with the tag `MThd`.
pub open spec fn is_mthd(s: Seq<u8>) -> bool {
    s.len() >= 4 && s[0] == 0x4D && s[1] == 0x54 && s[2] == 0x68 && s[3] == 0x64
}

/// Whether `s` starts with the tag `MTrk`.
pub open spec fn is_mtrk(s: Seq<u8>) -> bool {
    s.len() >= 4 && s[0] == 0x4D && s[1] == 0x54 && s[2] == 0x72 && s[3] == 0x6B
}

/// `first`, then what `rest` holds, unless `rest` is an error.
pub open spec fn followed_by<T>(first: Seq<T>, rest: Result<Seq<T>, ParseError>) -> Result<
    Seq<T>,
    ParseError,
> {
    match rest {
        Ok(rest) => Ok(first + rest),
        Err(e) => Err(e),
    }
}

/// The events of a track body that is read under the running status
/// `running`. The body has to be used up by whole events.
pub open spec fn spec_events(s: Seq<u8>, running: Option<u8>) -> Result<Seq<EventView>, ParseError>
    decreases s.len(),
{
    if s.len() == 0 {
        Ok(Seq::empty())
    } else {
        match spec_event(s, running) {
            Err(e) => Err(e),
            Ok((e, used, next)) => followed_by(seq![e], spec_events(s.skip(used), next)),
        }
    }
}

/// The events of a track body. No running status is known at its start.
pub open spec fn spec_track(s: Seq<u8>) -> Result<Seq<EventView>, ParseError> {
    spec_events(s, None)
}

/// The header chunk at the head of `s`.
pub open spec fn spec_header(s: Seq<u8>) -> Result<Header, ParseError> {
    if !is_mthd(s) {
        Err(ParseError::MissingHeader)
    } else if s.len() < HEADER_LEN {
        Err(ParseError::UnexpectedEof)
    } else {
        Ok(
            Header {
                length: spec_be_u32(s.skip(4)),
                format: spec_be_u16(s.skip(8)),
                track_count: spec_be_u16(s.skip(10)),
                division: spec_be_u16(s.skip(12)),
            },
        )
    }
}

/// The frame of the chunk at the head of `s`: a tag of four bytes, a length
/// of four bytes, and a body of that length. The result is the body and the
/// length of the whole frame.
pub open spec fn spec_frame(s: Seq<u8>) -> Result<(Seq<u8>, int), ParseError> {
    if s.len() < 8 {
        Err(ParseError::TrailingGarbage)
    } else {
        let len = spec_be_u32(s.skip(4));
        if s.len() - 8 < len {
            Err(ParseError::UnexpectedEof)
        } else {
            Ok((s.subrange(8, 8 + len), 8 + len))
        }
    }
}

/// The chunk at the head of `s` and the length of its frame. A chunk with
/// another tag than `MTrk` is stepped over and gives `None`.
pub open spec fn spec_chunk(s: Seq<u8>) -> Result<(Option<ChunkView>, int), ParseError> {
    match spec_frame(s) {
        Err(e) => Err(e),
        Ok((body, used)) => if is_mtrk(s) {
            match spec_track(body) {
                Err(e) => Err(e),
                Ok(events) => Ok((Some(ChunkView::Track(events)), used)),
            }
        } else {
            Ok((None, used))
        },
    }
}

/// The chunks that `c` stands for: itself, or nothing.
pub open spec fn kept(c: Option<ChunkView>) -> Seq<ChunkView> {
    match c {
        Some(c) => seq![c],
        None => Seq::empty(),
    }
}

/// The track chunks of `s`, which has to be made of whole chunk frames.
pub open spec fn spec_chunks(s: Seq<u8>) -> Result<Seq<ChunkView>, ParseError>
    decreases s.len(),
{
    if s.len() == 0 {
        Ok(Seq::empty())
    } else {
        match spec_chunk(s) {
            Err(e) => Err(e),
            Ok((c, used)) => followed_by(kept(c), spec_chunks(s.skip(used))),
        }
    }
}

/// The file that `s` holds: the header chunk, then chunks to the end.
pub open spec fn spec_parse_midi(s: Seq<u8>) -> Result<MidiView, ParseError> {
    match spec_header(s) {
        Err(e) => Err(e),
        Ok(header) => match spec_chunks(s.skip(HEADER_LEN as int)) {
            Err(e) => Err(e),
            Ok(chunks) => Ok(MidiView { header, chunks }),
        },
    }
}

/// The errors that decoding a sequence of chunks can give.
pub open spec fn is_chunk_error(e: ParseError) -> bool {
    is_event_error(e) || e == ParseError::TrailingGarbage
}

/// The errors that decoding a file can give.
pub open spec fn is_file_error(e: ParseError) -> bool {
    is_chunk_error(e) || e == ParseError::MissingHeader
}

/// The events of a track body that decodes are well formed; a body that does
/// not decode fails with one of the errors of events.
pub proof fn lemma_events_outcome(s: Seq<u8>, running: Option<u8>)
    ensures
        match spec_events(s, running) {
            Ok(events) => events_wf(events),
            Err(e) => is_event_error(e),
        },
    decreases s.len(),
{
    if s.len() > 0 {
        lemma_event_outcome(s, running);
        match spec_event(s, running) {
            Ok((e, used, next)) => {
                lemma_events_outcome(s.skip(used), next);
            },
            Err(e) => {},
        }
    }
}

/// The chunks of a buffer that decodes are well formed; a buffer that does
/// not decode fails with one of the errors of chunks.
pub proof fn lemma_chunks_outcome(s: Seq<u8>)
    ensures
        match spec_chunks(s) {
            Ok(chunks) => forall|i: int| 0 <= i < chunks.len() ==> (#[trigger] chunks[i]).wf(),
            Err(e) => is_chunk_error(e),
        },
    decreases s.len(),
{
    if s.len() > 0 {
        match spec_chunk(s) {
            Ok((c, used)) => {
                lemma_chunks_outcome(s.skip(used));
                if is_mtrk(s) {
                    lemma_events_outcome(spec_frame(s)->Ok_0.0, None);
                }
            },
            Err(e) => {
                if spec_frame(s) is Ok {
                    lemma_events_outcome(spec_frame(s)->Ok_0.0, None);
                }
            },
        }
    }
}

/// A file that decodes is well formed; one that does not fails with one of
/// the errors of files, so never with `MalformedTag`.
pub proof fn lemma_parse_outcome(s: Seq<u8>)
    ensures
        match spec_parse_midi(s) {
            Ok(midi) => midi.wf(),
            Err(e) => is_file_error(e) && e != ParseError::MalformedTag,
        },
{
    lemma_chunks_outcome(s.skip(HEADER_LEN as int));
}

/// Decodes a track body into its events, carrying the running status from
/// each event to the next.
pub fn track<'a>(body: &'a [u8]) -> (r: Result<TrackChunk<'a>, ParseError>)
    ensures
        match r {
            Ok(t) => spec_track(body@) == Ok::<Seq<EventView>, ParseError>(t@) && events_wf(t@),
            Err(e) => spec_track(body@) == Err::<Seq<EventView>, ParseError>(e) && is_event_error(
                e,
            ),
        },
{
    let mut events: Vec<Event<'a>> = Vec::new();
    let mut running: Option<u8> = None;
    let mut pos: usize = 0;
    assert(body@.skip(0) =~= body@);
    assert(events@.map_values(|e: Event<'a>| e@) + spec_events(body@, None)->Ok_0 =~= spec_events(
        body@,
        None,
    )->Ok_0);
    while pos < body.len()
        invariant
            pos <= body@.len(),
            spec_track(body@) == followed_by(
                events@.map_values(|e: Event<'a>| e@),
                spec_events(body@.skip(pos as int), running),
            ),
        decreases body@.len() - pos,
    {
        let rest = slice_subrange(body, pos, body.len());
        assert(rest@ =~= body@.skip(pos as int));
        match event(rest, running) {
            Err(e) => {
                proof {
                    lemma_events_outcome(body@, None);
                }
                return Err(e);
            },
            Ok((e, used, next)) => {
                proof {
                    let done = events@.map_values(|e: Event<'a>| e@);
                    let tail = spec_events(body@.skip(pos + used), next);
                    assert(body@.skip(pos as int).skip(used as int) =~= body@.skip(pos + used));
                    assert(events@.push(e).map_values(|e: Event<'a>| e@) =~= done.push(e@));
                    if tail is Ok {
                        assert(done + (seq![e@] + tail->Ok_0) =~= done.push(e@) + tail->Ok_0);
                    }
                }
                events.push(e);
                running = next;
                pos += used;
            },
        }
    }
    proof {
        let done = events@.map_values(|e: Event<'a>| e@);
        assert(done + Seq::<EventView>::empty() =~= done);
        lemma_events_outcome(body@, None);
    }
    Ok(TrackChunk { events })
}

/// Decodes the header chunk at the head of `input`, which takes `HEADER_LEN`
/// bytes.
pub fn header(input: &[u8]) -> (r: Result<Header, ParseError>)
    ensures
        r == spec_header(input@),
{
    if !(input.len() >= 4 && input[0] == 0x4D && input[1] == 0x54 && input[2] == 0x68 && input[3]
        == 0x64) {
        return Err(ParseError::MissingHeader);
    }
    if input.len() < HEADER_LEN {
        return Err(ParseError::UnexpectedEof);
    }
    let length = be_u32(slice_subrange(input, 4, input.len()));
    let format = be_u16(slice_subrange(input, 8, input.len()));
    let track_count = be_u16(slice_subrange(input, 10, input.len()));
    let division = be_u16(slice_subrange(input, 12, input.len()));
    assert(input@.subrange(4, input@.len() as int) =~= input@.skip(4));
    assert(input@.subrange(8, input@.len() as int) =~= input@.skip(8));
    assert(input@.subrange(10, input@.len() as int) =~= input@.skip(10));
    assert(input@.subrange(12, input@.len() as int) =~= input@.skip(12));
    match (length, format, track_count, division) {
        (Some(length), Some(format), Some(track_count), Some(division)) => Ok(
            Header { length, format, track_count, division },
        ),
        _ => Err(ParseError::UnexpectedEof),
    }
}

/// Reads the frame of the chunk at the head of `input`. The body borrows
/// from `input`.
pub fn frame<'a>(input: &'a [u8]) -> (r: Result<(&'a [u8], usize), ParseError>)
    ensures
        match r {
            Ok((body, used)) => spec_frame(input@) == Ok::<(Seq<u8>, int), ParseError>(
                (body@, used as int),
            ) && 8 <= used <= input@.len(),
            Err(e) => spec_frame(input@) == Err::<(Seq<u8>, int), ParseError>(e),
        },
{
    if input.len() < 4 {
        return Err(ParseError::TrailingGarbage);
    }
    let after_tag = slice_subrange(input, 4, input.len());
    assert(after_tag@ =~= input@.skip(4));
    match be_u32(after_tag) {
        None => Err(ParseError::TrailingGarbage),
        Some(len) => {
            if input.len() - 8 < len as usize {
                Err(ParseError::UnexpectedEof)
            } else {
                let end: usize = 8 + len as usize;
                Ok((slice_subrange(input, 8, end), end))
            }
        },
    }
}

/// Decodes the chunk at the head of `input`: a track chunk is decoded, any
/// other is stepped over by its length.
pub fn chunk<'a>(input: &'a [u8]) -> (r: Result<(Option<Chunk<'a>>, usize), ParseError>)
    ensures
        match r {
            Ok((c, used)) => spec_chunk(input@) == Ok::<(Option<ChunkView>, int), ParseError>(
                (
                    match c {
                        Some(c) => Some(c@),
                        None => None,
                    },
                    used as int,
                ),
            ) && (c matches Some(c) ==> c@.wf()) && 8 <= used <= input@.len(),
            Err(e) => spec_chunk(input@) == Err::<(Option<ChunkView>, int), ParseError>(e)
                && is_chunk_error(e),
        },
{
    let (body, used) = match frame(input) {
        Ok(p) => p,
        Err(e) => { return Err(e); },
    };
    if input[0] == 0x4D && input[1] == 0x54 && input[2] == 0x72 && input[3] == 0x6B {
        match track(body) {
            Err(e) => Err(e),
            Ok(t) => Ok((Some(Chunk::Track(t)), used)),
        }
    } else {
        Ok((None, used))
    }
}

/// One step of `spec_chunks`: the chunks of `s` after those in `done` are
/// the chunks of what follows the first chunk of `s`, after `done` and that
/// first chunk.
proof fn lemma_chunks_step(done: Seq<ChunkView>, s: Seq<u8>)
    requires
        s.len() > 0,
    ensures
        match spec_chunk(s) {
            Err(e) => followed_by(done, spec_chunks(s)) == Err::<Seq<ChunkView>, ParseError>(e),
            Ok((c, used)) => followed_by(done, spec_chunks(s)) == followed_by(
                done + kept(c),
                spec_chunks(s.skip(used)),
            ),
        },
{
    match spec_chunk(s) {
        Err(e) => {},
        Ok((c, used)) => {
            let tail = spec_chunks(s.skip(used));
            if tail is Ok {
                assert(done + (kept(c) + tail->Ok_0) =~= (done + kept(c)) + tail->Ok_0);
            }
        },
    }
}

/// Decodes a whole file: the header chunk, then every chunk up to the end of
/// the buffer. Either the whole buffer is decoded or an error is returned.
pub fn parse_midi<'a>(input: &'a [u8]) -> (r: Result<Midi<'a>, ParseError>)
    ensures
        match r {
            Ok(m) => spec_parse_midi(input@) == Ok::<MidiView, ParseError>(m@) && m@.wf(),
            Err(e) => spec_parse_midi(input@) == Err::<MidiView, ParseError>(e) && is_file_error(
                e,
            ),
        },
{
    let header = match header(input) {
        Ok(h) => h,
        Err(e) => {
            return Err(e);
        },
    };
    let mut chunks: Vec<Chunk<'a>> = Vec::new();
    let mut pos: usize = HEADER_LEN;
    let ghost all = input@.skip(HEADER_LEN as int);
    assert(chunks@.map_values(|c: Chunk<'a>| c@) + spec_chunks(all)->Ok_0 =~= spec_chunks(
        all,
    )->Ok_0);
    while pos < input.len()
        invariant
            HEADER_LEN <= pos <= input@.len(),
            spec_header(input@) == Ok::<Header, ParseError>(header),
            all == input@.skip(HEADER_LEN as int),
            spec_chunks(all) == followed_by(
                chunks@.map_values(|c: Chunk<'a>| c@),
                spec_chunks(input@.skip(pos as int)),
            ),
        decreases input@.len() - pos,
    {
        let rest = slice_subrange(input, pos, input.len());
        assert(rest@ =~= input@.skip(pos as int));
        proof {
            lemma_chunks_step(chunks@.map_values(|c: Chunk<'a>| c@), rest@);
        }
        match chunk(rest) {
            Err(e) => {
                proof {
                    lemma_parse_outcome(input@);
                }
                return Err(e);
            },
            Ok((c, used)) => {
                proof {
                    let done = chunks@.map_values(|c: Chunk<'a>| c@);
                    assert(input@.skip(pos as int).skip(used as int) =~= input@.skip(pos + used));
                    if c is Some {
                        assert(chunks@.push(c->Some_0).map_values(|c: Chunk<'a>| c@) =~= done
                            + seq![c->Some_0@]);
                    } else {
                        assert(done + Seq::<ChunkView>::empty() =~= done);
                    }
                }
                match c {
                    Some(c) => {
                        chunks.push(c);
                    },
                    None => {},
                }
                pos += used;
            },
        }
    }
    proof {
        let done = chunks@.map_values(|c: Chunk<'a>| c@);
        assert(done + Seq::<ChunkView>::empty() =~= done);
        lemma_parse_outcome(input@);
    }
    Ok(Midi { header, chunks })
}

} // verus!

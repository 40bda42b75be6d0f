use midi_parser::file::{chunk, frame, header, HEADER_LEN};
use midi_parser::{
    parse_midi, ChannelData, Chunk, Event, Header, MetaEvent, MidiEvent, ParseError, TrackChunk,
};

const HEADER: &[u8] = b"MThd\x00\x00\x00\x06\x00\x01\x00\x02\x00\x60";

fn with_header(rest: &[u8]) -> Vec<u8> {
    let mut bytes = HEADER.to_vec();
    bytes.extend_from_slice(rest);
    bytes
}

fn note_track<'a>() -> Chunk<'a> {
    Chunk::Track(TrackChunk {
        events: vec![
            Event::Midi(0, MidiEvent { status: 0x90, data: ChannelData::Two(0x40, 0x7F) }),
            Event::Midi(0, MidiEvent { status: 0x90, data: ChannelData::Two(0x40, 0x00) }),
        ],
    })
}

const NOTE_TRACK: &[u8] = b"MTrk\x00\x00\x00\x07\x00\x90\x40\x7F\x00\x40\x00";

#[test]
fn header_only() {
    let midi = parse_midi(HEADER).unwrap();
    assert_eq!(
        midi.header,
        Header { length: 6, format: 1, track_count: 2, division: 0x60 }
    );
    assert_eq!(midi.chunks, vec![]);
}

#[test]
fn header_fields_are_big_endian() {
    let bytes = b"MThd\x01\x02\x03\x04\x12\x34\x56\x78\x9A\xBC";
    assert_eq!(HEADER_LEN, 14);
    assert_eq!(
        header(bytes),
        Ok(Header {
            length: 0x0102_0304,
            format: 0x1234,
            track_count: 0x5678,
            division: 0x9ABC
        })
    );
}

#[test]
fn header_then_tracks_in_order() {
    let mut bytes = with_header(NOTE_TRACK);
    bytes.extend_from_slice(b"MTrk\x00\x00\x00\x04\x00\xFF\x2F\x00");
    bytes.extend_from_slice(b"MTrk\x00\x00\x00\x00");
    let midi = parse_midi(&bytes).unwrap();
    assert_eq!(
        midi.chunks,
        vec![
            note_track(),
            Chunk::Track(TrackChunk {
                events: vec![Event::Meta(0, MetaEvent { kind: 0x2F, data: &[] })]
            }),
            Chunk::Track(TrackChunk { events: vec![] }),
        ]
    );
}

#[test]
fn unknown_chunk_is_skipped() {
    let mut bytes = with_header(b"XTRA\x00\x00\x00\x02\xAB\xCD");
    bytes.extend_from_slice(NOTE_TRACK);
    let midi = parse_midi(&bytes).unwrap();
    assert_eq!(midi.chunks, vec![note_track()]);
}

#[test]
fn unknown_chunk_alone_leaves_no_chunk() {
    let bytes = with_header(b"XTRA\x00\x00\x00\x02\xAB\xCD");
    assert_eq!(parse_midi(&bytes).unwrap().chunks, vec![]);
    assert_eq!(chunk(b"XTRA\x00\x00\x00\x02\xAB\xCD\xEE"), Ok((None, 10)));
}

#[test]
fn running_status_does_not_cross_tracks() {
    let mut bytes = with_header(NOTE_TRACK);
    bytes.extend_from_slice(b"MTrk\x00\x00\x00\x03\x00\x40\x00");
    assert_eq!(parse_midi(&bytes), Err(ParseError::MissingRunningStatus));
}

#[test]
fn truncated_chunk_is_eof() {
    let bytes = with_header(b"MTrk\x00\x00\x00\x08\x00\x90\x40\x7F");
    assert_eq!(parse_midi(&bytes), Err(ParseError::UnexpectedEof));
    let bytes = with_header(b"XTRA\x00\x00\x00\x03\xAB\xCD");
    assert_eq!(parse_midi(&bytes), Err(ParseError::UnexpectedEof));
    let bytes = with_header(b"XTRA\xFF\xFF\xFF\xFF");
    assert_eq!(parse_midi(&bytes), Err(ParseError::UnexpectedEof));
}

#[test]
fn truncated_header_is_eof() {
    assert_eq!(parse_midi(&HEADER[..13]), Err(ParseError::UnexpectedEof));
    assert_eq!(parse_midi(b"MThd"), Err(ParseError::UnexpectedEof));
}

#[test]
fn missing_header() {
    assert_eq!(parse_midi(&[]), Err(ParseError::MissingHeader));
    assert_eq!(parse_midi(b"MTh"), Err(ParseError::MissingHeader));
    assert_eq!(parse_midi(NOTE_TRACK), Err(ParseError::MissingHeader));
    assert_eq!(
        parse_midi(b"XTRA\x00\x00\x00\x06\x00\x01\x00\x02\x00\x60"),
        Err(ParseError::MissingHeader)
    );
}

#[test]
fn trailing_garbage() {
    assert_eq!(parse_midi(&with_header(b"\x00")), Err(ParseError::TrailingGarbage));
    assert_eq!(
        parse_midi(&with_header(b"MTrk\x00\x00\x00")),
        Err(ParseError::TrailingGarbage)
    );
    let mut bytes = with_header(NOTE_TRACK);
    bytes.extend_from_slice(b"MT");
    assert_eq!(parse_midi(&bytes), Err(ParseError::TrailingGarbage));
}

#[test]
fn track_error_comes_out_unchanged() {
    let bytes = with_header(b"MTrk\x00\x00\x00\x05\x80\x80\x80\x80\x00");
    assert_eq!(parse_midi(&bytes), Err(ParseError::MalformedVarLength));
    let bytes = with_header(b"MTrk\x00\x00\x00\x03\x00\xF4\x00");
    assert_eq!(parse_midi(&bytes), Err(ParseError::UnreachableStatus));
    let bytes = with_header(b"MTrk\x00\x00\x00\x03\x00\x90\x40garbage");
    assert_eq!(parse_midi(&bytes), Err(ParseError::UnexpectedEof));
}

#[test]
fn declared_header_length_is_recorded_only() {
    let mut bytes = b"MThd\x00\x00\x00\x09\x00\x00\x00\x01\x01\xE0".to_vec();
    bytes.extend_from_slice(NOTE_TRACK);
    let midi = parse_midi(&bytes).unwrap();
    assert_eq!(
        midi.header,
        Header { length: 9, format: 0, track_count: 1, division: 0x01E0 }
    );
    assert_eq!(midi.chunks, vec![note_track()]);
}

#[test]
fn frame_body_and_length() {
    assert_eq!(
        frame(b"abcd\x00\x00\x00\x03\x01\x02\x03\x04"),
        Ok((&[1u8, 2, 3][..], 11))
    );
    assert_eq!(frame(b"abcd\x00\x00\x01\x00\x01"), Err(ParseError::UnexpectedEof));
    assert_eq!(frame(b"abcd\x00\x00\x00"), Err(ParseError::TrailingGarbage));
    assert_eq!(frame(b"ab"), Err(ParseError::TrailingGarbage));
}

#[test]
fn chunk_decodes_track() {
    assert_eq!(chunk(NOTE_TRACK), Ok((Some(note_track()), 15)));
}

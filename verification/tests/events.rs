use midi_parser::event::{event, meta_event, midi_event, payload, sysex_event};
use midi_parser::file::track;
use midi_parser::{ChannelData, Event, MetaEvent, MidiEvent, ParseError, SysexEvent};

#[test]
fn track_explicit_status() {
    let body = [0x00, 0x90, 0x40, 0x7F, 0x00, 0x80, 0x40, 0x00];
    let t = track(&body).unwrap();
    assert_eq!(
        t.events,
        vec![
            Event::Midi(0, MidiEvent { status: 0x90, data: ChannelData::Two(0x40, 0x7F) }),
            Event::Midi(0, MidiEvent { status: 0x80, data: ChannelData::Two(0x40, 0x00) }),
        ]
    );
}

#[test]
fn track_running_status() {
    let body = [0x00, 0x90, 0x40, 0x7F, 0x00, 0x40, 0x00];
    let t = track(&body).unwrap();
    assert_eq!(t.events.len(), 2);
    assert_eq!(
        t.events[1],
        Event::Midi(0, MidiEvent { status: 0x90, data: ChannelData::Two(0x40, 0x00) })
    );
}

#[test]
fn track_meta_event() {
    let body = [0x00, 0xFF, 0x01, 0x03, 0x41, 0x42, 0x43];
    let t = track(&body).unwrap();
    assert_eq!(
        t.events,
        vec![Event::Meta(0, MetaEvent { kind: 1, data: &[0x41, 0x42, 0x43] })]
    );
}

#[test]
fn track_empty_body() {
    assert_eq!(track(&[]).unwrap().events, vec![]);
}

#[test]
fn track_delta_times() {
    let body = [0x81, 0x00, 0xC3, 0x05, 0x60, 0xD3, 0x11];
    let t = track(&body).unwrap();
    assert_eq!(
        t.events,
        vec![
            Event::Midi(0x80, MidiEvent { status: 0xC3, data: ChannelData::One(0x05) }),
            Event::Midi(0x60, MidiEvent { status: 0xD3, data: ChannelData::One(0x11) }),
        ]
    );
}

#[test]
fn track_running_status_one_data_byte() {
    let body = [0x00, 0xC0, 0x01, 0x10, 0x02, 0x20, 0x03];
    let t = track(&body).unwrap();
    assert_eq!(
        t.events,
        vec![
            Event::Midi(0x00, MidiEvent { status: 0xC0, data: ChannelData::One(1) }),
            Event::Midi(0x10, MidiEvent { status: 0xC0, data: ChannelData::One(2) }),
            Event::Midi(0x20, MidiEvent { status: 0xC0, data: ChannelData::One(3) }),
        ]
    );
}

#[test]
fn track_missing_running_status() {
    assert_eq!(track(&[0x00, 0x40, 0x00]), Err(ParseError::MissingRunningStatus));
}

#[test]
fn track_meta_keeps_running_status() {
    let body = [0x00, 0x90, 0x40, 0x7F, 0x00, 0xFF, 0x2F, 0x00, 0x00, 0x41, 0x00];
    let t = track(&body).unwrap();
    assert_eq!(
        t.events,
        vec![
            Event::Midi(0, MidiEvent { status: 0x90, data: ChannelData::Two(0x40, 0x7F) }),
            Event::Meta(0, MetaEvent { kind: 0x2F, data: &[] }),
            Event::Midi(0, MidiEvent { status: 0x90, data: ChannelData::Two(0x41, 0x00) }),
        ]
    );
}

#[test]
fn track_sysex_clears_running_status() {
    let body = [0x00, 0x90, 0x40, 0x7F, 0x00, 0xF0, 0x01, 0xF7, 0x00, 0x41, 0x00];
    assert_eq!(track(&body), Err(ParseError::MissingRunningStatus));
}

#[test]
fn track_truncated_event() {
    assert_eq!(track(&[0x00]), Err(ParseError::UnexpectedEof));
    assert_eq!(track(&[0x00, 0x90, 0x40]), Err(ParseError::UnexpectedEof));
    assert_eq!(track(&[0x00, 0xFF]), Err(ParseError::UnexpectedEof));
    assert_eq!(track(&[0x00, 0xFF, 0x01, 0x03, 0x41]), Err(ParseError::UnexpectedEof));
    assert_eq!(track(&[0x81]), Err(ParseError::UnexpectedEof));
}

#[test]
fn track_malformed_delta() {
    assert_eq!(
        track(&[0x80, 0x80, 0x80, 0x80, 0x00, 0x90, 0x40, 0x7F]),
        Err(ParseError::MalformedVarLength)
    );
}

#[test]
fn track_system_status_is_rejected() {
    assert_eq!(track(&[0x00, 0xF1, 0x00, 0x00]), Err(ParseError::UnreachableStatus));
}

#[test]
fn midi_event_data_lengths() {
    let data = [0x11, 0x22, 0x33];
    for status in [0x80u8, 0x9F, 0xA1, 0xB2, 0xE3] {
        assert_eq!(
            midi_event(status, &data),
            Ok((MidiEvent { status, data: ChannelData::Two(0x11, 0x22) }, 2))
        );
    }
    for status in [0xC0u8, 0xDF] {
        assert_eq!(
            midi_event(status, &data),
            Ok((MidiEvent { status, data: ChannelData::One(0x11) }, 1))
        );
    }
    assert_eq!(midi_event(0x90, &data[..1]), Err(ParseError::UnexpectedEof));
    assert_eq!(midi_event(0xC0, &[]), Err(ParseError::UnexpectedEof));
    assert_eq!(midi_event(0x7F, &data), Err(ParseError::UnreachableStatus));
    assert_eq!(midi_event(0xF0, &data), Err(ParseError::UnreachableStatus));
}

#[test]
fn payload_reads_length_then_bytes() {
    assert_eq!(payload(&[0x02, 0xAA, 0xBB, 0xCC]), Ok((&[0xAAu8, 0xBB][..], 3)));
    assert_eq!(payload(&[0x00, 0xAA]), Ok((&[][..], 1)));
    assert_eq!(payload(&[0x02, 0xAA]), Err(ParseError::UnexpectedEof));
    let mut long = vec![0x81, 0x00];
    long.extend(std::iter::repeat(7u8).take(0x80));
    let (data, used) = payload(&long).unwrap();
    assert_eq!(data.len(), 0x80);
    assert_eq!(used, 0x82);
}

#[test]
fn meta_event_kind_and_payload() {
    assert_eq!(
        meta_event(&[0x51, 0x03, 0x07, 0xA1, 0x20, 0x99]),
        Ok((MetaEvent { kind: 0x51, data: &[0x07, 0xA1, 0x20] }, 5))
    );
    assert_eq!(meta_event(&[]), Err(ParseError::UnexpectedEof));
    assert_eq!(meta_event(&[0x51]), Err(ParseError::UnexpectedEof));
    assert_eq!(
        meta_event(&[0x51, 0x80, 0x80, 0x80, 0x80]),
        Err(ParseError::MalformedVarLength)
    );
}

#[test]
fn sysex_event_flags() {
    assert_eq!(
        sysex_event(true, &[0x03, 0x01, 0x02, 0xF7]),
        Ok((SysexEvent { start: true, end: true, data: &[0x01, 0x02, 0xF7] }, 4))
    );
    assert_eq!(
        sysex_event(true, &[0x02, 0x01, 0x02, 0xF7]),
        Ok((SysexEvent { start: true, end: false, data: &[0x01, 0x02] }, 3))
    );
    assert_eq!(
        sysex_event(false, &[0x01, 0xF7]),
        Ok((SysexEvent { start: false, end: true, data: &[0xF7] }, 2))
    );
    assert_eq!(
        sysex_event(false, &[0x00]),
        Ok((SysexEvent { start: false, end: false, data: &[] }, 1))
    );
    assert_eq!(sysex_event(true, &[0x05, 0x01]), Err(ParseError::UnexpectedEof));
}

#[test]
fn event_sets_running_status() {
    assert_eq!(
        event(&[0x05, 0x91, 0x40, 0x7F, 0xAA], None),
        Ok((
            Event::Midi(5, MidiEvent { status: 0x91, data: ChannelData::Two(0x40, 0x7F) }),
            4,
            Some(0x91)
        ))
    );
    assert_eq!(
        event(&[0x05, 0x40, 0x7F, 0xAA], Some(0x82)),
        Ok((
            Event::Midi(5, MidiEvent { status: 0x82, data: ChannelData::Two(0x40, 0x7F) }),
            3,
            Some(0x82)
        ))
    );
    assert_eq!(
        event(&[0x00, 0xF7, 0x01, 0x55], Some(0x82)),
        Ok((
            Event::Sysex(0, SysexEvent { start: false, end: false, data: &[0x55] }),
            4,
            None
        ))
    );
    assert_eq!(
        event(&[0x00, 0xF0, 0x00], Some(0x82)),
        Ok((Event::Sysex(0, SysexEvent { start: true, end: false, data: &[] }), 3, None))
    );
    assert_eq!(
        event(&[0x00, 0xFF, 0x2F, 0x00], Some(0x82)),
        Ok((Event::Meta(0, MetaEvent { kind: 0x2F, data: &[] }), 4, Some(0x82)))
    );
}

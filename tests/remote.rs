use fader_bridge::midi::{EncodeError, EventField, MidiEvent};
use fader_bridge::remote::{
    event_of, handle_message, message_kind, process_message, ClientMessage, MessageKind,
    PeerMessage, PeerStep, RemoteAction,
};

fn message(kind: &str, channel: u8, cc_value: u8, value: u16) -> ClientMessage {
    ClientMessage { midi_type: kind.to_string(), channel, cc_value, value }
}

fn message_from_json(text: &str) -> ClientMessage {
    let v: serde_json::Value = serde_json::from_str(text).unwrap();
    ClientMessage {
        midi_type: v["midi_type"].as_str().unwrap().to_string(),
        channel: v["channel"].as_u64().unwrap() as u8,
        cc_value: v["cc_value"].as_u64().unwrap() as u8,
        value: v["value"].as_u64().unwrap() as u16,
    }
}

fn sent(a: RemoteAction) -> Vec<u8> {
    match a {
        RemoteAction::Send(f) => f,
        other => panic!("expected a frame, got {:?}", other),
    }
}

#[test]
fn pitch_message_scenario() {
    let m = message_from_json(r#"{"midi_type":"pitch","channel":0,"cc_value":0,"value":8192}"#);
    let frame = sent(handle_message(&m));
    assert_eq!(frame, vec![0xE0, 0, 64]);
}

#[test]
fn kinds_are_recognised() {
    assert_eq!(message_kind("cc"), MessageKind::ControlChange);
    assert_eq!(message_kind("note"), MessageKind::Note);
    assert_eq!(message_kind("pitch"), MessageKind::PitchBend);
    assert_eq!(message_kind("CC"), MessageKind::Unknown);
    assert_eq!(message_kind("ccc"), MessageKind::Unknown);
    assert_eq!(message_kind(""), MessageKind::Unknown);
    assert_eq!(message_kind("aftertouch"), MessageKind::Unknown);
}

#[test]
fn cc_message() {
    let m = message("cc", 0, 7, 100);
    assert_eq!(event_of(&m), Some(MidiEvent::ControlChange { channel: 0, controller: 7, value: 100 }));
    assert_eq!(sent(handle_message(&m)), vec![0xB0, 7, 100]);
}

#[test]
fn cc_message_on_another_channel() {
    assert_eq!(sent(handle_message(&message("cc", 3, 1, 5))), vec![0xB3, 1, 5]);
}

#[test]
fn note_message() {
    let m = message("note", 0, 0, 60);
    assert_eq!(event_of(&m), Some(MidiEvent::NoteOn { channel: 0, note: 60, velocity: 127 }));
    assert_eq!(sent(handle_message(&m)), vec![0x90, 60, 127]);
}

#[test]
fn out_of_range_values_are_rejected_not_truncated() {
    match handle_message(&message("cc", 0, 1, 300)) {
        RemoteAction::Reject(e) => assert_eq!(e, EncodeError::OutOfRange(EventField::Value)),
        other => panic!("unexpected {:?}", other),
    }
    match handle_message(&message("cc", 0, 1, 128)) {
        RemoteAction::Reject(e) => assert_eq!(e, EncodeError::OutOfRange(EventField::Value)),
        other => panic!("unexpected {:?}", other),
    }
    match handle_message(&message("note", 0, 0, 256 + 60)) {
        RemoteAction::Reject(e) => assert_eq!(e, EncodeError::OutOfRange(EventField::Note)),
        other => panic!("unexpected {:?}", other),
    }
    match handle_message(&message("pitch", 0, 0, 20000)) {
        RemoteAction::Reject(e) => assert_eq!(e, EncodeError::OutOfRange(EventField::PitchBend)),
        other => panic!("unexpected {:?}", other),
    }
    match handle_message(&message("pitch", 16, 0, 0)) {
        RemoteAction::Reject(e) => assert_eq!(e, EncodeError::OutOfRange(EventField::Channel)),
        other => panic!("unexpected {:?}", other),
    }
}

#[test]
fn unknown_kind_is_ignored() {
    let m = message("sysex", 0, 0, 0);
    assert_eq!(event_of(&m), None);
    assert!(matches!(handle_message(&m), RemoteAction::Ignore));
}

#[test]
fn session_frames() {
    assert!(matches!(process_message(PeerMessage::Close), PeerStep::End));
    assert!(matches!(process_message(PeerMessage::Ping), PeerStep::Continue(RemoteAction::Ignore)));
    assert!(matches!(process_message(PeerMessage::Pong), PeerStep::Continue(RemoteAction::Ignore)));
    assert!(matches!(process_message(PeerMessage::Binary), PeerStep::Continue(RemoteAction::Ignore)));
    assert!(matches!(
        process_message(PeerMessage::Unreadable),
        PeerStep::Continue(RemoteAction::Ignore)
    ));
    match process_message(PeerMessage::Command(message("cc", 0, 1, 2))) {
        PeerStep::Continue(RemoteAction::Send(f)) => assert_eq!(f, vec![0xB0, 1, 2]),
        other => panic!("unexpected {:?}", other),
    }
}

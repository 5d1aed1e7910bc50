use fader_bridge::midi::{encode, EncodeError, EventField, MidiEvent};

#[test]
fn control_change_frame() {
    let e = MidiEvent::ControlChange { channel: 0, controller: 1, value: 10 };
    assert_eq!(encode(e), Ok(vec![0xB0, 1, 10]));
    let e = MidiEvent::ControlChange { channel: 15, controller: 127, value: 127 };
    assert_eq!(encode(e), Ok(vec![0xBF, 127, 127]));
}

#[test]
fn control_change_value_200_is_rejected() {
    let e = MidiEvent::ControlChange { channel: 0, controller: 1, value: 200 };
    assert_eq!(encode(e), Err(EncodeError::OutOfRange(EventField::Value)));
}

#[test]
fn control_change_controller_out_of_range() {
    let e = MidiEvent::ControlChange { channel: 0, controller: 128, value: 5 };
    assert_eq!(encode(e), Err(EncodeError::OutOfRange(EventField::Controller)));
}

#[test]
fn channel_is_checked_first() {
    let e = MidiEvent::ControlChange { channel: 16, controller: 200, value: 200 };
    assert_eq!(encode(e), Err(EncodeError::OutOfRange(EventField::Channel)));
    let e = MidiEvent::NoteOn { channel: 16, note: 60, velocity: 100 };
    assert_eq!(encode(e), Err(EncodeError::OutOfRange(EventField::Channel)));
    let e = MidiEvent::PitchBend { channel: 200, value14: 0 };
    assert_eq!(encode(e), Err(EncodeError::OutOfRange(EventField::Channel)));
}

#[test]
fn note_on_frame() {
    let e = MidiEvent::NoteOn { channel: 2, note: 60, velocity: 127 };
    assert_eq!(encode(e), Ok(vec![0x92, 60, 127]));
}

#[test]
fn note_on_out_of_range() {
    let e = MidiEvent::NoteOn { channel: 0, note: 128, velocity: 1 };
    assert_eq!(encode(e), Err(EncodeError::OutOfRange(EventField::Note)));
    let e = MidiEvent::NoteOn { channel: 0, note: 1, velocity: 128 };
    assert_eq!(encode(e), Err(EncodeError::OutOfRange(EventField::Velocity)));
}

#[test]
fn pitch_bend_frames() {
    assert_eq!(encode(MidiEvent::PitchBend { channel: 0, value14: 8192 }), Ok(vec![0xE0, 0, 64]));
    assert_eq!(encode(MidiEvent::PitchBend { channel: 1, value14: 0x2600 }), Ok(vec![0xE1, 0, 76]));
    assert_eq!(encode(MidiEvent::PitchBend { channel: 0, value14: 16383 }), Ok(vec![0xE0, 127, 127]));
    assert_eq!(encode(MidiEvent::PitchBend { channel: 0, value14: 129 }), Ok(vec![0xE0, 1, 1]));
}

#[test]
fn pitch_bend_above_14_bits_is_rejected() {
    let e = MidiEvent::PitchBend { channel: 0, value14: 16384 };
    assert_eq!(encode(e), Err(EncodeError::OutOfRange(EventField::PitchBend)));
}

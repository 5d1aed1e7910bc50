//! MIDI events and their wire encoding.
use vstd::prelude::*;

verus! {

/// Highest MIDI channel number (channels are 0 to 15).
pub const MAX_CHANNEL: u8 = 15;

/// Highest value of a 7-bit data byte.
pub const MAX_DATA: u8 = 127;

/// Highest 14-bit pitch-bend value.
pub const MAX_PITCH_BEND: u16 = 16383;

/// Status nibble of a Note-On message.
pub const NOTE_ON_STATUS: u8 = 0x90;

/// Status nibble of a Control Change message.
pub const CONTROL_CHANGE_STATUS: u8 = 0xB0;

/// Status nibble of a Pitch-Bend message.
pub const PITCH_BEND_STATUS: u8 = 0xE0;

/// A MIDI message this bridge can emit.
#[derive(Clone, Copy, Debug, PartialEq, Eq, Structural)]
pub enum MidiEvent {
    ControlChange { channel: u8, controller: u8, value: u8 },
    NoteOn { channel: u8, note: u8, velocity: u8 },
    PitchBend { channel: u8, value14: u16 },
}

/// The field of an event that held an illegal value.
#[derive(Clone, Copy, Debug, PartialEq, Eq, Structural)]
pub enum EventField {
    Channel,
    Controller,
    Value,
    Note,
    Velocity,
    PitchBend,
}

/// Why an event could not be encoded.
#[derive(Clone, Copy, Debug, PartialEq, Eq, Structural)]
pub enum EncodeError {
    OutOfRange(EventField),
}

/// The wire frame of each legal event; the first field out of range (channel first,
/// then the data fields in order) for the others.
pub open spec fn encode_spec(event: MidiEvent) -> Result<Seq<u8>, EncodeError> {
    match event {
        MidiEvent::ControlChange { channel, controller, value } => {
            if channel > MAX_CHANNEL {
                Err(EncodeError::OutOfRange(EventField::Channel))
            } else if controller > MAX_DATA {
                Err(EncodeError::OutOfRange(EventField::Controller))
            } else if value > MAX_DATA {
                Err(EncodeError::OutOfRange(EventField::Value))
            } else {
                Ok(seq![(CONTROL_CHANGE_STATUS + channel) as u8, controller, value])
            }
        },
        MidiEvent::NoteOn { channel, note, velocity } => {
            if channel > MAX_CHANNEL {
                Err(EncodeError::OutOfRange(EventField::Channel))
            } else if note > MAX_DATA {
                Err(EncodeError::OutOfRange(EventField::Note))
            } else if velocity > MAX_DATA {
                Err(EncodeError::OutOfRange(EventField::Velocity))
            } else {
                Ok(seq![(NOTE_ON_STATUS + channel) as u8, note, velocity])
            }
        },
        MidiEvent::PitchBend { channel, value14 } => {
            if channel > MAX_CHANNEL {
                Err(EncodeError::OutOfRange(EventField::Channel))
            } else if value14 > MAX_PITCH_BEND {
                Err(EncodeError::OutOfRange(EventField::PitchBend))
            } else {
                Ok(
                    seq![
                        (PITCH_BEND_STATUS + channel) as u8,
                        (value14 % 128) as u8,
                        (value14 / 128) as u8,
                    ],
                )
            }
        },
    }
}

/// Relies on midi_control::control_change (with Channel::from for the channel and the
/// conversion of the message into Vec<u8>): the frame `[0xB0 | channel, control, value]`.
#[verifier::external_body]
fn control_change_frame(channel: u8, control: u8, value: u8) -> (r: Vec<u8>)
    requires
        channel <= MAX_CHANNEL,
    ensures
        r@ == seq![(CONTROL_CHANGE_STATUS + channel) as u8, control, value],
{
    midi_control::control_change(midi_control::Channel::from(channel), control, value).into()
}

/// Relies on midi_control::note_on (with Channel::from for the channel and the conversion
/// of the message into Vec<u8>): the frame `[0x90 | channel, note, velocity]`.
#[verifier::external_body]
fn note_on_frame(channel: u8, note: u8, velocity: u8) -> (r: Vec<u8>)
    requires
        channel <= MAX_CHANNEL,
    ensures
        r@ == seq![(NOTE_ON_STATUS + channel) as u8, note, velocity],
{
    midi_control::note_on(midi_control::Channel::from(channel), note, velocity).into()
}

/// Relies on midi_control::pitch_bend (with Channel::from for the channel and the
/// conversion of the message into Vec<u8>): for a 14-bit value, the frame
/// `[0xE0 | channel, value & 0x7f, (value >> 7) & 0x7f]`.
#[verifier::external_body]
fn pitch_bend_frame(channel: u8, value14: u16) -> (r: Vec<u8>)
    requires
        channel <= MAX_CHANNEL,
        value14 <= MAX_PITCH_BEND,
    ensures
        r@ == seq![(PITCH_BEND_STATUS + channel) as u8, (value14 % 128) as u8, (value14 / 128) as u8],
{
    midi_control::pitch_bend(midi_control::Channel::from(channel), value14).into()
}

/// Checks every field of the event against its legal range, then produces its wire frame.
pub fn encode(event: MidiEvent) -> (r: Result<Vec<u8>, EncodeError>)
    ensures
        match r {
            Ok(frame) => encode_spec(event) == Ok::<Seq<u8>, EncodeError>(frame@),
            Err(e) => encode_spec(event) == Err::<Seq<u8>, EncodeError>(e),
        },
{
    match event {
        MidiEvent::ControlChange { channel, controller, value } => {
            if channel > MAX_CHANNEL {
                Err(EncodeError::OutOfRange(EventField::Channel))
            } else if controller > MAX_DATA {
                Err(EncodeError::OutOfRange(EventField::Controller))
            } else if value > MAX_DATA {
                Err(EncodeError::OutOfRange(EventField::Value))
            } else {
                Ok(control_change_frame(channel, controller, value))
            }
        },
        MidiEvent::NoteOn { channel, note, velocity } => {
            if channel > MAX_CHANNEL {
                Err(EncodeError::OutOfRange(EventField::Channel))
            } else if note > MAX_DATA {
                Err(EncodeError::OutOfRange(EventField::Note))
            } else if velocity > MAX_DATA {
                Err(EncodeError::OutOfRange(EventField::Velocity))
            } else {
                Ok(note_on_frame(channel, note, velocity))
            }
        },
        MidiEvent::PitchBend { channel, value14 } => {
            if channel > MAX_CHANNEL {
                Err(EncodeError::OutOfRange(EventField::Channel))
            } else if value14 > MAX_PITCH_BEND {
                Err(EncodeError::OutOfRange(EventField::PitchBend))
            } else {
                Ok(pitch_bend_frame(channel, value14))
            }
        },
    }
}

/// A Control Change whose value exceeds 127 is refused, naming the value field, whatever
/// its channel and controller are, as long as those are legal.
pub proof fn lemma_control_value_bound(channel: u8, controller: u8, value: u8)
    requires
        channel <= MAX_CHANNEL,
        controller <= MAX_DATA,
    ensures
        value > MAX_DATA ==> encode_spec(MidiEvent::ControlChange { channel, controller, value })
            == Err::<Seq<u8>, EncodeError>(EncodeError::OutOfRange(EventField::Value)),
        value <= MAX_DATA ==> encode_spec(MidiEvent::ControlChange { channel, controller, value })
            is Ok,
{
}

} // verus!

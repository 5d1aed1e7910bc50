//! The remote control channel's decisions: which MIDI event a network message asks for,
//! and what each frame of a peer's session does to it. The transport itself (the
//! WebSocket, the JSON text) is left to the caller.
use crate::midi::{encode, encode_spec, EncodeError, MidiEvent};
use vstd::prelude::*;
use vstd::string::StrSliceExecFns;

verus! {

/// Velocity of the notes that network peers start (the highest).
pub const REMOTE_NOTE_VELOCITY: u8 = 127;

/// A control message from a network peer, once read from its JSON text
/// `{"midi_type": .., "channel": .., "cc_value": .., "value": ..}`.
#[derive(Debug)]
pub struct ClientMessage {
    pub midi_type: String,
    pub channel: u8,
    pub cc_value: u8,
    pub value: u16,
}

/// The kind named by a message's `midi_type`.
#[derive(Clone, Copy, Debug, PartialEq, Eq, Structural)]
pub enum MessageKind {
    /// `"cc"`
    ControlChange,
    /// `"note"`
    Note,
    /// `"pitch"`
    PitchBend,
    /// Anything else; such messages are ignored.
    Unknown,
}

/// What the channel does with one message.
#[derive(Debug)]
pub enum RemoteAction {
    /// Nothing: the message names no known kind, or is no control message.
    Ignore,
    /// Send this frame to the MIDI output.
    Send(Vec<u8>),
    /// Drop the message: a field is out of range.
    Reject(EncodeError),
}

/// One frame of a peer's session, with its text already read.
#[derive(Debug)]
pub enum PeerMessage {
    /// A text frame that holds a control message.
    Command(ClientMessage),
    /// A text frame that holds no control message.
    Unreadable,
    Binary,
    Ping,
    Pong,
    Close,
}

/// What a frame does to the session.
#[derive(Debug)]
pub enum PeerStep {
    /// The session goes on, after this action.
    Continue(RemoteAction),
    /// The peer closed; only its session ends.
    End,
}

pub open spec fn kind_of(tag: Seq<char>) -> MessageKind {
    if tag == seq!['c', 'c'] {
        MessageKind::ControlChange
    } else if tag == seq!['n', 'o', 't', 'e'] {
        MessageKind::Note
    } else if tag == seq!['p', 'i', 't', 'c', 'h'] {
        MessageKind::PitchBend
    } else {
        MessageKind::Unknown
    }
}

/// A 16-bit value as a data byte, held at 255 when larger. Data bytes above 127 are
/// refused by the encoder, so a value above 255 is refused exactly as it would be whole.
pub open spec fn byte_of(v: u16) -> u8 {
    if v > 255 {
        255
    } else {
        v as u8
    }
}

/// The event a message asks for: `cc` sets controller `cc_value` to `value`, `note`
/// starts note `value` at full velocity, `pitch` bends by `value`; all on `channel`.
pub open spec fn message_event(msg: ClientMessage) -> Option<MidiEvent> {
    match kind_of(msg.midi_type@) {
        MessageKind::ControlChange => Some(
            MidiEvent::ControlChange {
                channel: msg.channel,
                controller: msg.cc_value,
                value: byte_of(msg.value),
            },
        ),
        MessageKind::Note => Some(
            MidiEvent::NoteOn {
                channel: msg.channel,
                note: byte_of(msg.value),
                velocity: REMOTE_NOTE_VELOCITY,
            },
        ),
        MessageKind::PitchBend => Some(
            MidiEvent::PitchBend { channel: msg.channel, value14: msg.value },
        ),
        MessageKind::Unknown => None,
    }
}

/// The action is the one the message calls for.
pub open spec fn action_for(msg: ClientMessage, action: RemoteAction) -> bool {
    match message_event(msg) {
        None => action is Ignore,
        Some(event) => match encode_spec(event) {
            Ok(frame) => action matches RemoteAction::Send(f) && f@ == frame,
            Err(e) => action matches RemoteAction::Reject(x) && x == e,
        },
    }
}

/// Reads a message's `midi_type`.
pub fn message_kind(tag: &str) -> (r: MessageKind)
    ensures
        r == kind_of(tag@),
{
    let n = tag.unicode_len();
    if n == 2 && tag.get_char(0) == 'c' && tag.get_char(1) == 'c' {
        assert(tag@ =~= seq!['c', 'c']);
        MessageKind::ControlChange
    } else if n == 4 && tag.get_char(0) == 'n' && tag.get_char(1) == 'o' && tag.get_char(2) == 't'
        && tag.get_char(3) == 'e' {
        assert(tag@ =~= seq!['n', 'o', 't', 'e']);
        MessageKind::Note
    } else if n == 5 && tag.get_char(0) == 'p' && tag.get_char(1) == 'i' && tag.get_char(2) == 't'
        && tag.get_char(3) == 'c' && tag.get_char(4) == 'h' {
        assert(tag@ =~= seq!['p', 'i', 't', 'c', 'h']);
        MessageKind::PitchBend
    } else {
        MessageKind::Unknown
    }
}

fn data_byte(v: u16) -> (r: u8)
    ensures
        r == byte_of(v),
{
    if v > 255 {
        255
    } else {
        v as u8
    }
}

/// The event a message asks for, or `None` for a kind this channel does not know.
pub fn event_of(msg: &ClientMessage) -> (r: Option<MidiEvent>)
    ensures
        r == message_event(*msg),
{
    match message_kind(msg.midi_type.as_str()) {
        MessageKind::ControlChange => Some(
            MidiEvent::ControlChange {
                channel: msg.channel,
                controller: msg.cc_value,
                value: data_byte(msg.value),
            },
        ),
        MessageKind::Note => Some(
            MidiEvent::NoteOn {
                channel: msg.channel,
                note: data_byte(msg.value),
                velocity: REMOTE_NOTE_VELOCITY,
            },
        ),
        MessageKind::PitchBend => Some(
            MidiEvent::PitchBend { channel: msg.channel, value14: msg.value },
        ),
        MessageKind::Unknown => None,
    }
}

/// Turns a control message into the frame to send; unknown kinds are ignored and
/// out-of-range fields make the message be dropped.
pub fn handle_message(msg: &ClientMessage) -> (r: RemoteAction)
    ensures
        action_for(*msg, r),
{
    match event_of(msg) {
        None => RemoteAction::Ignore,
        Some(event) => match encode(event) {
            Ok(frame) => RemoteAction::Send(frame),
            Err(e) => RemoteAction::Reject(e),
        },
    }
}

/// What one frame of a peer's session does: a control message is handled, a close ends
/// the session, and every other frame is ignored.
pub fn process_message(frame: PeerMessage) -> (r: PeerStep)
    ensures
        match frame {
            PeerMessage::Command(msg) => r matches PeerStep::Continue(a) && action_for(msg, a),
            PeerMessage::Close => r is End,
            _ => r matches PeerStep::Continue(a) && a is Ignore,
        },
{
    match frame {
        PeerMessage::Command(msg) => PeerStep::Continue(handle_message(&msg)),
        PeerMessage::Close => PeerStep::End,
        _ => PeerStep::Continue(RemoteAction::Ignore),
    }
}

} // verus!

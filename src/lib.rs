//! Bridge from a serial fader bank to MIDI: line decoding, routing, MIDI encoding,
//! the serial bridge's decisions, the remote control channel's decisions, and the MIDI
//! output's connection state.
pub mod bridge;
pub mod line;
pub mod midi;
pub mod remote;
pub mod routing;
pub mod sink;

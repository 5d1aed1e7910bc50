//! The MIDI output's connection state. The connection and the lock that serializes
//! senders belong to the caller; this decides what each send reports.
use vstd::prelude::*;

verus! {

/// Why a send did not reach the MIDI output.
#[derive(Clone, Copy, Debug, PartialEq, Eq, Structural)]
pub enum SinkError {
    /// The connection is gone; this ends the session.
    Disconnected,
}

/// Whether the single output connection is still usable. Once lost it stays lost:
/// there is no reconnection.
#[derive(Clone, Copy, Debug, PartialEq, Eq, Structural)]
pub struct SinkState {
    connected: bool,
}

impl SinkState {
    /// Whether the connection is still usable.
    pub closed spec fn live(&self) -> bool {
        self.connected
    }

    /// The state of a freshly opened connection.
    pub fn new() -> (r: SinkState)
        ensures
            r.live(),
    {
        SinkState { connected: true }
    }

    /// Whether a frame may be written now.
    pub fn is_connected(&self) -> (r: bool)
        ensures
            r == self.live(),
    {
        self.connected
    }

    /// Records the outcome of a write made while connected: a failed write tears the
    /// connection down. A send made after that is refused without writing.
    pub fn write_outcome(&mut self, written: bool) -> (r: Result<(), SinkError>)
        ensures
            final(self).live() == (old(self).live() && written),
            r is Ok <==> final(self).live(),
            r matches Err(e) ==> e == SinkError::Disconnected,
    {
        if self.connected && written {
            Ok(())
        } else {
            self.connected = false;
            Err(SinkError::Disconnected)
        }
    }

    /// Marks the connection as torn down.
    pub fn disconnect(&mut self)
        ensures
            !final(self).live(),
    {
        self.connected = false;
    }
}

} // verus!

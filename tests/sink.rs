use fader_bridge::sink::{SinkError, SinkState};

#[test]
fn successful_writes_keep_the_connection() {
    let mut s = SinkState::new();
    assert!(s.is_connected());
    assert_eq!(s.write_outcome(true), Ok(()));
    assert!(s.is_connected());
}

#[test]
fn failed_write_is_terminal() {
    let mut s = SinkState::new();
    assert_eq!(s.write_outcome(false), Err(SinkError::Disconnected));
    assert!(!s.is_connected());
    assert_eq!(s.write_outcome(true), Err(SinkError::Disconnected));
}

#[test]
fn disconnect_is_terminal() {
    let mut s = SinkState::new();
    s.disconnect();
    assert!(!s.is_connected());
    assert_eq!(s.write_outcome(true), Err(SinkError::Disconnected));
}

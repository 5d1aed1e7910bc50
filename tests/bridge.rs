use fader_bridge::bridge::{BridgeStatus, SerialBridge, StopReason};
use fader_bridge::line::Sample;
use fader_bridge::routing::Faders;

fn reading_bridge() -> SerialBridge {
    let mut b = SerialBridge::new(Faders::default());
    b.start();
    b
}

#[test]
fn default_stream_scenario() {
    let mut b = reading_bridge();
    let frames = b.on_data(b"18,10\n19,64\n18,10\n20,5\n");
    assert_eq!(frames, vec![vec![0xB0, 1, 10], vec![0xB0, 11, 64], vec![0xB0, 2, 5]]);
    assert_eq!(b.observed_value(18), Some(10));
    assert_eq!(b.observed_value(19), Some(64));
    assert_eq!(b.observed_value(20), Some(5));
    assert_eq!(b.observed_value(21), None);
}

#[test]
fn same_reading_twice_sends_once() {
    let mut b = reading_bridge();
    let frames = b.on_data(b"19,40\n19,40\n");
    assert_eq!(frames, vec![vec![0xB0, 11, 40]]);
}

#[test]
fn changed_reading_sends_twice() {
    let mut b = reading_bridge();
    let frames = b.on_data(b"19,40\n19,41\n");
    assert_eq!(frames, vec![vec![0xB0, 11, 40], vec![0xB0, 11, 41]]);
}

#[test]
fn first_reading_of_zero_is_sent() {
    let mut b = reading_bridge();
    assert_eq!(b.on_data(b"21,0\n"), vec![vec![0xB0, 3, 0]]);
}

#[test]
fn unrouted_input_never_sends() {
    let mut b = reading_bridge();
    let frames = b.on_data(b"5,10\n5,11\n22,1\n");
    assert!(frames.is_empty());
    assert_eq!(b.observed_value(5), Some(11));
}

#[test]
fn lines_split_across_reads_are_joined() {
    let mut b = reading_bridge();
    assert!(b.on_data(b"1").is_empty());
    assert!(b.on_data(b"8,1").is_empty());
    assert_eq!(b.on_data(b"00\n20"), vec![vec![0xB0, 1, 100]]);
    assert_eq!(b.on_data(b",9\n"), vec![vec![0xB0, 2, 9]]);
}

#[test]
fn bad_lines_are_dropped() {
    let mut b = reading_bridge();
    let frames = b.on_data(b"garbage\n18,\n18,12\n");
    assert_eq!(frames, vec![vec![0xB0, 1, 12]]);
    assert_eq!(b.status(), BridgeStatus::Reading);
}

#[test]
fn values_above_127_are_observed_but_not_sent() {
    let mut b = reading_bridge();
    assert!(b.on_data(b"18,200\n").is_empty());
    assert_eq!(b.observed_value(18), Some(200));
    assert_eq!(b.on_data(b"18,100\n"), vec![vec![0xB0, 1, 100]]);
}

#[test]
fn idle_bridge_ignores_data() {
    let mut b = SerialBridge::new(Faders::default());
    assert_eq!(b.status(), BridgeStatus::Idle);
    assert!(b.on_data(b"18,10\n").is_empty());
    assert_eq!(b.observed_value(18), None);
}

#[test]
fn timeout_without_cancel_keeps_reading() {
    let mut b = reading_bridge();
    b.on_timeout(false);
    assert_eq!(b.status(), BridgeStatus::Reading);
}

#[test]
fn cancel_is_seen_at_timeout() {
    let mut b = reading_bridge();
    b.on_timeout(true);
    assert_eq!(b.status(), BridgeStatus::Stopped(StopReason::Cancelled));
    assert!(b.on_data(b"18,10\n").is_empty());
    b.start();
    assert_eq!(b.status(), BridgeStatus::Stopped(StopReason::Cancelled));
}

#[test]
fn read_error_stops_the_bridge() {
    let mut b = reading_bridge();
    b.on_read_error();
    assert_eq!(b.status(), BridgeStatus::Stopped(StopReason::SerialLost));
}

#[test]
fn sink_loss_stops_the_bridge() {
    let mut b = reading_bridge();
    b.on_sink_lost();
    assert_eq!(b.status(), BridgeStatus::Stopped(StopReason::SinkLost));
    b.on_read_error();
    assert_eq!(b.status(), BridgeStatus::Stopped(StopReason::SinkLost));
}

#[test]
fn accept_sample_applies_change_detection() {
    let mut b = SerialBridge::new(Faders::default());
    assert_eq!(b.accept_sample(Sample { input_id: 20, value: 3 }), Some(vec![0xB0, 2, 3]));
    assert_eq!(b.accept_sample(Sample { input_id: 20, value: 3 }), None);
    assert_eq!(b.accept_sample(Sample { input_id: 20, value: 4 }), Some(vec![0xB0, 2, 4]));
}

#[test]
fn custom_routes_are_used() {
    let t = Faders::from_pairs(&[(2, 74)]).unwrap();
    let mut b = SerialBridge::new(t);
    b.start();
    assert_eq!(b.on_data(b"2,1\n18,1\n"), vec![vec![0xB0, 74, 1]]);
}

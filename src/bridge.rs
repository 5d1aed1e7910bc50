//! The serial bridge's decisions: it buffers the serial byte stream into lines, decodes
//! them, suppresses repeated values, routes each input to its controller and hands back
//! the Control Change frames to send. Reading the port and writing to the MIDI output
//! are left to the caller, which reports each outcome as an event.
use crate::line::{
    decode_bytes, decode_spec, lemma_line_round_trip, lemma_sample_line_single, sample_line, Sample,
    NEWLINE,
};
use crate::midi::{encode, encode_spec, MidiEvent};
use crate::routing::{valid_routes, Faders};
use std::collections::HashMap;
use vstd::prelude::*;

verus! {

broadcast use vstd::std_specs::hash::group_hash_axioms;

/// MIDI channel of the bridge's Control Change messages (the first channel).
pub const BRIDGE_CHANNEL: u8 = 0;

/// Why the bridge stopped.
#[derive(Clone, Copy, Debug, PartialEq, Eq, Structural)]
pub enum StopReason {
    /// The operator asked it to stop.
    Cancelled,
    /// Reading the serial device failed other than by a timeout.
    SerialLost,
    /// The MIDI output was disconnected.
    SinkLost,
}

/// Where the bridge is in its life.
#[derive(Clone, Copy, Debug, PartialEq, Eq, Structural)]
pub enum BridgeStatus {
    /// No session yet.
    Idle,
    /// Decoding and forwarding.
    Reading,
    /// Done; it does nothing more.
    Stopped(StopReason),
}

/// The state of one serial bridge session.
#[derive(Debug)]
pub struct SerialBridge {
    routes: Faders,
    status: BridgeStatus,
    pending: Vec<u8>,
    observed: HashMap<u8, u8>,
}

/// The Control Change that reports `value` for the controller `controller`.
pub open spec fn bridge_event(controller: u8, value: u8) -> MidiEvent {
    MidiEvent::ControlChange { channel: BRIDGE_CHANNEL, controller, value }
}

/// What one decoded sample does: the last observed values after it, and the frame it sends.
/// A value equal to the one last observed for its input is dropped; otherwise it becomes
/// the observed value, and it is sent when its input is routed and the event encodes.
pub open spec fn sample_step(
    observed: Map<u8, u8>,
    routes: Map<u8, u8>,
    s: Sample,
) -> (Map<u8, u8>, Option<Seq<u8>>) {
    if observed.contains_key(s.input_id) && observed[s.input_id] == s.value {
        (observed, None)
    } else {
        let next = observed.insert(s.input_id, s.value);
        if !routes.contains_key(s.input_id) {
            (next, None)
        } else {
            match encode_spec(bridge_event(routes[s.input_id], s.value)) {
                Ok(frame) => (next, Some(frame)),
                Err(_) => (next, None),
            }
        }
    }
}

/// What one complete line does; a line that does not decode changes nothing.
pub open spec fn line_step(
    observed: Map<u8, u8>,
    routes: Map<u8, u8>,
    line: Seq<u8>,
) -> (Map<u8, u8>, Option<Seq<u8>>) {
    match decode_spec(line) {
        Ok(s) => sample_step(observed, routes, s),
        Err(_) => (observed, None),
    }
}

/// The frames of a step, as a sequence of zero or one frame.
pub open spec fn frames_of(frame: Option<Seq<u8>>) -> Seq<Seq<u8>> {
    match frame {
        Some(f) => seq![f],
        None => Seq::empty(),
    }
}

/// Feeding bytes: the partial line kept, the observed values, and the frames sent in order.
/// Each newline completes the line buffered so far, which is then decoded and processed.
pub open spec fn feed_spec(
    pending: Seq<u8>,
    observed: Map<u8, u8>,
    routes: Map<u8, u8>,
    chunk: Seq<u8>,
) -> (Seq<u8>, Map<u8, u8>, Seq<Seq<u8>>)
    decreases chunk.len(),
{
    if chunk.len() == 0 {
        (pending, observed, Seq::empty())
    } else {
        let before = feed_spec(pending, observed, routes, chunk.drop_last());
        let b = chunk.last();
        if b == NEWLINE {
            let step = line_step(before.1, routes, before.0.push(b));
            (Seq::empty(), step.0, before.2 + frames_of(step.1))
        } else {
            (before.0.push(b), before.1, before.2)
        }
    }
}

proof fn lemma_feed_append(
    pending: Seq<u8>,
    observed: Map<u8, u8>,
    routes: Map<u8, u8>,
    a: Seq<u8>,
    b: Seq<u8>,
)
    ensures
        ({
            let x = feed_spec(pending, observed, routes, a);
            let y = feed_spec(x.0, x.1, routes, b);
            feed_spec(pending, observed, routes, a + b) == (y.0, y.1, x.2 + y.2)
        }),
    decreases b.len(),
{
    let x = feed_spec(pending, observed, routes, a);
    if b.len() == 0 {
        assert(a + b =~= a);
        assert(x.2 + Seq::<Seq<u8>>::empty() =~= x.2);
    } else {
        lemma_feed_append(pending, observed, routes, a, b.drop_last());
        assert((a + b).drop_last() =~= a + b.drop_last());
        assert((a + b).last() == b.last());
        let y = feed_spec(x.0, x.1, routes, b.drop_last());
        if b.last() == NEWLINE {
            let step = line_step(y.1, routes, y.0.push(b.last()));
            assert(x.2 + (y.2 + frames_of(step.1)) =~= (x.2 + y.2) + frames_of(step.1));
        }
    }
}

proof fn lemma_feed_without_newline(
    pending: Seq<u8>,
    observed: Map<u8, u8>,
    routes: Map<u8, u8>,
    chunk: Seq<u8>,
)
    requires
        forall|j: int| 0 <= j < chunk.len() ==> #[trigger] chunk[j] != NEWLINE,
    ensures
        feed_spec(pending, observed, routes, chunk) == (
            pending + chunk,
            observed,
            Seq::<Seq<u8>>::empty(),
        ),
    decreases chunk.len(),
{
    if chunk.len() == 0 {
        assert(pending + chunk =~= pending);
    } else {
        let rest = chunk.drop_last();
        assert forall|j: int| 0 <= j < rest.len() implies #[trigger] rest[j] != NEWLINE by {
            assert(rest[j] == chunk[j]);
        }
        lemma_feed_without_newline(pending, observed, routes, rest);
        assert(chunk.last() == chunk[chunk.len() - 1]);
        assert((pending + rest).push(chunk.last()) =~= pending + chunk);
    }
}

/// Feeding the canonical line of a sample, with nothing pending, processes that sample.
proof fn lemma_feed_sample_line(observed: Map<u8, u8>, routes: Map<u8, u8>, s: Sample)
    ensures
        ({
            let step = sample_step(observed, routes, s);
            feed_spec(Seq::empty(), observed, routes, sample_line(s)) == (
                Seq::<u8>::empty(),
                step.0,
                frames_of(step.1),
            )
        }),
{
    let line = sample_line(s);
    lemma_sample_line_single(s);
    lemma_line_round_trip(s.input_id, s.value);
    let body = line.drop_last();
    assert forall|j: int| 0 <= j < body.len() implies #[trigger] body[j] != NEWLINE by {
        assert(body[j] == line[j]);
    }
    lemma_feed_without_newline(Seq::empty(), observed, routes, body);
    assert(Seq::<u8>::empty() + body =~= body);
    assert(body.push(NEWLINE) =~= line);
    let step = sample_step(observed, routes, s);
    assert(Seq::<Seq<u8>>::empty() + frames_of(step.1) =~= frames_of(step.1));
}

/// A reading equal to the one just processed sends nothing and changes nothing.
pub proof fn lemma_repeat_suppressed(observed: Map<u8, u8>, routes: Map<u8, u8>, s: Sample)
    ensures
        ({
            let after = sample_step(observed, routes, s).0;
            sample_step(after, routes, s) == (after, None::<Seq<u8>>)
        }),
{
}

/// Sending the same reading twice in a row over the serial stream sends exactly what the
/// first line alone sends, so at most one frame; the second line is suppressed.
pub proof fn lemma_repeated_line_sends_once(
    observed: Map<u8, u8>,
    routes: Map<u8, u8>,
    s: Sample,
)
    ensures
        ({
            let first = sample_step(observed, routes, s);
            let fed = feed_spec(Seq::empty(), observed, routes, sample_line(s) + sample_line(s));
            &&& fed == (Seq::<u8>::empty(), first.0, frames_of(first.1))
            &&& fed.2.len() <= 1
        }),
{
    let first = sample_step(observed, routes, s);
    lemma_feed_append(Seq::empty(), observed, routes, sample_line(s), sample_line(s));
    lemma_feed_sample_line(observed, routes, s);
    lemma_feed_sample_line(first.0, routes, s);
    lemma_repeat_suppressed(observed, routes, s);
    assert(frames_of(first.1) + frames_of(None) =~= frames_of(first.1));
}

/// Two readings in a row of a routed input, with different legal values, the first of
/// which differs from what was last observed for it, send two frames: one Control Change
/// for each value, in order.
pub proof fn lemma_changed_line_sends_twice(
    observed: Map<u8, u8>,
    routes: Map<u8, u8>,
    input: u8,
    v1: u8,
    v2: u8,
)
    requires
        valid_routes(routes),
        routes.contains_key(input),
        v1 <= 127,
        v2 <= 127,
        v1 != v2,
        !(observed.contains_key(input) && observed[input] == v1),
    ensures
        ({
            let a = Sample { input_id: input, value: v1 };
            let b = Sample { input_id: input, value: v2 };
            let fed = feed_spec(Seq::empty(), observed, routes, sample_line(a) + sample_line(b));
            &&& fed.2.len() == 2
            &&& fed.2[0] == encode_spec(bridge_event(routes[input], v1))->Ok_0
            &&& fed.2[1] == encode_spec(bridge_event(routes[input], v2))->Ok_0
            &&& encode_spec(bridge_event(routes[input], v1)) is Ok
            &&& encode_spec(bridge_event(routes[input], v2)) is Ok
        }),
{
    let a = Sample { input_id: input, value: v1 };
    let b = Sample { input_id: input, value: v2 };
    let first = sample_step(observed, routes, a);
    lemma_feed_append(Seq::empty(), observed, routes, sample_line(a), sample_line(b));
    lemma_feed_sample_line(observed, routes, a);
    lemma_feed_sample_line(first.0, routes, b);
    assert(routes[input] <= 127);
    let fa = encode_spec(bridge_event(routes[input], v1))->Ok_0;
    let fb = encode_spec(bridge_event(routes[input], v2))->Ok_0;
    assert(first.1 == Some(fa));
    assert(first.0[input] == v1);
    assert(sample_step(first.0, routes, b).1 == Some(fb));
    assert(frames_of(Some(fa)) + frames_of(Some(fb)) =~= seq![fa, fb]);
}

/// A reading of an input that the table does not route never produces a frame, alone or
/// as a line of the serial stream.
pub proof fn lemma_unrouted_sends_nothing(
    observed: Map<u8, u8>,
    routes: Map<u8, u8>,
    s: Sample,
)
    requires
        !routes.contains_key(s.input_id),
    ensures
        sample_step(observed, routes, s).1 is None,
        feed_spec(Seq::empty(), observed, routes, sample_line(s)).2 == Seq::<Seq<u8>>::empty(),
{
    lemma_feed_sample_line(observed, routes, s);
}

/// Every frame that the bridge sends, whatever the bytes and the state, is a Control
/// Change on the bridge's channel for the controller of some routed input.
pub proof fn lemma_frames_come_from_routes(
    pending: Seq<u8>,
    observed: Map<u8, u8>,
    routes: Map<u8, u8>,
    chunk: Seq<u8>,
)
    ensures
        ({
            let frames = feed_spec(pending, observed, routes, chunk).2;
            forall|k: int|
                0 <= k < frames.len() ==> exists|input: u8, v: u8|
                    routes.contains_key(input) && #[trigger] frames[k] == encode_spec(
                        bridge_event(routes[input], v),
                    )->Ok_0
        }),
    decreases chunk.len(),
{
    if chunk.len() > 0 {
        let before = feed_spec(pending, observed, routes, chunk.drop_last());
        lemma_frames_come_from_routes(pending, observed, routes, chunk.drop_last());
        let fed = feed_spec(pending, observed, routes, chunk);
        let line = before.0.push(chunk.last());
        let step = line_step(before.1, routes, line);
        if chunk.last() == NEWLINE {
            assert(fed.2 == before.2 + frames_of(step.1));
        } else {
            assert(fed.2 == before.2);
        }
        assert forall|k: int| 0 <= k < fed.2.len() implies exists|input: u8, v: u8|
            routes.contains_key(input) && #[trigger] fed.2[k] == encode_spec(
                bridge_event(routes[input], v),
            )->Ok_0 by {
            if k < before.2.len() {
                assert(fed.2[k] == before.2[k]);
                let (input, v) = choose|input: u8, v: u8|
                    routes.contains_key(input) && #[trigger] before.2[k] == encode_spec(
                        bridge_event(routes[input], v),
                    )->Ok_0;
                assert(routes.contains_key(input) && fed.2[k] == encode_spec(
                    bridge_event(routes[input], v),
                )->Ok_0);
            } else {
                assert(chunk.last() == NEWLINE);
                assert(step.1 is Some);
                assert(fed.2[k] == frames_of(step.1)[k - before.2.len()]);
                let s = decode_spec(line)->Ok_0;
                assert(decode_spec(line) is Ok);
                assert(fed.2[k] == step.1->Some_0);
                assert(routes.contains_key(s.input_id) && fed.2[k] == encode_spec(
                    bridge_event(routes[s.input_id], s.value),
                )->Ok_0);
            }
        }
    }
}

impl SerialBridge {
    /// The routing table of the session.
    pub closed spec fn routes(&self) -> Map<u8, u8> {
        self.routes@
    }

    /// Bytes received since the last newline.
    pub closed spec fn pending(&self) -> Seq<u8> {
        self.pending@
    }

    /// The last value observed for each input.
    pub closed spec fn observed(&self) -> Map<u8, u8> {
        self.observed@
    }

    /// The bridge's place in its life.
    pub closed spec fn state(&self) -> BridgeStatus {
        self.status
    }

    /// A bridge that has seen nothing yet and waits for its session to start.
    pub fn new(routes: Faders) -> (r: SerialBridge)
        ensures
            r.routes() == routes@,
            r.state() == BridgeStatus::Idle,
            r.pending() == Seq::<u8>::empty(),
            r.observed() == Map::<u8, u8>::empty(),
    {
        SerialBridge {
            routes,
            status: BridgeStatus::Idle,
            pending: Vec::new(),
            observed: HashMap::new(),
        }
    }

    /// Starts reading once the serial device and the MIDI output are both there: an idle
    /// bridge starts reading; any other is left as it is.
    pub fn start(&mut self)
        ensures
            final(self).state() == (if old(self).state() == BridgeStatus::Idle {
                BridgeStatus::Reading
            } else {
                old(self).state()
            }),
            final(self).routes() == old(self).routes(),
            final(self).pending() == old(self).pending(),
            final(self).observed() == old(self).observed(),
    {
        if self.status == BridgeStatus::Idle {
            self.status = BridgeStatus::Reading;
        }
    }

    /// Where the bridge is in its life.
    pub fn status(&self) -> (r: BridgeStatus)
        ensures
            r == self.state(),
    {
        self.status
    }

    /// The last value observed for the input, if any.
    pub fn observed_value(&self, input: u8) -> (r: Option<u8>)
        ensures
            r == (if self.observed().contains_key(input) {
                Some(self.observed()[input])
            } else {
                None
            }),
    {
        match self.observed.get(&input) {
            Some(v) => Some(*v),
            None => None,
        }
    }

    /// Processes one decoded sample: change detection, then routing and encoding.
    /// Returns the frame to send, if any.
    pub fn accept_sample(&mut self, s: Sample) -> (frame: Option<Vec<u8>>)
        ensures
            final(self).observed() == sample_step(old(self).observed(), old(self).routes(), s).0,
            match frame {
                Some(f) => sample_step(old(self).observed(), old(self).routes(), s).1 == Some(
                    f@,
                ),
                None => sample_step(old(self).observed(), old(self).routes(), s).1 is None,
            },
            final(self).routes() == old(self).routes(),
            final(self).pending() == old(self).pending(),
            final(self).state() == old(self).state(),
    {
        let unchanged = match self.observed.get(&s.input_id) {
            Some(v) => *v == s.value,
            None => false,
        };
        if unchanged {
            return None;
        }
        self.observed.insert(s.input_id, s.value);
        match self.routes.lookup(s.input_id) {
            None => None,
            Some(controller) => match encode(
                MidiEvent::ControlChange { channel: BRIDGE_CHANNEL, controller, value: s.value },
            ) {
                Ok(frame) => Some(frame),
                Err(_) => None,
            },
        }
    }

    /// Bytes read from the serial device. While reading, each completed line is decoded
    /// and processed; the frames to send come back in order. In any other state the bytes
    /// are ignored.
    pub fn on_data(&mut self, chunk: &[u8]) -> (frames: Vec<Vec<u8>>)
        ensures
            final(self).routes() == old(self).routes(),
            final(self).state() == old(self).state(),
            old(self).state() == BridgeStatus::Reading ==> {
                let fed = feed_spec(
                    old(self).pending(),
                    old(self).observed(),
                    old(self).routes(),
                    chunk@,
                );
                &&& final(self).pending() == fed.0
                &&& final(self).observed() == fed.1
                &&& frames@.map_values(|f: Vec<u8>| f@) == fed.2
            },
            old(self).state() != BridgeStatus::Reading ==> {
                &&& final(self).pending() == old(self).pending()
                &&& final(self).observed() == old(self).observed()
                &&& frames@.len() == 0
            },
    {
        let mut frames: Vec<Vec<u8>> = Vec::new();
        if self.status != BridgeStatus::Reading {
            return frames;
        }
        let ghost p0 = self.pending@;
        let ghost o0 = self.observed@;
        let ghost routes = self.routes@;
        let mut i: usize = 0;
        while i < chunk.len()
            invariant
                0 <= i <= chunk@.len(),
                self.routes@ == routes,
                self.status == BridgeStatus::Reading,
                ({
                    let fed = feed_spec(p0, o0, routes, chunk@.subrange(0, i as int));
                    &&& self.pending@ == fed.0
                    &&& self.observed@ == fed.1
                    &&& frames@.map_values(|f: Vec<u8>| f@) == fed.2
                }),
            decreases chunk@.len() - i,
        {
            let b = chunk[i];
            let ghost part = chunk@.subrange(0, i + 1);
            assert(part.drop_last() =~= chunk@.subrange(0, i as int));
            assert(part.last() == b);
            self.pending.push(b);
            if b == NEWLINE {
                let decoded = decode_bytes(self.pending.as_slice());
                self.pending = Vec::new();
                let ghost before = frames@.map_values(|f: Vec<u8>| f@);
                if let Ok(s) = decoded {
                    if let Some(f) = self.accept_sample(s) {
                        frames.push(f);
                        assert(frames@.map_values(|f: Vec<u8>| f@) =~= before + seq![f@]);
                    } else {
                        assert(frames@.map_values(|f: Vec<u8>| f@) =~= before + Seq::empty());
                    }
                } else {
                    assert(frames@.map_values(|f: Vec<u8>| f@) =~= before + Seq::empty());
                }
            }
            i = i + 1;
        }
        assert(chunk@.subrange(0, i as int) =~= chunk@);
        frames
    }

    /// A read that timed out. While reading, a pending cancellation stops the bridge;
    /// otherwise nothing changes.
    pub fn on_timeout(&mut self, cancel_requested: bool)
        ensures
            final(self).state() == (if old(self).state() == BridgeStatus::Reading
                && cancel_requested {
                BridgeStatus::Stopped(StopReason::Cancelled)
            } else {
                old(self).state()
            }),
            final(self).routes() == old(self).routes(),
            final(self).pending() == old(self).pending(),
            final(self).observed() == old(self).observed(),
    {
        if self.status == BridgeStatus::Reading && cancel_requested {
            self.status = BridgeStatus::Stopped(StopReason::Cancelled);
        }
    }

    /// A read that failed other than by a timeout: a reading bridge stops, and does not
    /// reconnect.
    pub fn on_read_error(&mut self)
        ensures
            final(self).state() == (if old(self).state() == BridgeStatus::Reading {
                BridgeStatus::Stopped(StopReason::SerialLost)
            } else {
                old(self).state()
            }),
            final(self).routes() == old(self).routes(),
            final(self).pending() == old(self).pending(),
            final(self).observed() == old(self).observed(),
    {
        if self.status == BridgeStatus::Reading {
            self.status = BridgeStatus::Stopped(StopReason::SerialLost);
        }
    }

    /// The MIDI output reported that it is disconnected: a reading bridge stops.
    pub fn on_sink_lost(&mut self)
        ensures
            final(self).state() == (if old(self).state() == BridgeStatus::Reading {
                BridgeStatus::Stopped(StopReason::SinkLost)
            } else {
                old(self).state()
            }),
            final(self).routes() == old(self).routes(),
            final(self).pending() == old(self).pending(),
            final(self).observed() == old(self).observed(),
    {
        if self.status == BridgeStatus::Reading {
            self.status = BridgeStatus::Stopped(StopReason::SinkLost);
        }
    }
}

} // verus!

use vstd::prelude::*;
use vstd::string::StringSliceAdditionalSpecFns;
use crate::types::{Message, Packet};
use crate::uart_protocol::{decode_line, decode_packet, DecodeError};

verus! {

/// The latest published reading: the sequence number and the eight counts of
/// one decoded frame, always together.
#[derive(Debug, Clone, Copy, PartialEq, Eq)]
pub struct Snapshot {
    pub sequence: u32,
    pub counts: [i32; 8],
}

/// Model of the background reader: the published snapshot and whether the
/// reader still runs.
pub ghost struct ReaderState {
    pub sequence: u32,
    pub counts: Seq<i32>,
    pub running: bool,
}

/// What the background reader observes from the transport.
pub ghost enum ReaderEvent {
    /// A line was read.
    Line(Seq<u8>),
    /// The read timed out with no data.
    Timeout,
    /// End of stream or a hard I/O error.
    Disconnect,
}

/// What the reader did with a line.
#[derive(Debug, Clone, Copy, PartialEq, Eq, Structural)]
pub enum LineOutcome {
    /// The line held sensor data, now published.
    Published,
    /// The line held a valid message of another kind; nothing was published.
    Ignored,
    /// The line was not a valid frame and was discarded.
    Rejected(DecodeError),
    /// The reader had stopped; the line was not looked at.
    Stopped,
}

/// The state before any frame was read.
pub open spec fn initial_state() -> ReaderState {
    ReaderState { sequence: 0, counts: Seq::new(8, |i: int| 0i32), running: true }
}

/// The state after one event.
pub open spec fn next_state(s: ReaderState, e: ReaderEvent) -> ReaderState {
    if !s.running {
        s
    } else {
        match e {
            ReaderEvent::Line(line) => match decode_line(line) {
                Ok(Message::SensorData { seq, encoders }) => ReaderState {
                    sequence: seq,
                    counts: encoders,
                    running: true,
                },
                _ => s,
            },
            ReaderEvent::Timeout => s,
            ReaderEvent::Disconnect => ReaderState { running: false, ..s },
        }
    }
}

/// The state after a series of events, in order.
pub open spec fn run_events(s: ReaderState, events: Seq<ReaderEvent>) -> ReaderState
    decreases events.len(),
{
    if events.len() == 0 {
        s
    } else {
        run_events(next_state(s, events[0]), events.drop_first())
    }
}

/// The decision core of the background reader: it consumes transport events
/// and keeps the latest published snapshot.
pub struct ReaderCore {
    snapshot: Snapshot,
    running: bool,
}

impl View for ReaderCore {
    type V = ReaderState;

    closed spec fn view(&self) -> ReaderState {
        ReaderState {
            sequence: self.snapshot.sequence,
            counts: self.snapshot.counts@,
            running: self.running,
        }
    }
}

impl ReaderCore {
    /// A running reader with the zero snapshot.
    pub fn new() -> (r: Self)
        ensures
            r@ == initial_state(),
    {
        let r = ReaderCore { snapshot: Snapshot { sequence: 0, counts: [0i32; 8] }, running: true };
        assert(r@.counts == initial_state().counts);
        r
    }

    /// Handles one line read from the transport: sensor data is published
    /// whole, anything else leaves the snapshot as it was.
    pub fn on_line(&mut self, line: &str) -> (r: LineOutcome)
        ensures
            final(self)@ == next_state(old(self)@, ReaderEvent::Line(line.spec_bytes())),
            !old(self)@.running ==> r == LineOutcome::Stopped,
            old(self)@.running ==> match decode_line(line.spec_bytes()) {
                Ok(Message::SensorData { .. }) => r == LineOutcome::Published,
                Ok(_) => r == LineOutcome::Ignored,
                Err(e) => r == LineOutcome::Rejected(e),
            },
    {
        if !self.running {
            return LineOutcome::Stopped;
        }
        match decode_packet(line) {
            Ok(Packet::SensorData(d)) => {
                self.snapshot = Snapshot { sequence: d.seq, counts: d.encoders };
                LineOutcome::Published
            },
            Ok(_) => LineOutcome::Ignored,
            Err(e) => LineOutcome::Rejected(e),
        }
    }

    /// A read that timed out: an idle tick, nothing changes.
    pub fn on_timeout(&mut self)
        ensures
            final(self)@ == next_state(old(self)@, ReaderEvent::Timeout),
    {
    }

    /// End of stream or a hard I/O error: the reader stops for good and the
    /// last snapshot stays published.
    pub fn on_disconnect(&mut self)
        ensures
            final(self)@ == next_state(old(self)@, ReaderEvent::Disconnect),
    {
        self.running = false;
    }

    /// Whether the reader should keep reading.
    pub fn is_running(&self) -> (r: bool)
        ensures
            r == self@.running,
    {
        self.running
    }

    /// The published snapshot.
    pub fn snapshot(&self) -> (r: Snapshot)
        ensures
            r.sequence == self@.sequence,
            r.counts@ == self@.counts,
    {
        self.snapshot
    }

    /// The sequence number of the published snapshot.
    pub fn get_sequence(&self) -> (r: u32)
        ensures
            r == self@.sequence,
    {
        self.snapshot.sequence
    }

    /// The counts of the published snapshot.
    pub fn get_counts(&self) -> (r: [i32; 8])
        ensures
            r@ == self@.counts,
    {
        self.snapshot.counts
    }
}

/// Extracts the sequence number and the eight counts of a sensor data frame;
/// `None` for a malformed frame or a message of another kind.
pub fn parse_line(line: &str) -> (r: Option<(u32, [i32; 8])>)
    ensures
        match r {
            Some((seq, counts)) => decode_line(line.spec_bytes()) == Ok::<Message, DecodeError>(
                Message::SensorData { seq, encoders: counts@ },
            ),
            None => !(decode_line(line.spec_bytes()) matches Ok(Message::SensorData { .. })),
        },
{
    match decode_packet(line) {
        Ok(Packet::SensorData(d)) => Some((d.seq, d.encoders)),
        _ => None,
    }
}


/// Reading the same line twice leaves the reader in the same state as reading
/// it once: a snapshot published again is the snapshot already published.
pub proof fn lemma_republish_idempotent(s: ReaderState, line: Seq<u8>)
    ensures
        next_state(next_state(s, ReaderEvent::Line(line)), ReaderEvent::Line(line)) == next_state(
            s,
            ReaderEvent::Line(line),
        ),
{
}

/// After a disconnect the reader is stopped and, whatever is observed later,
/// keeps the snapshot that was published last.
pub proof fn lemma_disconnect_freezes(s: ReaderState, events: Seq<ReaderEvent>)
    ensures
        run_events(next_state(s, ReaderEvent::Disconnect), events) == (ReaderState {
            running: false,
            ..s
        }),
    decreases events.len(),
{
    if events.len() > 0 {
        lemma_disconnect_freezes(s, events.drop_first());
    }
}

/// A malformed line between two valid sensor frames is discarded: the first
/// frame stays published across it, and the second is published after it.
pub proof fn lemma_bad_line_skipped(
    s: ReaderState,
    first: Seq<u8>,
    bad: Seq<u8>,
    second: Seq<u8>,
)
    requires
        s.running,
        decode_line(first) matches Ok(Message::SensorData { .. }),
        decode_line(bad) is Err,
        decode_line(second) matches Ok(Message::SensorData { .. }),
    ensures
        run_events(s, seq![ReaderEvent::Line(first), ReaderEvent::Line(bad)]) == next_state(
            s,
            ReaderEvent::Line(first),
        ),
        run_events(
            s,
            seq![ReaderEvent::Line(first), ReaderEvent::Line(bad), ReaderEvent::Line(second)],
        ) == (ReaderState {
            sequence: decode_line(second)->Ok_0->SensorData_seq,
            counts: decode_line(second)->Ok_0->SensorData_encoders,
            running: true,
        }),
{
    reveal_with_fuel(run_events, 4);
    let e2 = seq![ReaderEvent::Line(first), ReaderEvent::Line(bad)];
    let e3 = seq![ReaderEvent::Line(first), ReaderEvent::Line(bad), ReaderEvent::Line(second)];
    assert(e2.drop_first() == seq![ReaderEvent::Line(bad)]);
    assert(e2.drop_first().drop_first() == Seq::<ReaderEvent>::empty());
    assert(e3.drop_first() == seq![ReaderEvent::Line(bad), ReaderEvent::Line(second)]);
    assert(e3.drop_first().drop_first() == seq![ReaderEvent::Line(second)]);
    assert(e3.drop_first().drop_first().drop_first() == Seq::<ReaderEvent>::empty());
}

} // verus!

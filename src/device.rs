use vstd::prelude::*;
use crate::types::{Message, Packet, SensorDataPacket, BUFFER_SIZE};
use crate::uart_protocol::{frame_bytes, frame_of, serialize_packet};

verus! {

/// Sampling sweeps discarded after start-up while the quadrature history of
/// each axis settles.
pub const PRIMING_SWEEPS: u8 = 4;

/// Rotation of one axis seen in one sampling sweep.
#[derive(Debug, Clone, Copy, PartialEq, Eq, Structural)]
pub enum Direction {
    Clockwise,
    Anticlockwise,
    Stationary,
}

/// Change of the count for a rotation.
pub open spec fn delta(d: Direction) -> int {
    match d {
        Direction::Clockwise => 1,
        Direction::Anticlockwise => -1,
        Direction::Stationary => 0,
    }
}

/// `v` wrapped into the range of `i32`.
pub open spec fn wrap_i32(v: int) -> i32 {
    if v > i32::MAX {
        (v - 0x1_0000_0000) as i32
    } else if v < i32::MIN {
        (v + 0x1_0000_0000) as i32
    } else {
        v as i32
    }
}

/// `count` moved one tick in direction `d`, wrapping at the ends of `i32`.
pub fn step_count(count: i32, d: Direction) -> (r: i32)
    ensures
        r == wrap_i32(count + delta(d)),
{
    match d {
        Direction::Clockwise => if count == i32::MAX {
            i32::MIN
        } else {
            count + 1
        },
        Direction::Anticlockwise => if count == i32::MIN {
            i32::MAX
        } else {
            count - 1
        },
        Direction::Stationary => count,
    }
}

/// Accumulated counts of the eight axes, fed one sampling sweep at a time.
pub struct Accumulator {
    counts: [i32; 8],
    priming_left: u8,
}

/// Model of an [`Accumulator`].
pub ghost struct AccumulatorState {
    pub counts: Seq<i32>,
    pub priming_left: u8,
}

impl View for Accumulator {
    type V = AccumulatorState;

    closed spec fn view(&self) -> AccumulatorState {
        AccumulatorState { counts: self.counts@, priming_left: self.priming_left }
    }
}

impl Accumulator {
    /// All counts zero, with the priming sweeps still to come.
    pub fn new() -> (r: Self)
        ensures
            r@.counts == Seq::new(8, |i: int| 0i32),
            r@.priming_left == PRIMING_SWEEPS,
    {
        let r = Accumulator { counts: [0i32; 8], priming_left: PRIMING_SWEEPS };
        assert(r@.counts == Seq::new(8, |i: int| 0i32));
        r
    }

    /// Takes one sweep of directions, one per axis. During priming the sweep
    /// is discarded; afterwards each axis moves by its direction.
    pub fn on_sweep(&mut self, dirs: &[Direction; 8])
        ensures
            old(self)@.priming_left > 0 ==> final(self)@ == (AccumulatorState {
                counts: old(self)@.counts,
                priming_left: (old(self)@.priming_left - 1) as u8,
            }),
            old(self)@.priming_left == 0 ==> final(self)@ == (AccumulatorState {
                counts: Seq::new(8, |i: int| wrap_i32(old(self)@.counts[i] + delta(dirs@[i]))),
                priming_left: 0,
            }),
    {
        if self.priming_left > 0 {
            self.priming_left = self.priming_left - 1;
            return;
        }
        let mut i: usize = 0;
        while i < 8
            invariant
                i <= 8,
                self.priming_left == 0,
                self.counts@.len() == 8,
                forall|j: int|
                    0 <= j < i ==> self.counts@[j] == wrap_i32(
                        old(self).counts@[j] + delta(dirs@[j]),
                    ),
                forall|j: int| i <= j < 8 ==> self.counts@[j] == old(self).counts@[j],
            decreases 8 - i,
        {
            let c = step_count(self.counts[i], dirs[i]);
            self.counts[i] = c;
            i = i + 1;
        }
        assert(self.counts@ == Seq::new(
            8,
            |i: int| wrap_i32(old(self)@.counts[i] + delta(dirs@[i])),
        ));
    }

    /// The current counts.
    pub fn counts(&self) -> (r: [i32; 8])
        ensures
            r@ == self@.counts,
    {
        self.counts
    }
}

/// The transmit side: numbers the frames it sends.
pub struct Telemetry {
    sequence: u32,
}

impl View for Telemetry {
    type V = u32;

    closed spec fn view(&self) -> u32 {
        self.sequence
    }
}

impl Telemetry {
    /// The first frame gets sequence number 0.
    pub fn new() -> (r: Self)
        ensures
            r@ == 0,
    {
        Telemetry { sequence: 0 }
    }

    /// The frame for one tick: sensor data with the current sequence number
    /// and the given counts. The sequence number then advances by one,
    /// wrapping to 0 after `u32::MAX`.
    pub fn next_frame(&mut self, counts: [i32; 8]) -> (r: heapless::String<BUFFER_SIZE>)
        ensures
            frame_bytes(r) == frame_of(Message::SensorData { seq: old(self)@, encoders: counts@ }),
            final(self)@ == if old(self)@ == u32::MAX { 0 } else { (old(self)@ + 1) as u32 },
    {
        let packet = Packet::SensorData(SensorDataPacket { seq: self.sequence, encoders: counts });
        let frame = serialize_packet(&packet);
        self.sequence = if self.sequence == u32::MAX { 0 } else { self.sequence + 1 };
        frame
    }
}

} // verus!

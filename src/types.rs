use vstd::prelude::*;

verus! {

/// Number of rotary encoders carried by every sensor packet.
pub const MAX_ENCODERS: usize = 8;

/// Capacity in bytes of an encoded frame.
pub const BUFFER_SIZE: usize = 128;

/// Encoder id that a reset command uses to mean "every axis".
pub const RESET_ALL_ID: u8 = 255;

/// A reading of all encoder values.
#[derive(Debug, Clone, Copy, PartialEq, Eq)]
pub struct SensorDataPacket {
    /// Wrapping per-packet counter assigned by the device.
    pub seq: u32,
    /// Accumulated signed tick count of each axis.
    pub encoders: [i32; 8],
}

/// Command to reset one encoder, or all of them.
#[derive(Debug, Clone, Copy, PartialEq, Eq)]
pub struct ResetCommand {
    /// Target encoder id (0 to 7), or 255 for all.
    pub encoder_id: u8,
}

/// A protocol message.
#[derive(Debug, Clone, Copy, PartialEq, Eq)]
pub enum Packet {
    /// Periodic broadcast of the sensor counts.
    SensorData(SensorDataPacket),
    /// Request to reset counters.
    Reset(ResetCommand),
    /// Diagnostic ping.
    Ping { timestamp: u32 },
    /// Diagnostic pong.
    Pong { timestamp: u32 },
}

/// Mathematical model of a [`Packet`], with the encoder counts as a sequence.
pub ghost enum Message {
    SensorData { seq: u32, encoders: Seq<i32> },
    Reset { encoder_id: u8 },
    Ping { timestamp: u32 },
    Pong { timestamp: u32 },
}

impl View for Packet {
    type V = Message;

    open spec fn view(&self) -> Message {
        match *self {
            Packet::SensorData(d) => Message::SensorData { seq: d.seq, encoders: d.encoders@ },
            Packet::Reset(c) => Message::Reset { encoder_id: c.encoder_id },
            Packet::Ping { timestamp } => Message::Ping { timestamp },
            Packet::Pong { timestamp } => Message::Pong { timestamp },
        }
    }
}

/// Sum of the absolute values of the first `n` entries.
pub open spec fn sum_abs(e: Seq<i32>, n: nat) -> int
    decreases n,
{
    if n == 0 {
        0
    } else {
        let v = e[n - 1] as int;
        sum_abs(e, (n - 1) as nat) + (if v < 0 { -v } else { v })
    }
}

proof fn lemma_sum_abs_monotone(e: Seq<i32>, i: nat, j: nat)
    requires
        i <= j,
    ensures
        sum_abs(e, i) <= sum_abs(e, j),
    decreases j,
{
    if i < j {
        lemma_sum_abs_monotone(e, i, (j - 1) as nat);
    }
}

impl SensorDataPacket {
    pub fn new(seq: u32, encoders: [i32; 8]) -> (r: Self)
        ensures
            r.seq == seq,
            r.encoders == encoders,
    {
        Self { seq, encoders }
    }

    /// Sum of the absolute values of all axes. The caller ensures that the sum
    /// fits in an `i32`.
    pub fn total_movement(&self) -> (r: i32)
        requires
            sum_abs(self.encoders@, 8) <= i32::MAX,
        ensures
            r as int == sum_abs(self.encoders@, 8),
    {
        let mut total: i32 = 0;
        let mut i: usize = 0;
        while i < 8
            invariant
                i <= 8,
                total as int == sum_abs(self.encoders@, i as nat),
                sum_abs(self.encoders@, 8) <= i32::MAX,
            decreases 8 - i,
        {
            proof {
                lemma_sum_abs_monotone(self.encoders@, (i + 1) as nat, 8);
                lemma_sum_abs_monotone(self.encoders@, 0, i as nat);
            }
            let v = self.encoders[i];
            let a: i32 = if v < 0 { -v } else { v };
            total = total + a;
            i = i + 1;
        }
        total
    }

    /// Whether any axis differs from the same axis of `previous`.
    pub fn has_movement(&self, previous: &SensorDataPacket) -> (r: bool)
        ensures
            r == exists|i: int| 0 <= i < 8 && self.encoders@[i] != previous.encoders@[i],
    {
        let mut i: usize = 0;
        while i < 8
            invariant
                i <= 8,
                forall|j: int| 0 <= j < i ==> self.encoders@[j] == previous.encoders@[j],
            decreases 8 - i,
        {
            if self.encoders[i] != previous.encoders[i] {
                return true;
            }
            i = i + 1;
        }
        false
    }
}

impl ResetCommand {
    pub fn single(encoder_id: u8) -> (r: Self)
        ensures
            r.encoder_id == encoder_id,
    {
        Self { encoder_id }
    }

    pub fn all() -> (r: Self)
        ensures
            r.encoder_id == RESET_ALL_ID,
    {
        Self { encoder_id: RESET_ALL_ID }
    }

    pub fn resets_all(&self) -> (r: bool)
        ensures
            r == (self.encoder_id == RESET_ALL_ID),
    {
        self.encoder_id == RESET_ALL_ID
    }
}

} // verus!

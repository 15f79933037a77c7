//! Wire protocol and host-side decoding core for streaming the counts of eight
//! rotary encoders over a serial line.

pub mod client;
pub mod device;
pub mod types;
pub mod uart_protocol;

pub use client::{parse_line, LineOutcome, ReaderCore, Snapshot};
pub use device::{Accumulator, Direction, Telemetry};
pub use types::{Packet, ResetCommand, SensorDataPacket, BUFFER_SIZE, MAX_ENCODERS};
pub use uart_protocol::{
    compute_checksum, create_reset_packet, create_sensor_packet, decode_packet, serialize_packet,
    DecodeError,
};

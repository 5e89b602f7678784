//! An embeddable in-memory time-series storage engine.
//!
//! Samples are compressed with delta-of-delta timestamp coding and XOR-based
//! value coding into bit-packed blocks, grouped into fixed-duration
//! partitions per named series.

use vstd::prelude::*;

pub mod bits;
pub mod bitstream;
pub mod block;
pub mod codec;
pub mod date_time;
pub mod decode;
pub mod encode;
pub mod engine;
pub mod series;
pub mod shared_lock;

pub use block::{time_align, AppendOnlyBlock, ClosedBlock};
pub use date_time::{now_timestamp_secs, timestamp_secs_to_string, timestamp_to_interval_str,
    u64_to_string};
pub use decode::Decoder;
pub use encode::Encoder;
pub use engine::{BTreeEngine, Raw};
pub use series::TS;
pub use shared_lock::{new_shared_rw_lock, new_shared_rw_lock_vec, SharedRwLock, SharedRwLockVec};

verus! {

/// A single observation: a timestamp in seconds and a 64-bit value pattern.
///
/// The value is carried as the raw bit pattern of an IEEE-754 double; the
/// codec compresses bit patterns, so callers hand in `f64::to_bits` of their
/// measurement and read `f64::from_bits` back.
#[derive(Debug, Clone, Copy, PartialEq, Eq, Structural)]
pub struct Sample {
    pub time: u64,
    pub value: u64,
}

impl Sample {
    /// Create a new sample from a time and a value bit pattern.
    pub fn new(time: u64, value: u64) -> (s: Sample)
        ensures
            s.time == time,
            s.value == value,
    {
        Sample { time, value }
    }
}

/// An enum used to represent a single bit, can be either `Zero` or `One`.
#[derive(Debug, Clone, Copy, PartialEq, Eq, Structural)]
pub enum Bit {
    Zero,
    One,
}

impl Bit {
    /// Convert a bit to u64, so `Zero` becomes 0 and `One` becomes 1.
    pub fn to_u64(&self) -> (r: u64)
        ensures
            r == if self is One { 1u64 } else { 0u64 },
    {
        match self {
            Bit::Zero => 0,
            Bit::One => 1,
        }
    }

    /// The boolean this bit stands for.
    pub open spec fn spec_bool(self) -> bool {
        self is One
    }

    /// Convert a bit to the boolean it stands for.
    pub fn to_bool(&self) -> (b: bool)
        ensures
            b == self.spec_bool(),
    {
        match self {
            Bit::Zero => false,
            Bit::One => true,
        }
    }

    /// The bit standing for a boolean.
    pub fn from_bool(b: bool) -> (r: Bit)
        ensures
            r.spec_bool() == b,
    {
        if b {
            Bit::One
        } else {
            Bit::Zero
        }
    }
}

/// A decoding failure.
///
/// `StreamExhausted` is the expected end-of-block signal; `StreamCorrupted`
/// is reachable only on input no encoder produced.
#[derive(Debug, Clone, Copy, PartialEq, Eq, Structural)]
pub enum CodecError {
    StreamExhausted,
    StreamCorrupted,
}

} // verus!

//! Run an audio chain from a device callback: the ring that carries live
//! input from one callback to the other, the cutting of device buffers into
//! blocks, and the checks and choices made before a device is opened.
//!
//! Samples travel as the bit patterns of their `f32` values (`u32`), so
//! nothing decided here depends on floating-point arithmetic; the caller
//! converts at its edges with `f32::to_bits` and `f32::from_bits`.
pub mod devices;
pub mod error;
pub mod frames;
pub mod ring;
pub mod stream;

pub use devices::{describe, describe_all, DeviceInfo, Devices, Listed};
pub use error::{Direction, Error};
pub use frames::{Blocks, Fold};
pub use ring::Ring;
pub use stream::{
    find, pick, primed_ring, BufferRange, BufferSize, Candidate, Choice, Config, ConfigRange,
    InputChannel, StreamSetup, MAX_BLOCK, RING_BLOCKS,
};

//! Client-side encoding for an addressable LED strip that is driven over a
//! datagram link.
//!
//! A frame is a sequence of colours, one per LED. Each colour channel is an
//! intensity in IEEE 754 binary32 format, held as its 32-bit encoding. The
//! library clamps every channel to the unit interval, quantises it to a byte
//! and lays the bytes out as the strip expects them. Sending the resulting
//! datagram is left to the caller.

pub mod binary32;
pub mod channel;
pub mod color;
pub mod device;
pub mod error;
pub mod rounding;

pub use crate::color::Color;
pub use crate::device::LEDDevice;
pub use crate::error::LEDError;

//! Hides a text payload in the least-significant bits of an image's colour
//! channels and recovers it again.
//!
//! The payload is framed as a 32-bit big-endian byte length followed by the
//! bytes themselves; every byte is spread over eight bits, most significant
//! first, and each bit lands in the low bit of one red, green or blue channel,
//! walking the pixels in row-major order.
pub mod bits;
pub mod capacity;
pub mod grid;
pub mod steganography;

pub use capacity::StegoError;
pub use grid::PixelGrid;
pub use steganography::{decode, encode};

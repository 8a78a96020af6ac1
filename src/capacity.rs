//! How many bits an image can carry, and whether a payload fits.
use vstd::prelude::*;

verus! {

/// Why encoding or decoding could not be done.
#[derive(Debug, Clone, Copy, PartialEq, Eq, Structural)]
pub enum StegoError {
    /// The payload needs more bits than the image's channels provide.
    CapacityExceeded { required: u64, available: u64 },
    /// The image ended before the length prefix or the payload it announces.
    TruncatedStream,
    /// The recovered bytes are not UTF-8 text.
    MalformedText,
}

/// Bits needed for a payload of `len` bytes: its 4-byte length prefix and its bytes.
pub open spec fn required_bits(len: nat) -> nat {
    (4 + len) * 8
}

/// Bits a `width` by `height` image can carry: one per red, green and blue channel.
pub open spec fn capacity_bits(width: nat, height: nat) -> nat {
    width * height * 3
}

/// The outcome of planning a payload of `len` bytes into such an image.
pub open spec fn plan_result(width: nat, height: nat, len: nat) -> Result<u64, StegoError> {
    if capacity_bits(width, height) >= required_bits(len) {
        Ok(required_bits(len) as u64)
    } else {
        Err(
            StegoError::CapacityExceeded {
                required: required_bits(len) as u64,
                available: capacity_bits(width, height) as u64,
            },
        )
    }
}

/// Checks that a payload of `payload_byte_len` bytes fits a `width` by
/// `height` image, and gives the number of bits it takes.
pub fn plan(width: u32, height: u32, payload_byte_len: usize) -> (r: Result<u64, StegoError>)
    requires
        payload_byte_len <= u32::MAX,
    ensures
        r == plan_result(width as nat, height as nat, payload_byte_len as nat),
{
    let required: u64 = (4 + payload_byte_len as u64) * 8;
    proof {
        let w = width as nat;
        let h = height as nat;
        assert(w * h <= 0xffff_ffff * 0xffff_ffff) by (nonlinear_arith)
            requires
                w <= 0xffff_ffff,
                h <= 0xffff_ffff,
        ;
    }
    let pixels: u128 = (width as u128) * (height as u128);
    let capacity: u128 = pixels * 3;
    if capacity >= required as u128 {
        Ok(required)
    } else {
        Err(StegoError::CapacityExceeded { required, available: capacity as u64 })
    }
}

} // verus!

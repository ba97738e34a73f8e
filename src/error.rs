//! The ways an encode or decode call can fail.

use vstd::prelude::*;

verus! {

/// Why an encode or decode call failed. Every check is made before any sample
/// is changed.
#[derive(Debug, Clone, Copy, PartialEq, Eq, Structural)]
pub enum StegError {
    /// The image is narrower or lower than one 8×8 block.
    ImageTooSmall,
    /// The message has more bits than the image has (block, channel) slots.
    CapacityExceeded,
    /// Decoding asked for more bits than the image has (block, channel) slots.
    TruncatedPayload,
}

} // verus!

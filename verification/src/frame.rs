//! The value types of the transport layer: one link-layer frame, and the
//! identifier filter that decides subscription membership.

use vstd::prelude::*;

verus! {

/// The number of payload bytes one frame can carry.
pub const MAX_PAYLOAD: usize = 8;

/// The largest 29-bit frame identifier.
pub const MAX_IDENTIFIER: u32 = 0x1FFF_FFFF;

/// One link-layer frame: a 29-bit identifier, up to eight payload bytes (the
/// bytes past `payload_length` are irrelevant padding), and the marker that
/// closes a multi-frame transfer.
#[derive(Clone, Copy, Debug, PartialEq, Eq)]
pub struct Frame {
    pub identifier: u32,
    pub payload: [u8; 8],
    pub payload_length: u8,
    pub is_end_of_transfer: bool,
}

impl Frame {
    /// A frame is well formed when its identifier fits in 29 bits and it
    /// claims at most eight payload bytes.
    pub open spec fn wf(self) -> bool {
        self.identifier <= MAX_IDENTIFIER && self.payload_length <= MAX_PAYLOAD
    }

    pub fn new(
        identifier: u32,
        payload: [u8; 8],
        payload_length: u8,
        is_end_of_transfer: bool,
    ) -> (r: Frame)
        requires
            identifier <= MAX_IDENTIFIER,
            payload_length <= MAX_PAYLOAD,
        ensures
            r == (Frame { identifier, payload, payload_length, is_end_of_transfer }),
            r.wf(),
    {
        Frame { identifier, payload, payload_length, is_end_of_transfer }
    }
}

/// Which identifiers a subscription accepts: a frame matches when its
/// identifier agrees with `expected` on every bit set in `mask`. The pair is
/// fixed when the subscription is created and never mutated afterwards.
#[derive(Clone, Copy, Debug, PartialEq, Eq, Structural)]
pub struct IdentifierFilter {
    pub expected: u32,
    pub mask: u32,
}

impl IdentifierFilter {
    /// The masked-match predicate: identifier and `expected` agree on every
    /// bit set in `mask`.
    pub open spec fn spec_matches(self, identifier: u32) -> bool {
        identifier & self.mask == self.expected & self.mask
    }

    pub fn new(expected: u32, mask: u32) -> (r: IdentifierFilter)
        ensures
            r == (IdentifierFilter { expected, mask }),
    {
        IdentifierFilter { expected, mask }
    }

    /// Decide whether a frame with this identifier belongs to the
    /// subscription guarded by this filter.
    pub fn is_match(&self, identifier: u32) -> (r: bool)
        ensures
            r == self.spec_matches(identifier),
    {
        identifier & self.mask == self.expected & self.mask
    }
}

} // verus!

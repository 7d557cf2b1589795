//! Transport-layer buffering and subscription matching for a CAN receive
//! path: fixed-capacity frame buffers with a drop-oldest overflow policy, an
//! identifier-filter subscription registry, and the pump that fans incoming
//! frames out to every matching subscription.

pub mod buffer;
pub mod frame;
pub mod interface;

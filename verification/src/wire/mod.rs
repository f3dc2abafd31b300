//! What crosses a process boundary.

/// Method arguments and replies, as plain values.
pub mod types;
/// Failures on the wire.
pub mod error;
/// Length-prefixed framing.
pub mod frame;

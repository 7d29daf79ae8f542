//! A gap buffer: a contiguous byte sequence optimized for repeated insertions
//! and removals clustered near the same offset, the access pattern of an
//! interactive text editor. The storage is one growable allocation split into
//! an occupied head, an unused gap, and an occupied tail; the gap slides to
//! the edit point and absorbs writes without shifting unrelated bytes.

pub mod buffer;
pub mod laws;

pub use buffer::GapBuffer;
pub use buffer::InvalidRange;

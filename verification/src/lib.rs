//! Schema-driven decoding of protocol-buffer wire-format bytes.
//!
//! Message shape is discovered at runtime from a descriptor registry; the
//! decoder parses one wire-encoded message into field records whose byte and
//! string payloads are spans into the caller-owned input buffer (zero copy),
//! and a traversal layer resolves those records into visitor-ready values,
//! decoding nested messages lazily on access. A buffer pool recycles the
//! record vectors across decodes.

use vstd::prelude::*;

pub mod arraypool;
pub mod de;
pub mod laws;
pub mod visit;
pub mod descriptor;
pub mod error;
pub mod util;
pub mod value;
pub mod wire;

verus! {

/// A contiguous region of the caller's input buffer: `start..start + len`.
///
/// Byte, string and lazy-submessage payloads are kept as spans rather than
/// copied out, so every borrowed value stays inside the original buffer.
#[derive(Clone, Copy, PartialEq, Eq, Structural, Debug)]
pub struct Span {
    pub start: usize,
    pub len: usize,
}

impl Span {
    /// The span lies within the byte region `lo..hi`.
    pub open spec fn inside(self, lo: int, hi: int) -> bool {
        lo <= self.start && self.start + self.len <= hi
    }

    /// An empty span, used for synthesized empty-string and empty-bytes defaults.
    pub fn empty() -> (r: Span)
        ensures
            r.start == 0 && r.len == 0,
    {
        Span { start: 0, len: 0 }
    }
}

} // verus!

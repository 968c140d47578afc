//! Streaming LZW compression with a variable-width code stream.
//!
//! The encoder turns bytes into a sequence of bits, the decoder turns such a
//! sequence back into bytes. Both sides grow their dictionary in lockstep and
//! derive the width of every code from the number of codes seen so far.
use vstd::prelude::*;

pub mod util;
pub mod writer;
pub mod reader;

pub use writer::LZWWriter;
pub use reader::LZWReader;

verus! {

/// Why the encoder or the decoder stopped.
#[derive(Debug, Clone, Copy, PartialEq, Eq, Structural)]
pub enum LzwError {
    /// A code would need more bits than the width schedule can count.
    WidthScheduleExhausted,
    /// The code stream names a phrase the dictionary does not have, or ends
    /// in the middle of a code.
    MalformedStream,
}

} // verus!

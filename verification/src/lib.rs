//! A verified offline batch video compressor.
//!
//! Raw planar RGB24 video is reduced through a three-stage pipeline:
//! colour-space conversion with 4:2:0 chroma subsampling ([`color`]),
//! temporal delta coding against the previously decoded frame ([`delta`]),
//! and byte-oriented run-length encoding ([`rle`]).  The [`framer`] module
//! serializes a frame sequence into one header-less byte stream and recovers
//! the per-frame boundaries of such a stream purely from the externally known
//! decoded frame length; [`pipeline`] composes the whole encode and decode
//! paths behind validated dimensions.

use vstd::prelude::*;

pub mod color;
pub mod delta;
pub mod framer;
pub mod pipeline;
pub mod rle;

verus! {

/// A frame at any pipeline stage: a fixed-length ordered sequence of bytes.
pub type Frame = Vec<u8>;

/// The mathematical value of a video: the sequence of its frames' byte
/// sequences.
pub open spec fn video_view(frames: Seq<Frame>) -> Seq<Seq<u8>> {
    Seq::new(frames.len(), |i: int| frames[i]@)
}

/// Every failure of the pipeline, as an explicit typed result.
#[derive(Clone, Copy, Debug, PartialEq, Eq)]
pub enum CodecError {
    /// Width or height is odd or zero; rejected before any processing.
    InvalidDimensions,
    /// The decoded byte tally of a stream overshoots the frame length,
    /// never reaches it, or reaches it in the middle of a (count, value)
    /// pair.  `frame_index` is the frame being assembled when this was found.
    CorruptStream { frame_index: usize },
    /// A run-length-encoded block expands to a byte count that differs from
    /// the expected frame length.
    LengthMismatch,
}

} // verus!

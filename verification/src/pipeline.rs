//! The full batch pipeline: RGB video in, header-less encoded stream out,
//! and the mirror path back to YUV420 frames.
//!
//! Width and height are external configuration, never discovered from the
//! stream; both sides must agree on them.  They are validated here once,
//! before any processing: odd or zero dimensions are rejected with
//! `InvalidDimensions`.

use vstd::prelude::*;

use crate::CodecError;
use crate::Frame;
use crate::color::lemma_yuv_frame_len;
use crate::color::rgb_to_yuv;
use crate::color::valid_dims;
use crate::color::yuv_frame_spec;
use crate::framer::decode_stream;
use crate::framer::encode_stream;
use crate::framer::parse_stream;
use crate::framer::stream_spec;
use crate::video_view;

verus! {

/// The YUV420 conversion of a whole video.
pub open spec fn yuv_video(frames: Seq<Seq<u8>>, width: int, height: int) -> Seq<Seq<u8>> {
    Seq::new(frames.len(), |i: int| yuv_frame_spec(frames[i], width, height))
}

/// The decoded byte length of one YUV420 frame: `1.5 * width * height`,
/// written as the Y plane plus the two subsampled chroma planes.
pub open spec fn yuv_len(width: int, height: int) -> int {
    width * height + 2 * ((width / 2) * (height / 2))
}

/// The YUV-domain round trip for the whole pipeline: the stream that
/// encoding any RGB video produces parses back to exactly the YUV420
/// frames the encoder computed.  (RGB to YUV is lossy by design, so the
/// exact round trip is guaranteed from the YUV420 layer onward.)
pub proof fn lemma_pipeline_roundtrip(frames: Seq<Seq<u8>>, width: int, height: int)
    requires
        valid_dims(width, height),
    ensures
        parse_stream(stream_spec(yuv_video(frames, width, height)), yuv_len(width, height))
            == Some(yuv_video(frames, width, height)),
{
    let yuv = yuv_video(frames, width, height);
    let l = yuv_len(width, height);
    assert forall|t: int| 0 <= t < yuv.len() implies #[trigger] yuv[t].len() == l by {
        lemma_yuv_frame_len(frames[t], width, height);
    }
    assert(l >= 1) by {
        let a = width / 2;
        let b = height / 2;
        assert(width == 2 * a && height == 2 * b);
        assert((2 * a) * (2 * b) == 4 * (a * b)) by (nonlinear_arith);
        assert(a * b >= 1) by (nonlinear_arith)
            requires
                a >= 1,
                b >= 1,
        ;
    }
    crate::framer::lemma_stream_roundtrip(yuv, l);
}

/// Encode a raw RGB24 video: convert every frame to YUV420 with 4:2:0
/// subsampling, then serialize the result as one header-less stream with
/// frame 0 raw and every later frame delta- and run-length-coded.
pub fn encode_video(frames: &Vec<Frame>, width: usize, height: usize) -> (r: Result<
    Vec<u8>,
    CodecError,
>)
    requires
        valid_dims(width as int, height as int) ==> width * height * 3 <= usize::MAX && (forall|
            i: int,
        |
            0 <= i < frames@.len() ==> #[trigger] frames@[i]@.len() == 3 * width * height),
    ensures
        match r {
            Ok(s) => valid_dims(width as int, height as int) && s@ == stream_spec(
                yuv_video(video_view(frames@), width as int, height as int),
            ),
            Err(e) => !valid_dims(width as int, height as int) && e is InvalidDimensions,
        },
{
    if width == 0 || height == 0 || width % 2 != 0 || height % 2 != 0 {
        return Err(CodecError::InvalidDimensions);
    }
    let yuv = rgb_to_yuv(frames, width, height);
    let ghost wi = width as int;
    let ghost hi = height as int;
    proof {
        assert(wi * hi >= 4) by (nonlinear_arith)
            requires
                wi >= 2,
                hi >= 2,
        ;
        assert forall|i: int|
            0 <= i < yuv@.len() implies #[trigger] yuv@[i]@.len() == yuv@[0]@.len() && yuv@[i]@.len()
            >= 1 by {
            lemma_yuv_frame_len(frames@[i]@, wi, hi);
            lemma_yuv_frame_len(frames@[0]@, wi, hi);
        }
    }
    let s = encode_stream(&yuv);
    proof {
        assert(video_view(yuv@) =~= yuv_video(video_view(frames@), wi, hi));
    }
    Ok(s)
}

/// Decode a header-less stream back into YUV420 frames, given the same
/// width and height the encoder used.  Fails with `InvalidDimensions` on
/// odd or zero dimensions, and with `CorruptStream` exactly when the
/// stream is not the serialization of any frame sequence of the implied
/// frame length.
pub fn decode_video(stream: &Vec<u8>, width: usize, height: usize) -> (r: Result<
    Vec<Frame>,
    CodecError,
>)
    requires
        valid_dims(width as int, height as int) ==> width * height * 3 <= usize::MAX,
    ensures
        match r {
            Ok(frames) => valid_dims(width as int, height as int) && parse_stream(
                stream@,
                yuv_len(width as int, height as int),
            ) == Some(video_view(frames@)),
            Err(e) => {
                ||| (!valid_dims(width as int, height as int) && e is InvalidDimensions)
                ||| (valid_dims(width as int, height as int) && parse_stream(
                    stream@,
                    yuv_len(width as int, height as int),
                ) is None && e is CorruptStream)
            },
        },
{
    if width == 0 || height == 0 || width % 2 != 0 || height % 2 != 0 {
        return Err(CodecError::InvalidDimensions);
    }
    let ghost wi = width as int;
    let ghost hi = height as int;
    proof {
        assert(3 * (wi * hi) == wi * hi * 3) by (nonlinear_arith);
        let a = wi / 2;
        let b = hi / 2;
        assert(wi == 2 * a && hi == 2 * b);
        assert((2 * a) * (2 * b) == 4 * (a * b)) by (nonlinear_arith);
        assert(a * b >= 1) by (nonlinear_arith)
            requires
                a >= 1,
                b >= 1,
        ;
    }
    let size = width * height;
    let l = size + 2 * ((width / 2) * (height / 2));
    match decode_stream(stream, l) {
        Ok(frames) => Ok(frames),
        Err(e) => Err(e),
    }
}

} // verus!

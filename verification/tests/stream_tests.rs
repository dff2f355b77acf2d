use simple_video_encoder::framer::decode_stream;
use simple_video_encoder::framer::encode_stream;
use simple_video_encoder::framer::StreamDecoder;
use simple_video_encoder::pipeline::decode_video;
use simple_video_encoder::pipeline::encode_video;
use simple_video_encoder::CodecError;

#[test]
fn stream_roundtrip_yuv_domain() {
    // decoding the encoded stream reproduces the YUV frames byte for byte
    let frames = vec![
        vec![1u8, 2, 3, 4],
        vec![5u8, 6, 7, 8],
        vec![9u8, 0, 1, 2],
        vec![9u8, 0, 1, 2],
    ];
    let stream = encode_stream(&frames);
    assert_eq!(decode_stream(&stream, 4), Ok(frames));
}

#[test]
fn stream_first_frame_raw() {
    // the stream begins with frame 0's own bytes, untouched
    let frames = vec![vec![10u8, 20, 30, 40], vec![10u8, 20, 30, 41]];
    let stream = encode_stream(&frames);
    assert_eq!(stream[..4].to_vec(), vec![10, 20, 30, 40]);
    // frame 1 is delta- and run-length-coded: [0,0,0,1] -> (3,0),(1,1)
    assert_eq!(stream[4..].to_vec(), vec![3, 0, 1, 1]);
}

#[test]
fn stream_single_frame() {
    let frames = vec![vec![7u8, 8, 9]];
    let stream = encode_stream(&frames);
    assert_eq!(stream, vec![7, 8, 9]);
    assert_eq!(decode_stream(&stream, 3), Ok(frames));
}

#[test]
fn stream_empty_video() {
    let frames: Vec<Vec<u8>> = Vec::new();
    let stream = encode_stream(&frames);
    assert_eq!(stream, Vec::<u8>::new());
    assert_eq!(decode_stream(&stream, 5), Ok(Vec::new()));
}

#[test]
fn stream_truncated_final_byte_is_corrupt() {
    // truncating the final byte of an encoded stream must fail, never
    // yield a silently short or garbled frame
    let frames = vec![
        vec![1u8, 2, 3, 4],
        vec![5u8, 6, 7, 8],
        vec![9u8, 0, 1, 2],
    ];
    let mut stream = encode_stream(&frames);
    stream.pop();
    match decode_stream(&stream, 4) {
        Err(CodecError::CorruptStream { frame_index }) => assert_eq!(frame_index, 2),
        other => panic!("expected CorruptStream, got {:?}", other),
    }
}

#[test]
fn stream_truncated_raw_frame_is_corrupt() {
    let frames = vec![vec![1u8, 2, 3, 4]];
    let mut stream = encode_stream(&frames);
    stream.pop();
    assert_eq!(
        decode_stream(&stream, 4),
        Err(CodecError::CorruptStream { frame_index: 0 })
    );
}

#[test]
fn stream_tally_overshoot_is_corrupt() {
    // count byte 5 overshoots the remaining tally of 4
    let stream = vec![1u8, 2, 3, 4, 5, 9];
    assert_eq!(
        decode_stream(&stream, 4),
        Err(CodecError::CorruptStream { frame_index: 1 })
    );
}

#[test]
fn stream_boundary_mid_pair_is_corrupt() {
    // the tally reaches 4 only in the middle of a pair
    let stream = vec![1u8, 2, 3, 4, 3, 9, 1];
    assert_eq!(
        decode_stream(&stream, 4),
        Err(CodecError::CorruptStream { frame_index: 1 })
    );
}

#[test]
fn stream_decode_is_sequential_delta() {
    // each frame is the mod-256 sum of its expanded block and the
    // previously decoded frame, not the raw block contents
    let stream = vec![100u8, 200, 2, 56, 2, 200];
    let decoded = decode_stream(&stream, 2).unwrap();
    assert_eq!(decoded, vec![vec![100, 200], vec![156, 0], vec![100, 200]]);
}

#[test]
fn incremental_decoder_matches_whole_buffer_decode() {
    let frames = vec![
        vec![1u8, 2, 3, 4],
        vec![5u8, 6, 7, 8],
        vec![9u8, 0, 1, 2],
    ];
    let stream = encode_stream(&frames);
    let mut decoder = StreamDecoder::new(4);
    for byte in &stream {
        decoder.push_byte(*byte).unwrap();
    }
    assert_eq!(decoder.finish(), Ok(frames.clone()));
    assert_eq!(decode_stream(&stream, 4), Ok(frames));
}

#[test]
fn incremental_decoder_rejects_overshoot_at_the_byte() {
    // frame 0 raw, then a count byte of 9 against a remaining tally of 4
    let mut decoder = StreamDecoder::new(4);
    for byte in [1u8, 2, 3, 4] {
        decoder.push_byte(byte).unwrap();
    }
    assert_eq!(
        decoder.push_byte(9),
        Err(CodecError::CorruptStream { frame_index: 1 })
    );
}

#[test]
fn incremental_decoder_rejects_early_end() {
    let mut decoder = StreamDecoder::new(4);
    for byte in [1u8, 2, 3] {
        decoder.push_byte(byte).unwrap();
    }
    // the stream ends inside the raw first frame
    assert_eq!(
        decoder.finish(),
        Err(CodecError::CorruptStream { frame_index: 0 })
    );
}

#[test]
fn incremental_decoder_rejects_end_mid_pair() {
    let mut decoder = StreamDecoder::new(2);
    for byte in [10u8, 20, 2] {
        decoder.push_byte(byte).unwrap();
    }
    // the tally reached 2, but the pending pair has no value byte
    assert_eq!(
        decoder.finish(),
        Err(CodecError::CorruptStream { frame_index: 1 })
    );
}

#[test]
fn end_to_end_two_frame_video() {
    // width 4, height 2; frame 0 all black, frame 1 all white
    let black = vec![0u8; 24];
    let white = vec![255u8; 24];
    let frames = vec![black, white];
    let stream = encode_video(&frames, 4, 2).unwrap();
    // frame 0: Y = 0, U = 128, V = 128 everywhere, stored raw
    assert_eq!(stream[..12].to_vec(), vec![0, 0, 0, 0, 0, 0, 0, 0, 128, 128, 128, 128]);
    // frame 1: Y = 255 everywhere, so the Y-plane delta is 255 at all 8
    // positions (wraps, no negative) and run-length-codes to (8, 255).
    // The white chroma values are U = 114.995 and V = 127.9235, truncated
    // to 114 and 127, so the chroma deltas wrap to 242 and 255.
    assert_eq!(stream[12..].to_vec(), vec![8, 255, 2, 242, 2, 255]);
    // decoding the stream reproduces the exact YUV frames
    let decoded = decode_video(&stream, 4, 2).unwrap();
    assert_eq!(decoded.len(), 2);
    assert_eq!(decoded[0], vec![0, 0, 0, 0, 0, 0, 0, 0, 128, 128, 128, 128]);
    assert_eq!(
        decoded[1],
        vec![255, 255, 255, 255, 255, 255, 255, 255, 114, 114, 127, 127]
    );
}

#[test]
fn end_to_end_longer_video_roundtrip() {
    // the YUV-domain round trip holds for any video with even dimensions
    let mut frames = Vec::new();
    for f in 0..5usize {
        let mut frame = Vec::new();
        for p in 0..8usize {
            let v = ((f * 31 + p * 7) % 256) as u8;
            frame.push(v);
            frame.push(v.wrapping_add(17));
            frame.push((p * 40 % 256) as u8);
        }
        frames.push(frame);
    }
    let stream = encode_video(&frames, 2, 4).unwrap();
    let decoded = decode_video(&stream, 2, 4).unwrap();
    // the YUV frames the encoder produced are reproduced exactly
    let yuv = simple_video_encoder::color::yuv_encode(&frames, 2, 4);
    assert_eq!(decoded, yuv);
}

#[test]
fn invalid_dimensions_rejected() {
    let frames = vec![vec![0u8; 9]];
    assert_eq!(encode_video(&frames, 3, 1), Err(CodecError::InvalidDimensions));
    assert_eq!(encode_video(&frames, 0, 2), Err(CodecError::InvalidDimensions));
    let stream = vec![0u8; 6];
    assert_eq!(decode_video(&stream, 2, 0), Err(CodecError::InvalidDimensions));
    assert_eq!(decode_video(&stream, 5, 2), Err(CodecError::InvalidDimensions));
}

#[test]
fn rgb_conversion_matches_dedicated_path() {
    // rgb_to_yuv and yuv_encode agree frame for frame
    let frames = vec![vec![10u8; 12], vec![200u8; 12]];
    let a = simple_video_encoder::color::rgb_to_yuv(&frames, 2, 2);
    let b = simple_video_encoder::color::yuv_encode(&frames, 2, 2);
    assert_eq!(a, b);
    assert_eq!(a.len(), 2);
    assert_eq!(a[0].len(), 6);
}

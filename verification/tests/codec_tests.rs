use simple_video_encoder::color::uv_downsample;
use simple_video_encoder::color::yuv_frame;
use simple_video_encoder::color::ColorRGB;
use simple_video_encoder::delta::decode_delta;
use simple_video_encoder::delta::delta_decode;
use simple_video_encoder::delta::delta_encode;
use simple_video_encoder::delta::encode_delta;
use simple_video_encoder::rle::rle_decode;
use simple_video_encoder::rle::rle_decode_frame;
use simple_video_encoder::rle::rle_encode;
use simple_video_encoder::rle::rle_encode_frame;
use simple_video_encoder::CodecError;

#[test]
fn luma_formula_exact_values() {
    // Y = 0.299 R + 0.587 G + 0.114 B, truncated
    let red = ColorRGB { r: 255, g: 0, b: 0 }.to_yuv();
    assert_eq!(red.y, 76); // 76.245 truncates to 76
    let green = ColorRGB { r: 0, g: 255, b: 0 }.to_yuv();
    assert_eq!(green.y, 149); // 149.685 truncates to 149
    let blue = ColorRGB { r: 0, g: 0, b: 255 }.to_yuv();
    assert_eq!(blue.y, 29); // 29.07 truncates to 29
    let white = ColorRGB { r: 255, g: 255, b: 255 }.to_yuv();
    assert_eq!(white.y, 255);
}

#[test]
fn chroma_formula_exact_values() {
    // U and V stay scaled by 10000 until the 2x2 average
    let black = ColorRGB { r: 0, g: 0, b: 0 }.to_yuv();
    assert_eq!(black.u, 1280000); // U = 128 exactly
    assert_eq!(black.v, 1280000); // V = 128 exactly
    let red = ColorRGB { r: 255, g: 0, b: 0 }.to_yuv();
    assert_eq!(red.u, 1280000 - 1690 * 255);
    assert_eq!(red.v, 1280000 + 4990 * 255);
}

#[test]
fn chroma_averaging_example() {
    // a 2x2 U block [100, 102, 98, 100] downsamples (truncating) to 100
    let u_buf: Vec<i32> = vec![1000000, 1020000, 980000, 1000000];
    let v_buf: Vec<i32> = vec![1000000, 1020000, 980000, 1000000];
    let mut u_down: Vec<u8> = vec![0];
    let mut v_down: Vec<u8> = vec![0];
    uv_downsample(&u_buf, &v_buf, &mut u_down, &mut v_down, 2, 2);
    assert_eq!(u_down, vec![100]);
    assert_eq!(v_down, vec![100]);
}

#[test]
fn chroma_averaging_truncates_not_rounds() {
    // average 100.75 truncates to 100
    let u_buf: Vec<i32> = vec![1000000, 1010000, 1020000, 1000000];
    // average 127.9235 truncates to 127
    let v_buf: Vec<i32> = vec![1279235, 1279235, 1279235, 1279235];
    let mut u_down: Vec<u8> = vec![0];
    let mut v_down: Vec<u8> = vec![0];
    uv_downsample(&u_buf, &v_buf, &mut u_down, &mut v_down, 2, 2);
    assert_eq!(u_down, vec![100]);
    assert_eq!(v_down, vec![127]);
}

#[test]
fn yuv_frame_layout_black() {
    // 2x2 all-black frame: Y plane of zeros, then U, then V
    let frame = vec![0u8; 12];
    let yuv = yuv_frame(&frame, 2, 2);
    assert_eq!(yuv, vec![0, 0, 0, 0, 128, 128]);
}

#[test]
fn yuv_frame_layout_red() {
    let frame = vec![255, 0, 0, 255, 0, 0, 255, 0, 0, 255, 0, 0];
    let yuv = yuv_frame(&frame, 2, 2);
    // U = 84.905 truncates to 84; V = 255.245 truncates to 255
    assert_eq!(yuv, vec![76, 76, 76, 76, 84, 255]);
}

#[test]
fn delta_bytes_wrap_around() {
    // (10 - 250) mod 256 == 16, and (16 + 250) mod 256 == 10
    assert_eq!(encode_delta(10, 250), 16);
    assert_eq!(decode_delta(16, 250), 10);
    assert_eq!(encode_delta(250, 10), 240);
    assert_eq!(encode_delta(7, 7), 0);
}

#[test]
fn delta_roundtrip_all_pairs() {
    // decode_delta(encode_delta(a, b), b) == a for all byte pairs
    for a in 0..=255u8 {
        for b in 0..=255u8 {
            assert_eq!(decode_delta(encode_delta(a, b), b), a);
        }
    }
}

#[test]
fn delta_frames_roundtrip() {
    let cur = vec![0u8, 1, 255, 128, 7];
    let prev = vec![255u8, 1, 0, 130, 9];
    let delta = delta_encode(&cur, &prev);
    assert_eq!(delta, vec![1, 0, 255, 254, 254]);
    assert_eq!(delta_decode(&delta, &prev), cur);
}

#[test]
fn rle_simple_runs() {
    let s = vec![5u8, 5, 5, 9, 9, 2];
    let enc = rle_encode_frame(&s);
    assert_eq!(enc, vec![3, 5, 2, 9, 1, 2]);
    assert_eq!(rle_decode_frame(&enc, 6), Ok(s));
}

#[test]
fn rle_empty_input() {
    let s: Vec<u8> = Vec::new();
    let enc = rle_encode_frame(&s);
    assert_eq!(enc, Vec::<u8>::new());
    assert_eq!(rle_decode_frame(&enc, 0), Ok(Vec::new()));
}

#[test]
fn rle_run_cap_at_255() {
    // a run of exactly 256 identical bytes produces pairs (255, v), (1, v)
    let s = vec![7u8; 256];
    let enc = rle_encode_frame(&s);
    assert_eq!(enc, vec![255, 7, 1, 7]);
    assert_eq!(rle_decode_frame(&enc, 256), Ok(s));
}

#[test]
fn rle_run_of_300() {
    let s = vec![42u8; 300];
    let enc = rle_encode_frame(&s);
    assert_eq!(enc, vec![255, 42, 45, 42]);
    assert_eq!(rle_decode_frame(&enc, 300), Ok(s));
}

#[test]
fn rle_roundtrip_varied_input() {
    let mut s = Vec::new();
    for i in 0..1000usize {
        s.push(((i * i + 3 * i) % 7) as u8);
    }
    let enc = rle_encode_frame(&s);
    let dec = rle_decode_frame(&enc, s.len());
    assert_eq!(dec, Ok(s));
}

#[test]
fn rle_decode_length_mismatch() {
    let enc = vec![3u8, 7];
    assert_eq!(rle_decode_frame(&enc, 4), Err(CodecError::LengthMismatch));
    assert_eq!(rle_decode_frame(&enc, 2), Err(CodecError::LengthMismatch));
}

#[test]
fn rle_decode_odd_pair_bytes() {
    let enc = vec![2u8, 7, 1];
    assert_eq!(rle_decode_frame(&enc, 3), Err(CodecError::LengthMismatch));
}

#[test]
fn rle_video_first_frame_raw() {
    let frames = vec![vec![5u8, 5, 5], vec![5u8, 5, 6]];
    let enc = rle_encode(&frames);
    assert_eq!(enc.len(), 2);
    assert_eq!(enc[0], vec![5, 5, 5]);
    // delta of frame 1 is [0, 0, 1]
    assert_eq!(enc[1], vec![2, 0, 1, 1]);
    let dec = rle_decode(&enc, 3);
    assert_eq!(dec, frames);
}

#[test]
fn rle_video_roundtrip() {
    let frames = vec![
        vec![1u8, 1, 2, 3, 3, 3],
        vec![1u8, 2, 2, 3, 4, 3],
        vec![0u8, 2, 2, 9, 4, 200],
    ];
    let enc = rle_encode(&frames);
    assert_eq!(enc[0], frames[0]);
    let dec = rle_decode(&enc, 6);
    assert_eq!(dec, frames);
}

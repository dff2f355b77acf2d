//! Colour-space conversion and 4:2:0 chroma subsampling.
//!
//! An RGB frame is a row-major sequence of `(R, G, B)` byte triplets.  Per
//! pixel, the conversion applies fixed linear coefficients
//!
//! ```text
//! Y =  0.299 R + 0.587 G + 0.114 B
//! U = -0.169 R - 0.331 G + 0.449 B  + 128
//! V =  0.499 R - 0.418 G - 0.0813 B + 128
//! ```
//!
//! carried out exactly in fixed-point arithmetic: every coefficient is
//! scaled by 10000, so a chroma value `u` is represented by the integer
//! `10000 * u`.  Y is final and is quantized to a byte at once, by
//! truncation.  U and V are deliberately kept at full precision until the
//! 2x2 spatial average, because truncating before averaging would compound
//! rounding error; only the averaged value is truncated to a byte.
//!
//! The output frame layout is the binding downstream contract:
//! `[Y plane][subsampled U plane][subsampled V plane]`, of total length
//! `1.5 * width * height`.

use vstd::arithmetic::div_mod::lemma_div_is_ordered;
use vstd::arithmetic::div_mod::lemma_fundamental_div_mod_converse_div;
use vstd::arithmetic::div_mod::lemma_fundamental_div_mod_converse_mod;
use vstd::arithmetic::mul::lemma_mul_inequality;
use vstd::arithmetic::mul::lemma_mul_nonnegative;
use vstd::prelude::*;

use crate::Frame;

verus! {

/// Width and height must both be even (the 2x2 chroma filter requires
/// exact divisibility) and positive.
pub open spec fn valid_dims(width: int, height: int) -> bool {
    width > 0 && height > 0 && width % 2 == 0 && height % 2 == 0
}

/// The luma byte of one pixel: `0.299 R + 0.587 G + 0.114 B`, truncated.
pub open spec fn y_of(r: u8, g: u8, b: u8) -> u8 {
    ((2990 * r + 5870 * g + 1140 * b) / 10000) as u8
}

/// The U chroma value of one pixel, scaled by 10000 and not yet quantized:
/// `10000 * (-0.169 R - 0.331 G + 0.449 B + 128)`.
pub open spec fn u_num_of(r: u8, g: u8, b: u8) -> int {
    4490 * b - 1690 * r - 3310 * g + 1280000
}

/// The V chroma value of one pixel, scaled by 10000 and not yet quantized:
/// `10000 * (0.499 R - 0.418 G - 0.0813 B + 128)`.
pub open spec fn v_num_of(r: u8, g: u8, b: u8) -> int {
    4990 * r - 4180 * g - 813 * b + 1280000
}

/// Every scaled chroma value is nonnegative and below 2560000 (that is,
/// below a chroma value of 256), so four of them can be summed in an `i32`
/// and their truncated average always fits a byte.
pub proof fn lemma_chroma_range(r: u8, g: u8, b: u8)
    ensures
        0 <= u_num_of(r, g, b) < 2560000,
        0 <= v_num_of(r, g, b) < 2560000,
{
}

/// The Y plane of a frame of `size` pixels.
pub open spec fn y_plane(frame: Seq<u8>, size: int) -> Seq<u8> {
    Seq::new(size as nat, |n: int| y_of(frame[3 * n], frame[3 * n + 1], frame[3 * n + 2]))
}

/// The full-resolution scaled U plane of a frame of `size` pixels.
pub open spec fn u_plane(frame: Seq<u8>, size: int) -> Seq<i32> {
    Seq::new(
        size as nat,
        |n: int| u_num_of(frame[3 * n], frame[3 * n + 1], frame[3 * n + 2]) as i32,
    )
}

/// The full-resolution scaled V plane of a frame of `size` pixels.
pub open spec fn v_plane(frame: Seq<u8>, size: int) -> Seq<i32> {
    Seq::new(
        size as nat,
        |n: int| v_num_of(frame[3 * n], frame[3 * n + 1], frame[3 * n + 2]) as i32,
    )
}

/// The truncated average of four scaled chroma values: dividing the sum by
/// `4 * 10000` both averages the block and removes the fixed-point scale.
pub open spec fn avg4(a: i32, b: i32, c: i32, d: i32) -> u8 {
    ((a + b + c + d) / 40000) as u8
}

/// 4:2:0 subsampling of a full-resolution scaled chroma plane: output cell
/// `(x/2, y/2)` is the truncated average of the 2x2 block at `(x, y)`.
/// The output is row-major with stride `width / 2`.
pub open spec fn downsample(buf: Seq<i32>, width: int, height: int) -> Seq<u8> {
    Seq::new(
        ((width / 2) * (height / 2)) as nat,
        |k: int|
            {
                let row = 2 * (k / (width / 2));
                let col = 2 * (k % (width / 2));
                avg4(
                    buf[row * width + col],
                    buf[row * width + col + 1],
                    buf[(row + 1) * width + col],
                    buf[(row + 1) * width + col + 1],
                )
            },
    )
}

/// One planar YUV420 frame: the Y plane followed by the subsampled U and V
/// planes.
pub open spec fn yuv_frame_spec(frame: Seq<u8>, width: int, height: int) -> Seq<u8> {
    y_plane(frame, width * height) + downsample(u_plane(frame, width * height), width, height)
        + downsample(v_plane(frame, width * height), width, height)
}

/// A YUV420 frame always has length `1.5 * width * height`.
pub proof fn lemma_yuv_frame_len(frame: Seq<u8>, width: int, height: int)
    requires
        valid_dims(width, height),
    ensures
        2 * yuv_frame_spec(frame, width, height).len() == 3 * width * height,
        yuv_frame_spec(frame, width, height).len() == width * height + 2 * ((width / 2) * (height
            / 2)),
{
    let a = width / 2;
    let b = height / 2;
    assert(width == 2 * a && height == 2 * b);
    assert((2 * a) * (2 * b) == 4 * (a * b)) by (nonlinear_arith);
    assert(3 * width * height == 3 * (width * height)) by (nonlinear_arith);
    lemma_mul_nonnegative(a, b);
    assert(y_plane(frame, width * height).len() == width * height);
    assert(downsample(u_plane(frame, width * height), width, height).len() == a * b);
    assert(downsample(v_plane(frame, width * height), width, height).len() == a * b);
}

/// An RGB pixel, one byte per channel.
pub struct ColorRGB {
    pub r: u8,
    pub g: u8,
    pub b: u8,
}

/// A converted pixel: the final luma byte, and the two chroma values still
/// at full precision (scaled by 10000).
pub struct ColorYUV {
    pub y: u8,
    pub u: i32,
    pub v: i32,
}

impl ColorRGB {
    /// Convert one pixel.  Y is truncated to a byte; U and V stay scaled.
    pub fn to_yuv(&self) -> (c: ColorYUV)
        ensures
            c.y == y_of(self.r, self.g, self.b),
            c.u as int == u_num_of(self.r, self.g, self.b),
            c.v as int == v_num_of(self.r, self.g, self.b),
    {
        let r = self.r as i32;
        let g = self.g as i32;
        let b = self.b as i32;
        let y_num: i32 = 2990 * r + 5870 * g + 1140 * b;
        proof {
            lemma_div_is_ordered(y_num as int, 2550000, 10000);
        }
        let y = ((y_num as u32) / 10000) as u8;
        let u = 4490 * b - 1690 * r - 3310 * g + 1280000;
        let v = 4990 * r - 4180 * g - 813 * b + 1280000;
        ColorYUV { y, u, v }
    }
}

/// Convert `size` pixels of an RGB frame, appending the luma bytes and the
/// full-precision scaled chroma values to the three buffers.
pub fn frame_to_yuv(
    frame: &Frame,
    y_buf: &mut Vec<u8>,
    u_buf: &mut Vec<i32>,
    v_buf: &mut Vec<i32>,
    size: usize,
)
    requires
        3 * size <= frame@.len(),
        3 * size <= usize::MAX,
    ensures
        final(y_buf)@ == old(y_buf)@ + y_plane(frame@, size as int),
        final(u_buf)@ == old(u_buf)@ + u_plane(frame@, size as int),
        final(v_buf)@ == old(v_buf)@ + v_plane(frame@, size as int),
{
    let mut n: usize = 0;
    while n < size
        invariant
            3 * size <= frame@.len(),
            3 * size <= usize::MAX,
            0 <= n <= size,
            y_buf@ == old(y_buf)@ + y_plane(frame@, size as int).take(n as int),
            u_buf@ == old(u_buf)@ + u_plane(frame@, size as int).take(n as int),
            v_buf@ == old(v_buf)@ + v_plane(frame@, size as int).take(n as int),
        decreases size - n,
    {
        let r = frame[3 * n];
        let g = frame[3 * n + 1];
        let b = frame[3 * n + 2];
        let ColorYUV { y, u, v } = ColorRGB { r, g, b }.to_yuv();
        y_buf.push(y);
        u_buf.push(u);
        v_buf.push(v);
        proof {
            lemma_chroma_range(r, g, b);
            assert(y_buf@ =~= old(y_buf)@ + y_plane(frame@, size as int).take(n + 1));
            assert(u_buf@ =~= old(u_buf)@ + u_plane(frame@, size as int).take(n + 1));
            assert(v_buf@ =~= old(v_buf)@ + v_plane(frame@, size as int).take(n + 1));
        }
        n = n + 1;
    }
    proof {
        assert(y_plane(frame@, size as int).take(size as int) =~= y_plane(frame@, size as int));
        assert(u_plane(frame@, size as int).take(size as int) =~= u_plane(frame@, size as int));
        assert(v_plane(frame@, size as int).take(size as int) =~= v_plane(frame@, size as int));
    }
}

/// Average the full-resolution scaled U and V planes over 2x2 blocks,
/// truncating each average to a byte, into the two pre-sized output
/// buffers.
pub fn uv_downsample(
    u_buf: &Vec<i32>,
    v_buf: &Vec<i32>,
    u_down_buf: &mut Frame,
    v_down_buf: &mut Frame,
    width: usize,
    height: usize,
)
    requires
        valid_dims(width as int, height as int),
        width * height <= usize::MAX,
        width * height <= u_buf@.len(),
        width * height <= v_buf@.len(),
        old(u_down_buf)@.len() == (width / 2) * (height / 2),
        old(v_down_buf)@.len() == (width / 2) * (height / 2),
        forall|i: int| 0 <= i < width * height ==> 0 <= #[trigger] u_buf@[i] < 2560000,
        forall|i: int| 0 <= i < width * height ==> 0 <= #[trigger] v_buf@[i] < 2560000,
    ensures
        final(u_down_buf)@ == downsample(u_buf@, width as int, height as int),
        final(v_down_buf)@ == downsample(v_buf@, width as int, height as int),
{
    let w2 = width / 2;
    let h2 = height / 2;
    let ghost ds_u = downsample(u_buf@, width as int, height as int);
    let ghost ds_v = downsample(v_buf@, width as int, height as int);
    let mut x: usize = 0;
    while x < height
        invariant
            valid_dims(width as int, height as int),
            w2 == width / 2,
            h2 == height / 2,
            width * height <= usize::MAX,
            width * height <= u_buf@.len(),
            width * height <= v_buf@.len(),
            forall|i: int| 0 <= i < width * height ==> 0 <= #[trigger] u_buf@[i] < 2560000,
            forall|i: int| 0 <= i < width * height ==> 0 <= #[trigger] v_buf@[i] < 2560000,
            ds_u == downsample(u_buf@, width as int, height as int),
            ds_v == downsample(v_buf@, width as int, height as int),
            u_down_buf@.len() == w2 * h2,
            v_down_buf@.len() == w2 * h2,
            0 <= x <= height,
            x % 2 == 0,
            forall|k: int| 0 <= k < (x / 2) * w2 ==> #[trigger] u_down_buf@[k] == ds_u[k],
            forall|k: int| 0 <= k < (x / 2) * w2 ==> #[trigger] v_down_buf@[k] == ds_v[k],
        decreases height - x,
    {
        let mut y: usize = 0;
        proof {
            lemma_mul_inequality(x as int / 2, h2 as int - 1, w2 as int);
        }
        while y < width
            invariant
                valid_dims(width as int, height as int),
                w2 == width / 2,
                h2 == height / 2,
                width * height <= usize::MAX,
                width * height <= u_buf@.len(),
                width * height <= v_buf@.len(),
                forall|i: int| 0 <= i < width * height ==> 0 <= #[trigger] u_buf@[i] < 2560000,
                forall|i: int| 0 <= i < width * height ==> 0 <= #[trigger] v_buf@[i] < 2560000,
                ds_u == downsample(u_buf@, width as int, height as int),
                ds_v == downsample(v_buf@, width as int, height as int),
                u_down_buf@.len() == w2 * h2,
                v_down_buf@.len() == w2 * h2,
                0 <= x < height,
                x % 2 == 0,
                0 <= y <= width,
                y % 2 == 0,
                (x / 2) * w2 <= (h2 - 1) * w2,
                forall|k: int|
                    0 <= k < (x / 2) * w2 + (y / 2) ==> #[trigger] u_down_buf@[k] == ds_u[k],
                forall|k: int|
                    0 <= k < (x / 2) * w2 + (y / 2) ==> #[trigger] v_down_buf@[k] == ds_v[k],
            decreases width - y,
        {
            proof {
                let wi = width as int;
                let hi = height as int;
                let xi = x as int;
                let yi = y as int;
                assert(xi <= hi - 2 && yi <= wi - 2);
                // the four source indices stay inside the planes
                assert((xi + 1) * wi + yi + 1 < wi * hi) by (nonlinear_arith)
                    requires
                        0 <= xi <= hi - 2,
                        0 <= yi <= wi - 2,
                        wi > 0,
                        hi > 0,
                ;
                assert(xi * wi <= (xi + 1) * wi) by (nonlinear_arith)
                    requires
                        wi > 0,
                ;
                // the destination index stays inside the output
                let w2i = w2 as int;
                let h2i = h2 as int;
                assert(xi / 2 <= h2i - 1 && yi / 2 <= w2i - 1);
                assert((xi / 2) * w2i + (yi / 2) < h2i * w2i) by (nonlinear_arith)
                    requires
                        0 <= xi / 2 <= h2i - 1,
                        0 <= yi / 2 <= w2i - 1,
                        w2i > 0,
                ;
                assert(h2i * w2i == w2i * h2i) by (nonlinear_arith);
                assert(4 * (w2i * h2i) == (2 * w2i) * (2 * h2i)) by (nonlinear_arith);
                assert(w2i * h2i <= usize::MAX);
            }
            let i00 = x * width + y;
            let i10 = (x + 1) * width + y;
            let su = u_buf[i00] + u_buf[i00 + 1] + u_buf[i10] + u_buf[i10 + 1];
            let sv = v_buf[i00] + v_buf[i00 + 1] + v_buf[i10] + v_buf[i10 + 1];
            proof {
                lemma_div_is_ordered(su as int, 10239996, 40000);
                lemma_div_is_ordered(sv as int, 10239996, 40000);
            }
            let du = ((su as u32) / 40000) as u8;
            let dv = ((sv as u32) / 40000) as u8;
            let k = (x / 2) * w2 + y / 2;
            proof {
                lemma_fundamental_div_mod_converse_div(
                    k as int,
                    w2 as int,
                    x as int / 2,
                    y as int / 2,
                );
                lemma_fundamental_div_mod_converse_mod(
                    k as int,
                    w2 as int,
                    x as int / 2,
                    y as int / 2,
                );
                assert(2 * (k as int / (w2 as int)) == x);
                assert(2 * (k as int % (w2 as int)) == y);
                assert(du == ds_u[k as int]);
                assert(dv == ds_v[k as int]);
            }
            u_down_buf[k] = du;
            v_down_buf[k] = dv;
            y = y + 2;
        }
        proof {
            assert((x as int / 2) * (w2 as int) + w2 == (x as int / 2 + 1) * (w2 as int))
                by (nonlinear_arith);
        }
        x = x + 2;
    }
    proof {
        assert((x as int / 2) * (w2 as int) == (h2 as int) * (w2 as int));
        assert((h2 as int) * (w2 as int) == (w2 as int) * (h2 as int)) by (nonlinear_arith);
        assert(u_down_buf@ =~= ds_u);
        assert(v_down_buf@ =~= ds_v);
    }
}

/// Build a zero-filled frame buffer of the given length.
fn zero_frame(n: usize) -> (f: Frame)
    ensures
        f@ == Seq::new(n as nat, |i: int| 0u8),
{
    let mut f: Frame = Vec::new();
    let mut i: usize = 0;
    while i < n
        invariant
            0 <= i <= n,
            f@ == Seq::new(i as nat, |t: int| 0u8),
        decreases n - i,
    {
        f.push(0);
        proof {
            assert(f@ =~= Seq::new((i + 1) as nat, |t: int| 0u8));
        }
        i = i + 1;
    }
    f
}

/// Convert one RGB frame into one planar YUV420 frame:
/// `[Y plane][subsampled U plane][subsampled V plane]`.
pub fn yuv_frame(frame: &Frame, width: usize, height: usize) -> (out: Frame)
    requires
        valid_dims(width as int, height as int),
        width * height * 3 <= usize::MAX,
        frame@.len() == 3 * width * height,
    ensures
        out@ == yuv_frame_spec(frame@, width as int, height as int),
{
    let size = width * height;
    proof {
        assert(3 * (width as int) * (height as int) == 3 * ((width as int) * (height as int)))
            by (nonlinear_arith);
        assert((width as int) * (height as int) * 3 == 3 * ((width as int) * (height as int)))
            by (nonlinear_arith);
    }
    let mut y_buf: Vec<u8> = Vec::new();
    let mut u_buf: Vec<i32> = Vec::new();
    let mut v_buf: Vec<i32> = Vec::new();
    frame_to_yuv(frame, &mut y_buf, &mut u_buf, &mut v_buf, size);
    proof {
        assert(y_buf@ =~= y_plane(frame@, size as int));
        assert(u_buf@ =~= u_plane(frame@, size as int));
        assert(v_buf@ =~= v_plane(frame@, size as int));
        assert forall|i: int| 0 <= i < size implies 0 <= #[trigger] u_buf@[i] < 2560000 by {
            lemma_chroma_range(frame@[3 * i], frame@[3 * i + 1], frame@[3 * i + 2]);
        }
        assert forall|i: int| 0 <= i < size implies 0 <= #[trigger] v_buf@[i] < 2560000 by {
            lemma_chroma_range(frame@[3 * i], frame@[3 * i + 1], frame@[3 * i + 2]);
        }
    }
    let w2 = width / 2;
    let h2 = height / 2;
    proof {
        let w2i = w2 as int;
        let h2i = h2 as int;
        assert(width == 2 * w2i && height == 2 * h2i);
        assert(4 * (w2i * h2i) == (2 * w2i) * (2 * h2i)) by (nonlinear_arith);
        lemma_mul_nonnegative(w2i, h2i);
        assert(w2i * h2i <= width * height);
    }
    let mut u_down_buf = zero_frame(w2 * h2);
    let mut v_down_buf = zero_frame(w2 * h2);
    uv_downsample(&u_buf, &v_buf, &mut u_down_buf, &mut v_down_buf, width, height);
    let mut out = y_buf;
    out.append(&mut u_down_buf);
    out.append(&mut v_down_buf);
    proof {
        assert(out@ =~= yuv_frame_spec(frame@, width as int, height as int));
    }
    out
}

/// Convert every frame of a video from RGB to planar YUV420 with 4:2:0
/// chroma subsampling.
pub fn rgb_to_yuv(frames: &Vec<Frame>, width: usize, height: usize) -> (out: Vec<Frame>)
    requires
        valid_dims(width as int, height as int),
        width * height * 3 <= usize::MAX,
        forall|i: int| 0 <= i < frames@.len() ==> #[trigger] frames@[i]@.len() == 3 * width * height,
    ensures
        out@.len() == frames@.len(),
        forall|i: int|
            0 <= i < frames@.len() ==> #[trigger] out@[i]@ == yuv_frame_spec(
                frames@[i]@,
                width as int,
                height as int,
            ),
{
    let mut out: Vec<Frame> = Vec::new();
    let n = frames.len();
    let mut i: usize = 0;
    while i < n
        invariant
            n == frames@.len(),
            0 <= i <= n,
            valid_dims(width as int, height as int),
            width * height * 3 <= usize::MAX,
            forall|t: int|
                0 <= t < frames@.len() ==> #[trigger] frames@[t]@.len() == 3 * width * height,
            out@.len() == i,
            forall|t: int|
                0 <= t < i ==> #[trigger] out@[t]@ == yuv_frame_spec(
                    frames@[t]@,
                    width as int,
                    height as int,
                ),
        decreases n - i,
    {
        let converted = yuv_frame(&frames[i], width, height);
        out.push(converted);
        i = i + 1;
    }
    out
}

/// Convert a video from RGB to YUV420 and downsample its chroma planes.
pub fn yuv_encode(frames: &Vec<Frame>, width: usize, height: usize) -> (out: Vec<Frame>)
    requires
        valid_dims(width as int, height as int),
        width * height * 3 <= usize::MAX,
        forall|i: int| 0 <= i < frames@.len() ==> #[trigger] frames@[i]@.len() == 3 * width * height,
    ensures
        out@.len() == frames@.len(),
        forall|i: int|
            0 <= i < frames@.len() ==> #[trigger] out@[i]@ == yuv_frame_spec(
                frames@[i]@,
                width as int,
                height as int,
            ),
{
    rgb_to_yuv(frames, width, height)
}

} // verus!

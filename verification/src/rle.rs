//! Byte-oriented run-length coding.
//!
//! A byte sequence is encoded as maximal runs of identical consecutive
//! bytes, each run emitted as a `(count, value)` pair of bytes with the
//! count capped at 255: a run is closed whenever the next byte differs,
//! the input ends, or the count would exceed 255.  Decoding expands every
//! pair back into `count` repetitions of `value` and checks the expanded
//! length against the externally expected frame length.

use vstd::prelude::*;

use crate::CodecError;
use crate::Frame;
use crate::delta::delta_seq;
use crate::delta::undelta_seq;

verus! {

/// Length of the run of bytes equal to `s[i]` that starts at `i`, capped
/// at 255.  This is exactly the count byte the encoder emits for a run
/// starting at `i`.
pub open spec fn run_from(s: Seq<u8>, i: int) -> nat
    decreases s.len() - i,
{
    if i < 0 || i >= s.len() {
        0
    } else if i + 1 < s.len() && s[i + 1] == s[i] {
        if run_from(s, i + 1) < 255 {
            1 + run_from(s, i + 1)
        } else {
            255
        }
    } else {
        1
    }
}

/// The run-length encoding of the suffix of `s` that starts at `i`: a
/// sequence of `(count, value)` byte pairs.
pub open spec fn rle_compress_from(s: Seq<u8>, i: int) -> Seq<u8>
    decreases s.len() - i,
    via rle_compress_from_decreases
{
    if i < 0 || i >= s.len() {
        Seq::empty()
    } else {
        seq![run_from(s, i) as u8, s[i]] + rle_compress_from(s, i + run_from(s, i))
    }
}

#[via_fn]
proof fn rle_compress_from_decreases(s: Seq<u8>, i: int) {
    if 0 <= i < s.len() {
        lemma_run_from_bounds(s, i);
    }
}

/// The run-length encoding of a whole byte sequence.
pub open spec fn rle_compress(s: Seq<u8>) -> Seq<u8> {
    rle_compress_from(s, 0)
}

/// The expansion of a sequence of `(count, value)` byte pairs: each pair
/// contributes `count` repetitions of `value`, in order.
pub open spec fn rle_expand(pairs: Seq<u8>) -> Seq<u8>
    decreases pairs.len(),
{
    if pairs.len() < 2 {
        Seq::empty()
    } else {
        Seq::new(pairs[0] as nat, |k: int| pairs[1]) + rle_expand(pairs.skip(2))
    }
}

/// A run is never empty, never longer than the remaining input, and never
/// longer than 255.
pub proof fn lemma_run_from_bounds(s: Seq<u8>, i: int)
    requires
        0 <= i < s.len(),
    ensures
        1 <= run_from(s, i),
        i + run_from(s, i) <= s.len(),
        run_from(s, i) <= 255,
    decreases s.len() - i,
{
    if i + 1 < s.len() && s[i + 1] == s[i] {
        lemma_run_from_bounds(s, i + 1);
    }
}

/// Every byte inside the run starting at `i` equals the byte at `i`.
pub proof fn lemma_run_from_equal(s: Seq<u8>, i: int)
    requires
        0 <= i < s.len(),
    ensures
        forall|j: int| i <= j < i + run_from(s, i) ==> s[j] == s[i],
    decreases s.len() - i,
{
    lemma_run_from_bounds(s, i);
    if i + 1 < s.len() && s[i + 1] == s[i] {
        lemma_run_from_equal(s, i + 1);
    }
}

/// A block of `m` equal bytes starting at `i` forces the run at `i` to
/// reach at least `m`, up to the cap of 255.
proof fn lemma_run_from_at_least(s: Seq<u8>, i: int, m: int)
    requires
        0 <= i < s.len(),
        i + m <= s.len(),
        forall|j: int| i < j < i + m ==> s[j] == s[i],
    ensures
        run_from(s, i) >= if m <= 255 { m } else { 255 },
    decreases m,
{
    if m >= 2 {
        assert(s[i + 1] == s[i]);
        lemma_run_from_at_least(s, i + 1, m - 1);
    }
}

/// A run cannot continue past the end of the input, past a differing
/// byte, or past the cap: any of the three bounds it from above.
proof fn lemma_run_from_at_most(s: Seq<u8>, i: int, m: int)
    requires
        0 <= i < s.len(),
        1 <= m <= 254,
        i + m <= s.len(),
        forall|j: int| i < j < i + m ==> s[j] == s[i],
        i + m == s.len() || s[i + m] != s[i],
    ensures
        run_from(s, i) <= m,
    decreases m,
{
    if m >= 2 {
        assert(s[i + 1] == s[i]);
        lemma_run_from_at_most(s, i + 1, m - 1);
    }
}

/// The characterization the executable encoder establishes: a count `n`
/// that covers equal bytes and stops for one of the three legal reasons
/// is exactly the run length.
proof fn lemma_run_from_is(s: Seq<u8>, i: int, n: int)
    requires
        0 <= i < s.len(),
        1 <= n <= 255,
        i + n <= s.len(),
        forall|j: int| i < j < i + n ==> s[j] == s[i],
        n == 255 || i + n == s.len() || s[i + n] != s[i],
    ensures
        run_from(s, i) == n,
{
    lemma_run_from_bounds(s, i);
    lemma_run_from_at_least(s, i, n);
    if n < 255 {
        lemma_run_from_at_most(s, i, n);
    }
}

/// Expanding a pair sequence that starts with one literal pair peels the
/// pair off the front.
proof fn lemma_expand_pair_prefix(c: u8, v: u8, rest: Seq<u8>)
    ensures
        rle_expand(seq![c, v] + rest) == Seq::new(c as nat, |k: int| v) + rle_expand(rest),
{
    let p = seq![c, v] + rest;
    assert(p.len() >= 2);
    assert(p[0] == c && p[1] == v);
    assert(p.skip(2) =~= rest);
    assert(Seq::new(p[0] as nat, |k: int| p[1]) =~= Seq::new(c as nat, |k: int| v));
}

/// Appending one pair to an even-length pair sequence appends its
/// expansion.
pub proof fn lemma_expand_snoc(q: Seq<u8>, c: u8, v: u8)
    requires
        q.len() % 2 == 0,
    ensures
        rle_expand(q + seq![c, v]) == rle_expand(q) + Seq::new(c as nat, |k: int| v),
    decreases q.len(),
{
    if q.len() == 0 {
        assert(q + seq![c, v] =~= seq![c, v]);
        lemma_expand_pair_prefix(c, v, Seq::empty());
        assert(seq![c, v] + Seq::empty() =~= seq![c, v]);
        assert(rle_expand(q) + Seq::new(c as nat, |k: int| v) =~= Seq::new(
            c as nat,
            |k: int| v,
        ));
    } else {
        let p = q + seq![c, v];
        assert(p.len() >= 2);
        assert(p[0] == q[0] && p[1] == q[1]);
        assert(p.skip(2) =~= q.skip(2) + seq![c, v]);
        lemma_expand_snoc(q.skip(2), c, v);
        assert(rle_expand(p) == Seq::new(q[0] as nat, |k: int| q[1]) + (rle_expand(q.skip(2))
            + Seq::new(c as nat, |k: int| v)));
        assert(Seq::new(q[0] as nat, |k: int| q[1]) + (rle_expand(q.skip(2)) + Seq::new(
            c as nat,
            |k: int| v,
        )) =~= (Seq::new(q[0] as nat, |k: int| q[1]) + rle_expand(q.skip(2))) + Seq::new(
            c as nat,
            |k: int| v,
        ));
    }
}

/// Expanding the encoding of the suffix of `s` at `i` gives back exactly
/// that suffix.
proof fn lemma_expand_compress_from(s: Seq<u8>, i: int)
    requires
        0 <= i <= s.len(),
    ensures
        rle_expand(rle_compress_from(s, i)) == s.skip(i),
    decreases s.len() - i,
{
    if i == s.len() {
        assert(rle_compress_from(s, i) =~= Seq::<u8>::empty());
        assert(s.skip(i) =~= Seq::<u8>::empty());
    } else {
        let n = run_from(s, i) as int;
        lemma_run_from_bounds(s, i);
        lemma_run_from_equal(s, i);
        lemma_expand_pair_prefix(n as u8, s[i], rle_compress_from(s, i + n));
        lemma_expand_compress_from(s, i + n);
        assert(Seq::new((n as u8) as nat, |k: int| s[i]) =~= Seq::new(n as nat, |k: int| s[i]));
        assert(Seq::new(n as nat, |k: int| s[i]) + s.skip(i + n) =~= s.skip(i));
    }
}

/// RLE invertibility: for every byte sequence `s`, expanding the encoding
/// of `s` reproduces `s` byte for byte.
pub proof fn lemma_rle_roundtrip(s: Seq<u8>)
    ensures
        rle_expand(rle_compress(s)) == s,
{
    lemma_expand_compress_from(s, 0);
    assert(s.skip(0) =~= s);
}

/// The shape of every encoding: an even number of bytes, and every count
/// byte between 1 and 255.
pub proof fn lemma_rle_compress_shape(s: Seq<u8>, i: int)
    requires
        0 <= i <= s.len(),
    ensures
        rle_compress_from(s, i).len() % 2 == 0,
        forall|k: int|
            0 <= 2 * k < rle_compress_from(s, i).len() ==> 1 <= #[trigger] rle_compress_from(
                s,
                i,
            )[2 * k] <= 255,
    decreases s.len() - i,
{
    if i < s.len() {
        let n = run_from(s, i) as int;
        lemma_run_from_bounds(s, i);
        lemma_rle_compress_shape(s, i + n);
        let p = rle_compress_from(s, i);
        let rest = rle_compress_from(s, i + n);
        assert forall|k: int| 0 <= 2 * k < p.len() implies 1 <= #[trigger] p[2 * k] <= 255 by {
            if k == 0 {
                assert(p[0] == n as u8);
            } else {
                assert(p[2 * k] == rest[2 * (k - 1)]);
            }
        }
    }
}

/// Run-length-encode one byte sequence into `(count, value)` pairs with
/// maximal runs and counts capped at 255.
pub fn rle_encode_frame(s: &Frame) -> (out: Frame)
    ensures
        out@ == rle_compress(s@),
{
    let mut out: Frame = Vec::new();
    let len = s.len();
    let mut i: usize = 0;
    while i < len
        invariant
            len == s@.len(),
            0 <= i <= len,
            rle_compress(s@) == out@ + rle_compress_from(s@, i as int),
        decreases len - i,
    {
        let v = s[i];
        let mut n: usize = 1;
        while i + n < len && n < 255 && s[i + n] == v
            invariant
                len == s@.len(),
                0 <= i < len,
                v == s@[i as int],
                1 <= n <= 255,
                i + n <= len,
                forall|j: int| i < j < i + n ==> s@[j] == s@[i as int],
            decreases len - (i + n),
        {
            n = n + 1;
        }
        proof {
            lemma_run_from_is(s@, i as int, n as int);
        }
        out.push(n as u8);
        out.push(v);
        proof {
            let ghost prev_out = out@.take(out@.len() - 2);
            assert(out@ =~= prev_out + seq![n as u8, v]);
            assert(rle_compress_from(s@, i as int) == seq![n as u8, s@[i as int]]
                + rle_compress_from(s@, i + n));
            assert(prev_out + rle_compress_from(s@, i as int) =~= (prev_out + seq![n as u8, v])
                + rle_compress_from(s@, i + n));
        }
        i = i + n;
    }
    proof {
        assert(rle_compress_from(s@, i as int) =~= Seq::<u8>::empty());
        assert(out@ + Seq::<u8>::empty() =~= out@);
    }
    out
}

/// Expand a sequence of `(count, value)` pairs and check the result
/// against the expected frame length.  Succeeds exactly on even-length
/// pair sequences whose counts sum to `expected`; anything else signals
/// truncated or misaligned encoded data.
pub fn rle_decode_frame(pairs: &Frame, expected: usize) -> (r: Result<Frame, CodecError>)
    ensures
        match r {
            Ok(f) => pairs@.len() % 2 == 0 && rle_expand(pairs@).len() == expected && f@
                == rle_expand(pairs@),
            Err(e) => (pairs@.len() % 2 != 0 || rle_expand(pairs@).len() != expected) && e
                is LengthMismatch,
        },
{
    let mut out: Frame = Vec::new();
    let len = pairs.len();
    let mut j: usize = 0;
    while j + 1 < len
        invariant
            len == pairs@.len(),
            0 <= j <= len,
            j % 2 == 0,
            out@ == rle_expand(pairs@.take(j as int)),
        decreases len - j,
    {
        let c = pairs[j];
        let v = pairs[j + 1];
        let ghost before = out@;
        let mut k: usize = 0;
        while k < c as usize
            invariant
                0 <= k <= c,
                out@ == before + Seq::new(k as nat, |t: int| v),
            decreases c - k,
        {
            out.push(v);
            proof {
                assert(out@ =~= before + Seq::new((k + 1) as nat, |t: int| v));
            }
            k = k + 1;
        }
        proof {
            lemma_expand_snoc(pairs@.take(j as int), c, v);
            assert(pairs@.take(j + 2) =~= pairs@.take(j as int) + seq![c, v]);
        }
        j = j + 2;
    }
    if j != len {
        // an odd byte count cannot be a pair sequence
        return Err(CodecError::LengthMismatch);
    }
    proof {
        assert(pairs@.take(len as int) =~= pairs@);
    }
    if out.len() != expected {
        return Err(CodecError::LengthMismatch);
    }
    Ok(out)
}

/// Copy one frame byte for byte.
pub(crate) fn copy_frame(src: &Frame) -> (out: Frame)
    ensures
        out@ == src@,
{
    let mut out: Frame = Vec::new();
    let len = src.len();
    let mut i: usize = 0;
    while i < len
        invariant
            len == src@.len(),
            0 <= i <= len,
            out@ == src@.take(i as int),
        decreases len - i,
    {
        out.push(src[i]);
        proof {
            assert(out@ =~= src@.take(i + 1));
        }
        i = i + 1;
    }
    proof {
        assert(src@.take(len as int) =~= src@);
    }
    out
}

/// Encode a video frame by frame: frame 0 is kept raw (the anchor frame);
/// every later frame becomes the run-length encoding of its wraparound
/// difference against the preceding frame.
pub fn rle_encode(frames: &Vec<Frame>) -> (out: Vec<Frame>)
    requires
        forall|i: int|
            0 <= i < frames@.len() ==> #[trigger] frames@[i]@.len() == frames@[0]@.len()
                && frames@[i]@.len() >= 1,
    ensures
        out@.len() == frames@.len(),
        frames@.len() > 0 ==> out@[0]@ == frames@[0]@,
        forall|i: int|
            1 <= i < frames@.len() ==> #[trigger] out@[i]@ == rle_compress(
                delta_seq(frames@[i]@, frames@[i - 1]@),
            ),
{
    let mut out: Vec<Frame> = Vec::new();
    let n = frames.len();
    let mut i: usize = 0;
    while i < n
        invariant
            n == frames@.len(),
            0 <= i <= n,
            out@.len() == i,
            forall|t: int|
                0 <= t < frames@.len() ==> #[trigger] frames@[t]@.len() == frames@[0]@.len()
                    && frames@[t]@.len() >= 1,
            i > 0 ==> out@[0]@ == frames@[0]@,
            forall|t: int|
                1 <= t < i ==> #[trigger] out@[t]@ == rle_compress(
                    delta_seq(frames@[t]@, frames@[t - 1]@),
                ),
        decreases n - i,
    {
        if i == 0 {
            let raw = copy_frame(&frames[0]);
            out.push(raw);
        } else {
            let delta = crate::delta::delta_encode(&frames[i], &frames[i - 1]);
            let enc = rle_encode_frame(&delta);
            out.push(enc);
        }
        i = i + 1;
    }
    out
}

/// Decode a video frame by frame: frame 0 is taken raw; every later frame
/// is the expansion of its run-length pairs added (mod 256) onto the
/// previously decoded frame.  `size` is the externally known decoded
/// length of every frame.
pub fn rle_decode(frames: &Vec<Frame>, size: usize) -> (out: Vec<Frame>)
    requires
        frames@.len() > 0 ==> frames@[0]@.len() == size,
        forall|i: int|
            1 <= i < frames@.len() ==> #[trigger] frames@[i]@.len() % 2 == 0 && rle_expand(
                frames@[i]@,
            ).len() == size,
    ensures
        out@.len() == frames@.len(),
        frames@.len() > 0 ==> out@[0]@ == frames@[0]@,
        forall|i: int|
            1 <= i < frames@.len() ==> #[trigger] out@[i]@ == undelta_seq(
                rle_expand(frames@[i]@),
                out@[i - 1]@,
            ),
{
    let mut out: Vec<Frame> = Vec::new();
    let n = frames.len();
    let mut i: usize = 0;
    while i < n
        invariant
            n == frames@.len(),
            0 <= i <= n,
            out@.len() == i,
            frames@.len() > 0 ==> frames@[0]@.len() == size,
            forall|t: int|
                1 <= t < frames@.len() ==> #[trigger] frames@[t]@.len() % 2 == 0 && rle_expand(
                    frames@[t]@,
                ).len() == size,
            forall|t: int| 0 <= t < i ==> #[trigger] out@[t]@.len() == size,
            i > 0 ==> out@[0]@ == frames@[0]@,
            forall|t: int|
                1 <= t < i ==> #[trigger] out@[t]@ == undelta_seq(
                    rle_expand(frames@[t]@),
                    out@[t - 1]@,
                ),
        decreases n - i,
    {
        if i == 0 {
            let raw = copy_frame(&frames[0]);
            out.push(raw);
        } else {
            let delta = match rle_decode_frame(&frames[i], size) {
                Ok(d) => d,
                Err(_) => {
                    proof {
                        assert(false);
                    }
                    Vec::new()
                },
            };
            let decoded = crate::delta::delta_decode(&delta, &out[i - 1]);
            out.push(decoded);
        }
        i = i + 1;
    }
    out
}

} // verus!

//! Header-less stream framing.
//!
//! A video is serialized as one flat byte stream with no length fields:
//! frame 0 is emitted raw (exactly `l` bytes, the externally known decoded
//! frame length), and every later frame as the run-length encoding of its
//! wraparound difference against the previously decoded frame, pairs
//! back to back with no delimiter.  Decoding must recover the per-frame
//! boundaries from content alone: the decoded byte tally of a block —
//! count bytes summed — reaches `l` exactly on a pair boundary at each
//! frame boundary.  If the tally overshoots `l`, the stream ends before
//! reaching it, or it reaches `l` in the middle of a pair, the stream is
//! corrupt, and decoding stops: the strict sequential delta dependency
//! means one misaligned frame invalidates all that follow.

use vstd::prelude::*;

use crate::CodecError;
use crate::Frame;
use crate::delta::delta_seq;
use crate::delta::lemma_delta_seq_roundtrip;
use crate::delta::undelta_seq;
use crate::rle::lemma_expand_snoc;
use crate::rle::lemma_rle_compress_shape;
use crate::rle::lemma_rle_roundtrip;
use crate::rle::rle_compress;
use crate::rle::rle_decode_frame;
use crate::rle::rle_encode_frame;
use crate::rle::rle_expand;
use crate::video_view;

verus! {

/// The encoded block of one delta frame: the run-length encoding of the
/// wraparound difference between a frame and its predecessor.
pub open spec fn frame_block(cur: Seq<u8>, prev: Seq<u8>) -> Seq<u8> {
    rle_compress(delta_seq(cur, prev))
}

/// The concatenated blocks of frames `i`, `i + 1`, ... of a video.
pub open spec fn stream_tail(frames: Seq<Seq<u8>>, i: int) -> Seq<u8>
    decreases frames.len() - i,
{
    if i < 1 || i >= frames.len() {
        Seq::empty()
    } else {
        frame_block(frames[i], frames[i - 1]) + stream_tail(frames, i + 1)
    }
}

/// The full header-less stream of a video: frame 0 raw, then one block
/// per later frame, with no delimiters anywhere.
pub open spec fn stream_spec(frames: Seq<Seq<u8>>) -> Seq<u8> {
    if frames.len() == 0 {
        Seq::empty()
    } else {
        frames[0] + stream_tail(frames, 1)
    }
}

/// Boundary inference for one block: scanning `(count, value)` pairs from
/// the front of `s`, the number of bytes consumed when the counts sum to
/// exactly `remaining` — `None` if the tally overshoots, the input runs
/// out first, or the tally is reached mid-pair.
pub open spec fn block_split(s: Seq<u8>, remaining: int) -> Option<int>
    decreases s.len(),
{
    if remaining == 0 {
        Some(0)
    } else if remaining < 0 {
        None
    } else if s.len() < 2 {
        None
    } else {
        match block_split(s.skip(2), remaining - s[0]) {
            Some(n) => Some(n + 2),
            None => None,
        }
    }
}

/// A found block boundary lies at an even offset within the input, and a
/// positive tally means the block holds at least one pair.
pub proof fn lemma_block_split_bounds(s: Seq<u8>, remaining: int)
    ensures
        block_split(s, remaining) matches Some(n) ==> 0 <= n <= s.len() && n % 2 == 0,
        remaining > 0 ==> (block_split(s, remaining) matches Some(n) ==> n >= 2),
    decreases s.len(),
{
    if remaining > 0 && s.len() >= 2 {
        lemma_block_split_bounds(s.skip(2), remaining - s[0]);
    }
}

/// The per-frame parser for everything after the raw first frame: split
/// off one block, expand it, add it (mod 256) onto the previously decoded
/// frame, and continue with the result as the new predecessor.
pub open spec fn parse_tail(s: Seq<u8>, l: int, prev: Seq<u8>) -> Option<Seq<Seq<u8>>>
    decreases s.len(),
    via parse_tail_decreases
{
    if s.len() == 0 {
        Some(Seq::empty())
    } else if l < 1 {
        None
    } else {
        match block_split(s, l) {
            None => None,
            Some(n) => {
                let frame = undelta_seq(rle_expand(s.take(n)), prev);
                match parse_tail(s.skip(n), l, frame) {
                    Some(rest) => Some(seq![frame] + rest),
                    None => None,
                }
            },
        }
    }
}

#[via_fn]
proof fn parse_tail_decreases(s: Seq<u8>, l: int, prev: Seq<u8>) {
    lemma_block_split_bounds(s, l);
}

/// The whole stream parser: the first `l` bytes are frame 0, raw; the
/// rest is parsed block by block.  The empty stream is an empty video;
/// any other stream shorter than `l` is corrupt.
pub open spec fn parse_stream(s: Seq<u8>, l: int) -> Option<Seq<Seq<u8>>> {
    if s.len() == 0 {
        Some(Seq::empty())
    } else if l < 1 || s.len() < l {
        None
    } else {
        match parse_tail(s.skip(l), l, s.take(l)) {
            Some(rest) => Some(seq![s.take(l)] + rest),
            None => None,
        }
    }
}

/// The facts the parser needs about an honestly encoded block: it is
/// nonempty, of even length, its count bytes are positive, and it expands
/// to exactly the frame it encodes.
proof fn lemma_frame_block_facts(cur: Seq<u8>, prev: Seq<u8>)
    requires
        cur.len() == prev.len(),
        cur.len() >= 1,
    ensures
        frame_block(cur, prev).len() >= 2,
        frame_block(cur, prev).len() % 2 == 0,
        forall|k: int|
            0 <= 2 * k < frame_block(cur, prev).len() ==> 1 <= #[trigger] frame_block(cur, prev)[2
                * k] <= 255,
        rle_expand(frame_block(cur, prev)) == delta_seq(cur, prev),
        rle_expand(frame_block(cur, prev)).len() == cur.len(),
{
    let d = delta_seq(cur, prev);
    lemma_rle_compress_shape(d, 0);
    lemma_rle_roundtrip(d);
    crate::rle::lemma_run_from_bounds(d, 0);
}

/// Scanning an honestly encoded block followed by anything finds the
/// boundary exactly at the end of the block: within the block every count
/// byte is positive, so the tally reaches the frame length only there.
proof fn lemma_block_split_of_block(p: Seq<u8>, rest: Seq<u8>, l: int)
    requires
        p.len() % 2 == 0,
        forall|k: int| 0 <= 2 * k < p.len() ==> 1 <= #[trigger] p[2 * k],
        rle_expand(p).len() == l,
    ensures
        block_split(p + rest, l) == Some(p.len() as int),
    decreases p.len(),
{
    if p.len() == 0 {
        assert(rle_expand(p).len() == 0);
        assert(block_split(p + rest, 0) == Some(0int));
    } else {
        let s = p + rest;
        assert(p[0] >= 1) by {
            assert(0 <= 2 * 0 < p.len());
        }
        assert(rle_expand(p) == Seq::new(p[0] as nat, |k: int| p[1]) + rle_expand(p.skip(2)));
        assert(l == p[0] + rle_expand(p.skip(2)).len());
        assert(s.len() >= 2 && s[0] == p[0]);
        assert(s.skip(2) =~= p.skip(2) + rest);
        assert forall|k: int| 0 <= 2 * k < p.skip(2).len() implies 1 <= #[trigger] p.skip(2)[2
            * k] by {
            assert(p.skip(2)[2 * k] == p[2 * (k + 1)]);
        }
        lemma_block_split_of_block(p.skip(2), rest, l - p[0]);
    }
}

/// Decoding the stream of an honestly encoded video recovers every frame:
/// the tail parser, started after frame `i - 1`, yields frames `i` and
/// onwards.
proof fn lemma_parse_tail_inverse(frames: Seq<Seq<u8>>, l: int, i: int)
    requires
        l >= 1,
        1 <= i <= frames.len(),
        forall|t: int| 0 <= t < frames.len() ==> #[trigger] frames[t].len() == l,
    ensures
        parse_tail(stream_tail(frames, i), l, frames[i - 1]) == Some(frames.skip(i)),
    decreases frames.len() - i,
{
    if i == frames.len() {
        assert(stream_tail(frames, i) =~= Seq::<u8>::empty());
        assert(frames.skip(i) =~= Seq::<Seq<u8>>::empty());
    } else {
        let b = frame_block(frames[i], frames[i - 1]);
        let t = stream_tail(frames, i + 1);
        let s = stream_tail(frames, i);
        assert(s == b + t);
        lemma_frame_block_facts(frames[i], frames[i - 1]);
        lemma_block_split_of_block(b, t, l);
        assert(s.len() > 0);
        assert(block_split(s, l) == Some(b.len() as int));
        assert(s.take(b.len() as int) =~= b);
        assert(s.skip(b.len() as int) =~= t);
        lemma_delta_seq_roundtrip(frames[i], frames[i - 1]);
        assert(undelta_seq(rle_expand(b), frames[i - 1]) == frames[i]);
        lemma_parse_tail_inverse(frames, l, i + 1);
        assert(parse_tail(s, l, frames[i - 1]) == Some(seq![frames[i]] + frames.skip(i + 1)));
        assert(seq![frames[i]] + frames.skip(i + 1) =~= frames.skip(i));
    }
}

/// Round trip: for any video whose frames all have the (positive) decoded
/// length `l`, parsing the serialized stream reproduces the frame
/// sequence exactly.
pub proof fn lemma_stream_roundtrip(frames: Seq<Seq<u8>>, l: int)
    requires
        l >= 1,
        forall|t: int| 0 <= t < frames.len() ==> #[trigger] frames[t].len() == l,
    ensures
        parse_stream(stream_spec(frames), l) == Some(frames),
{
    if frames.len() == 0 {
        assert(stream_spec(frames).len() == 0);
        assert(frames =~= Seq::<Seq<u8>>::empty());
    } else {
        let s = stream_spec(frames);
        assert(s == frames[0] + stream_tail(frames, 1));
        assert(s.len() >= l);
        assert(s.take(l) =~= frames[0]);
        assert(s.skip(l) =~= stream_tail(frames, 1));
        lemma_parse_tail_inverse(frames, l, 1);
        assert(parse_stream(s, l) == Some(seq![frames[0]] + frames.skip(1)));
        assert(seq![frames[0]] + frames.skip(1) =~= frames);
    }
}

/// Dropping the last byte of an honestly encoded block leaves no valid
/// block: the tally now reaches the frame length only mid-pair.
proof fn lemma_block_truncated(p: Seq<u8>, l: int)
    requires
        p.len() % 2 == 0,
        p.len() >= 2,
        forall|k: int| 0 <= 2 * k < p.len() ==> 1 <= #[trigger] p[2 * k],
        rle_expand(p).len() == l,
    ensures
        block_split(p.take(p.len() - 1), l) == None::<int>,
    decreases p.len(),
{
    let trunc = p.take(p.len() - 1);
    assert(p[0] >= 1) by {
        assert(0 <= 2 * 0 < p.len());
    }
    assert(rle_expand(p) == Seq::new(p[0] as nat, |k: int| p[1]) + rle_expand(p.skip(2)));
    assert(l >= p[0] >= 1);
    if p.len() == 2 {
        assert(trunc.len() == 1);
    } else {
        assert(trunc[0] == p[0]);
        assert(trunc.skip(2) =~= p.skip(2).take(p.skip(2).len() - 1));
        assert forall|k: int| 0 <= 2 * k < p.skip(2).len() implies 1 <= #[trigger] p.skip(2)[2
            * k] by {
            assert(p.skip(2)[2 * k] == p[2 * (k + 1)]);
        }
        lemma_block_truncated(p.skip(2), l - p[0]);
    }
}

/// Dropping the last byte of the stream makes the tail parser fail from
/// frame `i` on: every earlier boundary is still found, and the final
/// block is rejected.
proof fn lemma_parse_tail_truncated(frames: Seq<Seq<u8>>, l: int, i: int)
    requires
        l >= 1,
        1 <= i < frames.len(),
        forall|t: int| 0 <= t < frames.len() ==> #[trigger] frames[t].len() == l,
    ensures
        parse_tail(
            stream_tail(frames, i).take(stream_tail(frames, i).len() - 1),
            l,
            frames[i - 1],
        ) == None::<Seq<Seq<u8>>>,
    decreases frames.len() - i,
{
    let b = frame_block(frames[i], frames[i - 1]);
    let t = stream_tail(frames, i + 1);
    let s = stream_tail(frames, i);
    assert(s == b + t);
    lemma_frame_block_facts(frames[i], frames[i - 1]);
    let trunc = s.take(s.len() - 1);
    if i == frames.len() - 1 {
        assert(t =~= Seq::<u8>::empty());
        assert(trunc =~= b.take(b.len() - 1));
        lemma_block_truncated(b, l);
        assert(trunc.len() > 0);
    } else {
        lemma_frame_block_facts(frames[i + 1], frames[i]);
        assert(t == frame_block(frames[i + 1], frames[i]) + stream_tail(frames, i + 2));
        assert(t.len() >= 2);
        assert(trunc =~= b + t.take(t.len() - 1));
        lemma_block_split_of_block(b, t.take(t.len() - 1), l);
        assert(block_split(trunc, l) == Some(b.len() as int));
        assert(trunc.take(b.len() as int) =~= b);
        assert(trunc.skip(b.len() as int) =~= t.take(t.len() - 1));
        lemma_delta_seq_roundtrip(frames[i], frames[i - 1]);
        assert(undelta_seq(rle_expand(b), frames[i - 1]) == frames[i]);
        lemma_parse_tail_truncated(frames, l, i + 1);
        assert(trunc.len() > 0);
    }
}

/// Corruption detection: truncating the final byte of the encoded stream
/// of any nonempty video makes decoding fail — never a silently short or
/// garbled frame.  (With a decoded frame length of 1 — below any real
/// YUV420 frame — a truncated single-frame stream would be empty, which
/// reads as an empty video, so `l >= 2` is required.)
pub proof fn lemma_stream_truncated(frames: Seq<Seq<u8>>, l: int)
    requires
        l >= 2,
        frames.len() >= 1,
        forall|t: int| 0 <= t < frames.len() ==> #[trigger] frames[t].len() == l,
    ensures
        parse_stream(stream_spec(frames).take(stream_spec(frames).len() - 1), l)
            == None::<Seq<Seq<u8>>>,
{
    let s = stream_spec(frames);
    let t = stream_tail(frames, 1);
    assert(s == frames[0] + t);
    let trunc = s.take(s.len() - 1);
    if frames.len() == 1 {
        assert(t =~= Seq::<u8>::empty());
        assert(s =~= frames[0]);
        assert(trunc.len() == l - 1);
        assert(trunc.len() != 0 && trunc.len() < l);
    } else {
        lemma_frame_block_facts(frames[1], frames[0]);
        assert(t == frame_block(frames[1], frames[0]) + stream_tail(frames, 2));
        assert(t.len() >= 2);
        assert(trunc =~= frames[0] + t.take(t.len() - 1));
        assert(trunc.len() >= l && trunc.len() != 0);
        assert(trunc.take(l) =~= frames[0]);
        assert(trunc.skip(l) =~= t.take(t.len() - 1));
        lemma_parse_tail_truncated(frames, l, 1);
    }
}

/// The first frame is stored raw: the stream of any nonempty video begins
/// with frame 0's own bytes, untouched by delta or run-length coding.
pub proof fn lemma_first_frame_raw(frames: Seq<Seq<u8>>)
    requires
        frames.len() > 0,
    ensures
        stream_spec(frames).take(frames[0].len() as int) == frames[0],
        stream_spec(frames).skip(frames[0].len() as int) == stream_tail(frames, 1),
{
    assert(stream_spec(frames).take(frames[0].len() as int) =~= frames[0]);
    assert(stream_spec(frames).skip(frames[0].len() as int) =~= stream_tail(frames, 1));
}

/// Serialize a video into one flat header-less byte stream: frame 0 raw,
/// every later frame as the run-length-encoded wraparound difference
/// against its predecessor, with no delimiters.
pub fn encode_stream(frames: &Vec<Frame>) -> (s: Vec<u8>)
    requires
        forall|i: int|
            0 <= i < frames@.len() ==> #[trigger] frames@[i]@.len() == frames@[0]@.len()
                && frames@[i]@.len() >= 1,
    ensures
        s@ == stream_spec(video_view(frames@)),
{
    let ghost fv = video_view(frames@);
    let n = frames.len();
    if n == 0 {
        let s: Vec<u8> = Vec::new();
        proof {
            assert(stream_spec(fv) =~= Seq::<u8>::empty());
        }
        return s;
    }
    let mut s = crate::rle::copy_frame(&frames[0]);
    let mut i: usize = 1;
    while i < n
        invariant
            n == frames@.len(),
            fv == video_view(frames@),
            n > 0,
            1 <= i <= n,
            forall|t: int|
                0 <= t < frames@.len() ==> #[trigger] frames@[t]@.len() == frames@[0]@.len()
                    && frames@[t]@.len() >= 1,
            s@ + stream_tail(fv, i as int) == stream_spec(fv),
        decreases n - i,
    {
        let delta = crate::delta::delta_encode(&frames[i], &frames[i - 1]);
        let mut block = rle_encode_frame(&delta);
        let ghost s_before = s@;
        let ghost block_view = block@;
        s.append(&mut block);
        proof {
            assert(block_view == frame_block(fv[i as int], fv[i as int - 1]));
            assert(stream_tail(fv, i as int) == block_view + stream_tail(fv, i as int + 1));
            assert((s_before + block_view) + stream_tail(fv, i as int + 1) =~= s_before + (
            block_view + stream_tail(fv, i as int + 1)));
        }
        i = i + 1;
    }
    proof {
        assert(stream_tail(fv, n as int) =~= Seq::<u8>::empty());
        assert(s@ + Seq::<u8>::empty() =~= s@);
    }
    s
}

/// `Some(n + d)` where `o` is `Some(n)`, else `None`: how many bytes of
/// the whole stream a partly scanned block accounts for.
spec fn opt_shift(o: Option<int>, d: int) -> Option<int> {
    match o {
        Some(n) => Some(n + d),
        None => None,
    }
}

/// The frames already decoded, followed by whatever the tail parser still
/// finds — `None` as soon as the remainder is corrupt.
spec fn opt_prepend(pre: Seq<Seq<u8>>, rest: Option<Seq<Seq<u8>>>) -> Option<Seq<Seq<u8>>> {
    match rest {
        Some(r) => Some(pre + r),
        None => None,
    }
}

/// A partly scanned block: consuming `p`'s pairs from a tally budget of
/// `rem` never exhausts it — every intermediate remainder, the final one
/// included, stays positive, so the frame is not yet complete.
spec fn partial_block(p: Seq<u8>, rem: int) -> bool
    decreases p.len(),
{
    if p.len() == 0 {
        rem > 0
    } else if p.len() == 1 {
        false
    } else {
        p[0] < rem && partial_block(p.skip(2), rem - p[0])
    }
}

/// Scanning a partly consumed block followed by anything first walks the
/// block, then continues into the continuation with the remaining budget.
proof fn lemma_partial_block_split(p: Seq<u8>, rem: int, rest: Seq<u8>)
    requires
        partial_block(p, rem),
    ensures
        rle_expand(p).len() < rem,
        block_split(p + rest, rem) == opt_shift(
            block_split(rest, rem - rle_expand(p).len()),
            p.len() as int,
        ),
    decreases p.len(),
{
    if p.len() == 0 {
        assert(p + rest =~= rest);
        assert(rle_expand(p).len() == 0);
        match block_split(rest, rem) {
            Some(n) => {},
            None => {},
        }
    } else {
        let s = p + rest;
        assert(s.len() >= 2 && s[0] == p[0]);
        assert(s.skip(2) =~= p.skip(2) + rest);
        assert(rle_expand(p) == Seq::new(p[0] as nat, |k: int| p[1]) + rle_expand(p.skip(2)));
        lemma_partial_block_split(p.skip(2), rem - p[0], rest);
        match block_split(rest, rem - rle_expand(p).len()) {
            Some(n) => {},
            None => {},
        }
    }
}

/// A partly scanned block stays partly scanned when one more pair arrives
/// whose count keeps the tally strictly under the budget.
proof fn lemma_partial_block_extend(p: Seq<u8>, rem: int, c: u8, v: u8)
    requires
        p.len() % 2 == 0,
        partial_block(p, rem),
        c < rem - rle_expand(p).len(),
    ensures
        partial_block(p + seq![c, v], rem),
        rle_expand(p + seq![c, v]).len() == rle_expand(p).len() + c,
    decreases p.len(),
{
    lemma_expand_snoc(p, c, v);
    let q = p + seq![c, v];
    if p.len() == 0 {
        assert(rle_expand(p).len() == 0);
        assert(q.skip(2) =~= Seq::<u8>::empty());
        assert(partial_block(q.skip(2), rem - c));
        assert(q.len() == 2 && q[0] == c);
        assert(partial_block(q, rem));
    } else {
        assert(q.len() >= 2 && q[0] == p[0]);
        assert(q.skip(2) =~= p.skip(2) + seq![c, v]);
        assert(rle_expand(p) == Seq::new(p[0] as nat, |k: int| p[1]) + rle_expand(p.skip(2)));
        lemma_partial_block_extend(p.skip(2), rem - p[0], c, v);
        assert(partial_block(q.skip(2), rem - q[0]));
        assert(partial_block(q, rem));
    }
}

/// The incremental finite-state stream decoder of the design: an explicit
/// parser object with a mode (raw first frame vs. pair scanning, told
/// apart by whether any frame is decoded yet), the buffer of the frame
/// being assembled, and the running decoded-byte tally.  It is driven one
/// byte at a time by any chunked or byte-at-a-time reader, with no
/// re-scanning, and decides completion and corruption exactly as
/// [`parse_stream`] does.
pub struct StreamDecoder {
    /// The externally known decoded length of every frame.
    frame_len: usize,
    /// The frames decoded so far, in order.
    frames: Vec<Frame>,
    /// The bytes of the frame currently being assembled: raw bytes while
    /// frame 0 is read, `(count, value)` pairs afterwards.  Odd length
    /// means a count byte is pending its value byte.
    accumulated: Frame,
    /// The bytes the current frame will expand to once complete, tallied
    /// so far.
    decoded_count: usize,
    /// All bytes fed in so far.
    consumed: Ghost<Seq<u8>>,
}

impl StreamDecoder {
    /// Every byte sequence fed so far.
    pub closed spec fn consumed_bytes(&self) -> Seq<u8> {
        self.consumed@
    }

    /// The decoded frame length this decoder was built for.
    pub closed spec fn frame_len_spec(&self) -> usize {
        self.frame_len
    }

    /// The decoder's invariant: its state is exactly the state of
    /// [`parse_stream`] after the consumed bytes, frame boundaries
    /// decided and nothing re-scanned.
    pub closed spec fn wf(&self) -> bool {
        let l = self.frame_len as int;
        let acc = self.accumulated@;
        &&& self.frame_len >= 1
        &&& (forall|t: int|
            0 <= t < self.frames@.len() ==> (#[trigger] self.frames@[t]@.len()) == self.frame_len)
        &&& if self.frames@.len() == 0 {
            // raw-frame mode: everything consumed belongs to frame 0
            &&& acc == self.consumed@
            &&& acc.len() == self.decoded_count
            &&& self.decoded_count < self.frame_len
        } else {
            // pair mode: the tally never reached `l` since the last frame
            &&& self.decoded_count <= self.frame_len
            &&& if acc.len() % 2 == 0 {
                &&& partial_block(acc, l)
                &&& rle_expand(acc).len() == self.decoded_count
                &&& self.decoded_count < self.frame_len
            } else {
                &&& partial_block(acc.take(acc.len() - 1), l)
                &&& rle_expand(acc.take(acc.len() - 1)).len() + acc.last() == self.decoded_count
            }
            &&& (forall|rest: Seq<u8>|
                (#[trigger] parse_stream(self.consumed@ + rest, l)) == opt_prepend(
                    video_view(self.frames@),
                    parse_tail(acc + rest, l, self.frames@[self.frames@.len() - 1]@),
                ))
        }
    }

    /// A fresh decoder for streams of frames that decode to `frame_len`
    /// bytes each.
    pub fn new(frame_len: usize) -> (d: StreamDecoder)
        requires
            frame_len >= 1,
        ensures
            d.wf(),
            d.consumed_bytes() == Seq::<u8>::empty(),
            d.frame_len_spec() == frame_len,
    {
        StreamDecoder {
            frame_len,
            frames: Vec::new(),
            accumulated: Vec::new(),
            decoded_count: 0,
            consumed: Ghost(Seq::empty()),
        }
    }

    /// Feed one byte.  An error means no stream beginning with the bytes
    /// fed so far can be valid, whatever might follow; the byte is then
    /// rejected and the decoder left as it was.
    pub fn push_byte(&mut self, byte: u8) -> (r: Result<(), CodecError>)
        requires
            old(self).wf(),
        ensures
            final(self).wf(),
            final(self).frame_len_spec() == old(self).frame_len_spec(),
            match r {
                Ok(_) => final(self).consumed_bytes() == old(self).consumed_bytes().push(byte),
                Err(e) => {
                    &&& final(self).consumed_bytes() == old(self).consumed_bytes()
                    &&& e is CorruptStream
                    &&& forall|rest: Seq<u8>|
                        parse_stream(
                            old(self).consumed_bytes().push(byte) + rest,
                            old(self).frame_len_spec() as int,
                        ) is None
                },
            },
    {
        let ghost l = self.frame_len as int;
        let ghost old_consumed = self.consumed@;
        let ghost old_acc = self.accumulated@;
        let ghost old_frames = self.frames@;
        if self.frames.len() == 0 {
            // raw mode: the byte goes into frame 0 as it is
            self.accumulated.push(byte);
            self.decoded_count = self.decoded_count + 1;
            self.consumed = Ghost(self.consumed@.push(byte));
            if self.decoded_count == self.frame_len {
                // frame 0 complete: it needs no further decoding
                let frame = crate::rle::copy_frame(&self.accumulated);
                self.frames.push(frame);
                self.accumulated = Vec::new();
                self.decoded_count = 0;
                proof {
                    let f0 = self.consumed@;
                    assert(f0.len() == l);
                    assert forall|rest: Seq<u8>|
                        (#[trigger] parse_stream(self.consumed@ + rest, l)) == opt_prepend(
                            video_view(self.frames@),
                            parse_tail(
                                self.accumulated@ + rest,
                                l,
                                self.frames@[self.frames@.len() - 1]@,
                            ),
                        ) by {
                        let s = f0 + rest;
                        assert(s.len() >= l && s.len() != 0);
                        assert(s.take(l) =~= f0);
                        assert(s.skip(l) =~= rest);
                        assert(self.accumulated@ + rest =~= rest);
                        assert(video_view(self.frames@) =~= seq![f0]);
                        match parse_tail(rest, l, f0) {
                            Some(r2) => {},
                            None => {},
                        }
                    }
                }
            }
            Ok(())
        } else if self.accumulated.len() % 2 == 0 {
            // pair mode, count byte: it raises the tally
            let rem = self.frame_len - self.decoded_count;
            if byte as usize > rem {
                // overshoot: no continuation can make this stream valid
                proof {
                    assert forall|rest: Seq<u8>|
                        parse_stream(old_consumed.push(byte) + rest, l) is None by {
                        let big = seq![byte] + rest;
                        assert(old_consumed.push(byte) + rest =~= old_consumed + big);
                        assert(parse_stream(old_consumed + big, l) == opt_prepend(
                            video_view(old_frames),
                            parse_tail(old_acc + big, l, old_frames[old_frames.len() - 1]@),
                        ));
                        lemma_partial_block_split(old_acc, l, big);
                        assert((old_acc + big).len() > 0);
                        if rest.len() == 0 {
                            assert(big.len() == 1);
                            assert(block_split(big, rem as int) is None);
                        } else {
                            assert(big.len() >= 2 && big[0] == byte);
                            assert(block_split(big.skip(2), rem - byte) is None);
                            assert(block_split(big, rem as int) is None);
                        }
                        assert(parse_tail(old_acc + big, l, old_frames[old_frames.len() - 1]@)
                            is None);
                    }
                }
                return Err(CodecError::CorruptStream { frame_index: self.frames.len() });
            }
            self.accumulated.push(byte);
            self.decoded_count = self.decoded_count + byte as usize;
            self.consumed = Ghost(self.consumed@.push(byte));
            proof {
                assert(self.accumulated@.take(self.accumulated@.len() - 1) =~= old_acc);
                assert forall|rest: Seq<u8>|
                    (#[trigger] parse_stream(self.consumed@ + rest, l)) == opt_prepend(
                        video_view(self.frames@),
                        parse_tail(
                            self.accumulated@ + rest,
                            l,
                            self.frames@[self.frames@.len() - 1]@,
                        ),
                    ) by {
                    let big = seq![byte] + rest;
                    assert(self.consumed@ + rest =~= old_consumed + big);
                    assert(self.accumulated@ + rest =~= old_acc + big);
                    assert(parse_stream(old_consumed + big, l) == opt_prepend(
                        video_view(old_frames),
                        parse_tail(old_acc + big, l, old_frames[old_frames.len() - 1]@),
                    ));
                }
            }
            Ok(())
        } else {
            // pair mode, value byte: it completes the pending pair
            let ghost acc_even = old_acc.take(old_acc.len() - 1);
            let ghost c = old_acc.last();
            self.accumulated.push(byte);
            self.consumed = Ghost(self.consumed@.push(byte));
            proof {
                assert(self.accumulated@ =~= acc_even + seq![c, byte]);
            }
            if self.decoded_count == self.frame_len {
                // the tally is at `l` on a pair boundary: frame complete
                let delta = match rle_decode_frame(&self.accumulated, self.frame_len) {
                    Ok(d) => d,
                    Err(_) => {
                        proof {
                            lemma_expand_snoc(acc_even, c, byte);
                            assert(rle_expand(self.accumulated@).len() == l);
                            assert(false);
                        }
                        Vec::new()
                    },
                };
                let last_index = self.frames.len() - 1;
                let decoded_frame = crate::delta::delta_decode(&delta, &self.frames[last_index]);
                let ghost full = self.accumulated@;
                self.frames.push(decoded_frame);
                self.accumulated = Vec::new();
                self.decoded_count = 0;
                proof {
                    let prev = old_frames[old_frames.len() - 1]@;
                    lemma_expand_snoc(acc_even, c, byte);
                    assert forall|rest: Seq<u8>|
                        (#[trigger] parse_stream(self.consumed@ + rest, l)) == opt_prepend(
                            video_view(self.frames@),
                            parse_tail(
                                self.accumulated@ + rest,
                                l,
                                self.frames@[self.frames@.len() - 1]@,
                            ),
                        ) by {
                        let big = seq![byte] + rest;
                        assert(self.consumed@ + rest =~= old_consumed + big);
                        assert(parse_stream(old_consumed + big, l) == opt_prepend(
                            video_view(old_frames),
                            parse_tail(old_acc + big, l, prev),
                        ));
                        let s = old_acc + big;
                        assert(s =~= full + rest);
                        lemma_partial_block_split(acc_even, l, seq![c, byte] + rest);
                        assert(full + rest =~= acc_even + (seq![c, byte] + rest));
                        let pair_on = seq![c, byte] + rest;
                        assert(pair_on.len() >= 2 && pair_on[0] == c);
                        assert(c == l - rle_expand(acc_even).len());
                        assert(pair_on.skip(2) =~= rest);
                        assert(block_split(pair_on, c as int) == opt_shift(
                            block_split(rest, 0),
                            2,
                        ));
                        assert(block_split(s, l) == Some(full.len() as int));
                        assert(s.len() > 0);
                        assert(s.take(full.len() as int) =~= full);
                        assert(s.skip(full.len() as int) =~= rest);
                        assert(undelta_seq(rle_expand(full), prev) == decoded_frame@);
                        assert(self.accumulated@ + rest =~= rest);
                        match parse_tail(rest, l, decoded_frame@) {
                            Some(r2) => {
                                assert(parse_tail(s, l, prev) == Some(seq![decoded_frame@] + r2));
                                assert(video_view(old_frames) + (seq![decoded_frame@] + r2) =~= (
                                video_view(old_frames) + seq![decoded_frame@]) + r2);
                                assert(video_view(self.frames@) =~= video_view(old_frames)
                                    + seq![decoded_frame@]);
                            },
                            None => {
                                assert(parse_tail(s, l, prev) is None);
                            },
                        }
                    }
                }
                Ok(())
            } else {
                // pair complete, frame not yet: back to expecting a count
                proof {
                    assert(c < l - rle_expand(acc_even).len());
                    lemma_partial_block_extend(acc_even, l, c, byte);
                    assert forall|rest: Seq<u8>|
                        (#[trigger] parse_stream(self.consumed@ + rest, l)) == opt_prepend(
                            video_view(self.frames@),
                            parse_tail(
                                self.accumulated@ + rest,
                                l,
                                self.frames@[self.frames@.len() - 1]@,
                            ),
                        ) by {
                        let big = seq![byte] + rest;
                        assert(self.consumed@ + rest =~= old_consumed + big);
                        assert(self.accumulated@ + rest =~= old_acc + big);
                        assert(parse_stream(old_consumed + big, l) == opt_prepend(
                            video_view(old_frames),
                            parse_tail(old_acc + big, l, old_frames[old_frames.len() - 1]@),
                        ));
                    }
                }
                Ok(())
            }
        }
    }

    /// End of input.  Succeeds exactly when no frame is half assembled:
    /// the result is every decoded frame, in order, and an error means
    /// the stream ended before the tally reached the frame length, or
    /// mid-pair.
    pub fn finish(self) -> (r: Result<Vec<Frame>, CodecError>)
        requires
            self.wf(),
        ensures
            match r {
                Ok(frames) => parse_stream(self.consumed_bytes(), self.frame_len_spec() as int)
                    == Some(video_view(frames@)),
                Err(e) => parse_stream(self.consumed_bytes(), self.frame_len_spec() as int)
                    is None && e is CorruptStream,
            },
    {
        let ghost l = self.frame_len as int;
        if self.frames.len() == 0 {
            if self.accumulated.len() == 0 {
                proof {
                    assert(video_view(self.frames@) =~= Seq::<Seq<u8>>::empty());
                }
                Ok(self.frames)
            } else {
                // the stream ended inside the raw first frame
                Err(CodecError::CorruptStream { frame_index: 0 })
            }
        } else {
            proof {
                assert(self.consumed@ + Seq::<u8>::empty() =~= self.consumed@);
                assert(parse_stream(self.consumed@ + Seq::<u8>::empty(), l) == opt_prepend(
                    video_view(self.frames@),
                    parse_tail(
                        self.accumulated@ + Seq::<u8>::empty(),
                        l,
                        self.frames@[self.frames@.len() - 1]@,
                    ),
                ));
                assert(self.accumulated@ + Seq::<u8>::empty() =~= self.accumulated@);
            }
            if self.accumulated.len() == 0 {
                proof {
                    assert(video_view(self.frames@) + Seq::<Seq<u8>>::empty() =~= video_view(
                        self.frames@,
                    ));
                }
                Ok(self.frames)
            } else {
                // the stream ended with a frame half assembled
                proof {
                    let acc = self.accumulated@;
                    if acc.len() % 2 == 0 {
                        lemma_partial_block_split(acc, l, Seq::empty());
                        assert(acc + Seq::<u8>::empty() =~= acc);
                        assert(block_split(
                            Seq::<u8>::empty(),
                            l - rle_expand(acc).len(),
                        ) is None);
                    } else {
                        let acc_even = acc.take(acc.len() - 1);
                        let c = acc.last();
                        lemma_partial_block_split(acc_even, l, seq![c]);
                        assert(acc =~= acc_even + seq![c]);
                        assert(block_split(seq![c], l - rle_expand(acc_even).len()) is None);
                    }
                    assert(block_split(acc, l) is None);
                }
                Err(CodecError::CorruptStream { frame_index: self.frames.len() })
            }
        }
    }
}

/// Decode a header-less stream back into frames, given only the decoded
/// frame length `l`, by driving the incremental [`StreamDecoder`] over
/// the whole buffer.  Fails with `CorruptStream`, naming the frame being
/// assembled, exactly when the stream is not a valid serialization:
/// the tally overshoots `l`, the stream ends before reaching it, or a
/// frame boundary falls mid-pair.
pub fn decode_stream(stream: &Vec<u8>, l: usize) -> (r: Result<Vec<Frame>, CodecError>)
    requires
        l >= 1,
    ensures
        match r {
            Ok(frames) => parse_stream(stream@, l as int) == Some(video_view(frames@)),
            Err(e) => parse_stream(stream@, l as int) is None && e is CorruptStream,
        },
{
    let mut decoder = StreamDecoder::new(l);
    let n = stream.len();
    let mut i: usize = 0;
    while i < n
        invariant
            l >= 1,
            n == stream@.len(),
            0 <= i <= n,
            decoder.wf(),
            decoder.frame_len_spec() == l,
            decoder.consumed_bytes() == stream@.take(i as int),
        decreases n - i,
    {
        match decoder.push_byte(stream[i]) {
            Ok(_) => {
                proof {
                    assert(stream@.take(i as int).push(stream@[i as int]) =~= stream@.take(i + 1));
                }
            },
            Err(e) => {
                proof {
                    let fed = stream@.take(i as int).push(stream@[i as int]);
                    assert(parse_stream(fed + stream@.skip(i + 1), l as int) is None);
                    assert(fed + stream@.skip(i + 1) =~= stream@);
                }
                return Err(e);
            },
        }
        i = i + 1;
    }
    proof {
        assert(stream@.take(n as int) =~= stream@);
    }
    decoder.finish()
}

} // verus!

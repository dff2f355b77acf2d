//! Temporal delta coding: wraparound (mod-256) per-byte differences between
//! a frame and the previously decoded frame.  Each byte is independent; no
//! borrow crosses byte boundaries.  Frame 0 of a video bypasses this stage.

use vstd::prelude::*;

use crate::Frame;

verus! {

/// The wraparound difference of two bytes: `(a - b) mod 256`.
pub open spec fn delta_byte(a: u8, b: u8) -> u8 {
    ((a + 256 - b) % 256) as u8
}

/// The wraparound sum of two bytes: `(d + b) mod 256`.
pub open spec fn undelta_byte(d: u8, b: u8) -> u8 {
    ((d + b) % 256) as u8
}

/// Pointwise wraparound difference of two equal-length byte sequences.
pub open spec fn delta_seq(cur: Seq<u8>, prev: Seq<u8>) -> Seq<u8> {
    Seq::new(cur.len(), |i: int| delta_byte(cur[i], prev[i]))
}

/// Pointwise wraparound sum of two equal-length byte sequences.
pub open spec fn undelta_seq(delta: Seq<u8>, prev: Seq<u8>) -> Seq<u8> {
    Seq::new(delta.len(), |i: int| undelta_byte(delta[i], prev[i]))
}

/// Delta coding is exactly invertible under mod-256 arithmetic:
/// `undelta_byte(delta_byte(a, b), b) == a` for all byte pairs.
pub proof fn lemma_delta_byte_roundtrip(a: u8, b: u8)
    ensures
        undelta_byte(delta_byte(a, b), b) == a,
{
    if a >= b {
        assert(delta_byte(a, b) == a - b);
    } else {
        assert(delta_byte(a, b) == a + 256 - b);
    }
}

/// Sequence form of delta invertibility: adding a delta sequence back onto
/// the frame it was computed against reproduces the original frame.
pub proof fn lemma_delta_seq_roundtrip(cur: Seq<u8>, prev: Seq<u8>)
    requires
        cur.len() == prev.len(),
    ensures
        undelta_seq(delta_seq(cur, prev), prev) == cur,
{
    let d = delta_seq(cur, prev);
    assert forall|i: int| 0 <= i < cur.len() implies undelta_seq(d, prev)[i] == cur[i] by {
        lemma_delta_byte_roundtrip(cur[i], prev[i]);
    }
    assert(undelta_seq(d, prev) =~= cur);
}

/// One byte of delta encoding, written with explicit mod-256 arithmetic so
/// the wraparound semantics are auditable rather than inherited from a
/// machine type.
pub fn encode_delta(a: u8, b: u8) -> (d: u8)
    ensures
        d == delta_byte(a, b),
{
    (((a as u16) + 256 - (b as u16)) % 256) as u8
}

/// One byte of delta decoding: the mod-256 inverse of [`encode_delta`].
pub fn decode_delta(d: u8, b: u8) -> (a: u8)
    ensures
        a == undelta_byte(d, b),
{
    (((d as u16) + (b as u16)) % 256) as u8
}

/// Delta-encode a whole frame against the previously decoded frame.
pub fn delta_encode(cur: &Frame, prev: &Frame) -> (delta: Frame)
    requires
        cur@.len() == prev@.len(),
    ensures
        delta@ == delta_seq(cur@, prev@),
{
    let mut delta: Frame = Vec::new();
    let n = cur.len();
    let mut i: usize = 0;
    while i < n
        invariant
            n == cur@.len(),
            cur@.len() == prev@.len(),
            0 <= i <= n,
            delta@ == delta_seq(cur@, prev@).take(i as int),
        decreases n - i,
    {
        let d = encode_delta(cur[i], prev[i]);
        delta.push(d);
        assert(delta@ =~= delta_seq(cur@, prev@).take(i + 1));
        i = i + 1;
    }
    assert(delta@ =~= delta_seq(cur@, prev@));
    delta
}

/// Reverse of [`delta_encode`]: add a delta frame (mod 256) onto the
/// previously decoded frame.
pub fn delta_decode(delta: &Frame, prev: &Frame) -> (cur: Frame)
    requires
        delta@.len() == prev@.len(),
    ensures
        cur@ == undelta_seq(delta@, prev@),
{
    let mut cur: Frame = Vec::new();
    let n = delta.len();
    let mut i: usize = 0;
    while i < n
        invariant
            n == delta@.len(),
            delta@.len() == prev@.len(),
            0 <= i <= n,
            cur@ == undelta_seq(delta@, prev@).take(i as int),
        decreases n - i,
    {
        let a = decode_delta(delta[i], prev[i]);
        cur.push(a);
        assert(cur@ =~= undelta_seq(delta@, prev@).take(i + 1));
        i = i + 1;
    }
    assert(cur@ =~= undelta_seq(delta@, prev@));
    cur
}

} // verus!

//! Where one side of the queue stands: a segment and a byte offset in it,
//! and the bytes under which that position is kept on disk.
use vstd::prelude::*;
use crate::format::{decode_header, encode_header, lemma_u32_be_roundtrip, u32_be, u32_from_be};

verus! {

/// The size past which the sender caps a segment off and starts the next one
/// (4 MiB).
pub const SEGMENT_SIZE: u64 = 0x40_0000;

/// The length of the saved form of a `QueueState`.
pub const STATE_BYTES: usize = 16;

/// A position in the queue: a segment number and a byte offset in it.
#[derive(Clone, Copy, Debug, PartialEq, Eq, Structural)]
pub struct QueueState {
    pub segment: u64,
    pub position: u64,
}

/// The eight bytes of `x`, most significant first.
pub open spec fn u64_be(x: u64) -> Seq<u8> {
    u32_be((x / 0x1_0000_0000) as u32) + u32_be((x % 0x1_0000_0000) as u32)
}

/// The number that eight bytes spell, most significant first.
pub open spec fn u64_from_be(s: Seq<u8>) -> int {
    u32_from_be(s.take(4)) * 0x1_0000_0000 + u32_from_be(s.skip(4))
}

/// The saved form of a state: the segment, then the position.
pub open spec fn state_bytes(st: QueueState) -> Seq<u8> {
    u64_be(st.segment) + u64_be(st.position)
}

/// The state that sixteen saved bytes describe.
pub open spec fn state_from_bytes(s: Seq<u8>) -> QueueState {
    QueueState {
        segment: u64_from_be(s.take(8)) as u64,
        position: u64_from_be(s.skip(8)) as u64,
    }
}

/// The state after `n` more bytes of the current segment.
pub open spec fn advanced(st: QueueState, n: int) -> QueueState {
    QueueState { segment: st.segment, position: (st.position + n) as u64 }
}

/// The state at the start of the segment after the current one.
pub open spec fn next_segment(st: QueueState) -> QueueState {
    QueueState { segment: (st.segment + 1) as u64, position: 0 }
}

/// Both directions of the eight-byte encoding undo each other.
pub proof fn lemma_u64_be_roundtrip(x: u64, s: Seq<u8>)
    ensures
        u64_be(x).len() == 8,
        u64_from_be(u64_be(x)) == x,
        s.len() == 8 ==> u64_be(u64_from_be(s) as u64) == s,
        s.len() == 8 ==> 0 <= u64_from_be(s) <= u64::MAX,
{
    let hi = (x / 0x1_0000_0000) as u32;
    let lo = (x % 0x1_0000_0000) as u32;
    lemma_u32_be_roundtrip(hi, s);
    lemma_u32_be_roundtrip(lo, s);
    assert(u64_be(x).take(4) =~= u32_be(hi));
    assert(u64_be(x).skip(4) =~= u32_be(lo));
    assert(hi * 0x1_0000_0000 + lo == x) by (nonlinear_arith)
        requires
            hi == x / 0x1_0000_0000,
            lo == x % 0x1_0000_0000,
    ;
    if s.len() == 8 {
        lemma_u32_be_roundtrip(0, s.take(4));
        lemma_u32_be_roundtrip(0, s.skip(4));
        let a = u32_from_be(s.take(4));
        let b = u32_from_be(s.skip(4));
        let y = a * 0x1_0000_0000 + b;
        assert(0 <= y <= u64::MAX && y / 0x1_0000_0000 == a && y % 0x1_0000_0000 == b)
            by (nonlinear_arith)
            requires
                0 <= a <= u32::MAX,
                0 <= b <= u32::MAX,
                y == a * 0x1_0000_0000 + b,
        ;
        assert(u64_be(y as u64) =~= s.take(4) + s.skip(4));
        assert(s.take(4) + s.skip(4) =~= s);
    }
}

/// Reading the saved form of a state gives that state back.
pub proof fn lemma_state_bytes_roundtrip(st: QueueState)
    ensures
        state_bytes(st).len() == STATE_BYTES,
        state_from_bytes(state_bytes(st)) == st,
{
    lemma_u64_be_roundtrip(st.segment, Seq::empty());
    lemma_u64_be_roundtrip(st.position, Seq::empty());
    assert(state_bytes(st).take(8) =~= u64_be(st.segment));
    assert(state_bytes(st).skip(8) =~= u64_be(st.position));
}

/// Saving the state that sixteen bytes describe gives those bytes back.
pub proof fn lemma_state_bytes_canonical(s: Seq<u8>)
    requires
        s.len() == STATE_BYTES,
    ensures
        state_bytes(state_from_bytes(s)) == s,
{
    lemma_u64_be_roundtrip(0, s.take(8));
    lemma_u64_be_roundtrip(0, s.skip(8));
    assert(s.take(8) + s.skip(8) =~= s);
}

/// Appends the eight bytes of `x` to `out`.
fn append_u64(out: &mut Vec<u8>, x: u64)
    ensures
        final(out)@ == old(out)@ + u64_be(x),
{
    let hi = encode_header((x / 0x1_0000_0000) as u32);
    let lo = encode_header((x % 0x1_0000_0000) as u32);
    let mut k: usize = 0;
    while k < 4
        invariant
            k <= 4,
            hi@ == u32_be((x / 0x1_0000_0000) as u32),
            out@ == old(out)@ + hi@.take(k as int),
        decreases 4 - k,
    {
        out.push(hi[k]);
        k = k + 1;
        assert(out@ =~= old(out)@ + hi@.take(k as int));
    }
    let mut j: usize = 0;
    while j < 4
        invariant
            j <= 4,
            hi@ == u32_be((x / 0x1_0000_0000) as u32),
            lo@ == u32_be((x % 0x1_0000_0000) as u32),
            out@ == old(out)@ + hi@ + lo@.take(j as int),
        decreases 4 - j,
    {
        out.push(lo[j]);
        j = j + 1;
        assert(out@ =~= old(out)@ + hi@ + lo@.take(j as int));
    }
    assert(lo@.take(4) =~= lo@);
    assert(out@ =~= old(out)@ + u64_be(x));
}

/// The number that the eight bytes at offset `p` of `s` spell.
fn decode_u64(s: &[u8], p: usize) -> (r: u64)
    requires
        p + 8 <= s@.len(),
    ensures
        r == u64_from_be(s@.subrange(p as int, p + 8)),
{
    let n = s.len();
    assert(p + 8 <= n);
    let hi = decode_header(s, p);
    let lo = decode_header(s, p + 4);
    let ghost w = s@.subrange(p as int, p + 8);
    assert(w.take(4) =~= s@.subrange(p as int, p + 4));
    assert(w.skip(4) =~= s@.subrange(p + 4, p + 8));
    assert(hi as u64 * 0x1_0000_0000 + lo as u64 <= u64::MAX) by (nonlinear_arith)
        requires
            hi <= u32::MAX,
            lo <= u32::MAX,
    ;
    hi as u64 * 0x1_0000_0000 + lo as u64
}

impl QueueState {
    /// The start of the first segment.
    pub fn new() -> (r: QueueState)
        ensures
            r.segment == 0,
            r.position == 0,
    {
        QueueState { segment: 0, position: 0 }
    }

    /// Whether the position lies past the nominal size of a segment.
    pub fn is_past_end(&self) -> (r: bool)
        ensures
            r == (self.position > SEGMENT_SIZE),
    {
        self.position > SEGMENT_SIZE
    }

    /// Moves the position `offset` bytes further into the segment.
    pub fn advance_position(&mut self, offset: u64)
        requires
            old(self).position + offset <= u64::MAX,
        ensures
            *final(self) == advanced(*old(self), offset as int),
    {
        self.position = self.position + offset;
    }

    /// Moves to the start of the next segment and returns its number.
    pub fn advance_segment(&mut self) -> (r: u64)
        requires
            old(self).segment < u64::MAX,
        ensures
            *final(self) == next_segment(*old(self)),
            r == final(self).segment,
    {
        self.position = 0;
        self.segment = self.segment + 1;
        self.segment
    }

    /// The saved form of this state.
    pub fn to_bytes(&self) -> (r: Vec<u8>)
        ensures
            r@ == state_bytes(*self),
            r@.len() == STATE_BYTES,
    {
        let mut r: Vec<u8> = Vec::new();
        append_u64(&mut r, self.segment);
        append_u64(&mut r, self.position);
        proof {
            lemma_state_bytes_roundtrip(*self);
        }
        assert(r@ =~= state_bytes(*self));
        r
    }

    /// The state that a saved form describes, or `None` where `bytes` is not
    /// sixteen bytes long.
    pub fn from_bytes(bytes: &[u8]) -> (r: Option<QueueState>)
        ensures
            r == (if bytes@.len() == STATE_BYTES {
                Some(state_from_bytes(bytes@))
            } else {
                None::<QueueState>
            }),
    {
        if bytes.len() != STATE_BYTES {
            return None;
        }
        let segment = decode_u64(bytes, 0);
        let position = decode_u64(bytes, 8);
        assert(bytes@.subrange(0, 8) =~= bytes@.take(8));
        assert(bytes@.subrange(8, 16) =~= bytes@.skip(8));
        Some(QueueState { segment, position })
    }
}

} // verus!

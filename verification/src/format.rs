//! The byte layout of a segment file.
//!
//! A segment is a run of records. Each record is a four-byte big-endian
//! length header followed by that many bytes of payload. A header holding
//! `u32::MAX` is no record: it marks the end of the segment, and the reader
//! continues at the start of the next segment.
use vstd::prelude::*;

verus! {

/// The header value that marks the end of a segment.
pub const HEADER_EOF: u32 = 0xffff_ffff;

/// The four bytes of `x`, most significant first.
pub open spec fn u32_be(x: u32) -> Seq<u8> {
    seq![
        (x / 0x100_0000) as u8,
        ((x / 0x1_0000) % 0x100) as u8,
        ((x / 0x100) % 0x100) as u8,
        (x % 0x100) as u8,
    ]
}

/// The number that four bytes spell, most significant first.
pub open spec fn u32_from_be(s: Seq<u8>) -> int {
    s[0] * 0x100_0000 + s[1] * 0x1_0000 + s[2] * 0x100 + s[3]
}

/// The bytes of one record carrying `data`.
pub open spec fn record(data: Seq<u8>) -> Seq<u8> {
    u32_be(data.len() as u32) + data
}

/// The bytes that cap a segment off.
pub open spec fn eof_marker() -> Seq<u8> {
    u32_be(HEADER_EOF)
}

/// The bytes of a run of records, one per item, in order.
pub open spec fn frame(items: Seq<Seq<u8>>) -> Seq<u8>
    decreases items.len(),
{
    if items.len() == 0 {
        Seq::empty()
    } else {
        frame(items.drop_last()) + record(items.last())
    }
}

/// Whether every item fits in a record (its length is below the marker value).
pub open spec fn all_fit(items: Seq<Seq<u8>>) -> bool {
    forall|k: int| 0 <= k < items.len() ==> #[trigger] items[k].len() < HEADER_EOF
}

/// The header value that starts at offset `p` of `s`.
pub open spec fn header_at(s: Seq<u8>, p: int) -> int {
    u32_from_be(s.subrange(p, p + 4))
}

/// Reads the record whose header starts at offset `p` of segment `i`, taking
/// the header as a length whatever its value. The result is the payload and
/// the position just after it, or `None` when the bytes at hand end before
/// the whole record does.
pub open spec fn read_record(segs: Seq<Seq<u8>>, i: int, p: int) -> Option<(Seq<u8>, int, int)> {
    if i < 0 || i >= segs.len() || p < 0 || p + 4 > segs[i].len() {
        None
    } else if p + 4 + header_at(segs[i], p) > segs[i].len() {
        None
    } else {
        Some((segs[i].subrange(p + 4, p + 4 + header_at(segs[i], p)), i, p + 4 + header_at(segs[i], p)))
    }
}

/// Reads the next record of a run of segments, starting at offset `p` of
/// segment `i`. An end-of-segment marker sends the reader to the start of the
/// next segment, where the header found there is read as the length of a
/// record, once, whatever its value. The result is the payload and the
/// position just after it, or `None` when the bytes at hand end before a
/// whole record does.
pub open spec fn read_next(segs: Seq<Seq<u8>>, i: int, p: int) -> Option<(Seq<u8>, int, int)> {
    if i < 0 || i >= segs.len() || p < 0 || p + 4 > segs[i].len() {
        None
    } else if header_at(segs[i], p) == HEADER_EOF {
        read_record(segs, i + 1, 0)
    } else {
        read_record(segs, i, p)
    }
}

/// Reads `n` records in a row, as `read_next` does one.
pub open spec fn read_many(segs: Seq<Seq<u8>>, i: int, p: int, n: nat) -> Option<(Seq<Seq<u8>>, int, int)>
    decreases n,
{
    if n == 0 {
        Some((Seq::empty(), i, p))
    } else {
        match read_many(segs, i, p, (n - 1) as nat) {
            None => None,
            Some((items, i2, p2)) => match read_next(segs, i2, p2) {
                None => None,
                Some((x, i3, p3)) => Some((items.push(x), i3, p3)),
            },
        }
    }
}

/// The contents of a run of byte vectors.
pub open spec fn contents(segs: Seq<Vec<u8>>) -> Seq<Seq<u8>> {
    segs.map_values(|v: Vec<u8>| v@)
}

/// Both directions of the header encoding undo each other.
pub proof fn lemma_u32_be_roundtrip(x: u32, s: Seq<u8>)
    ensures
        u32_be(x).len() == 4,
        u32_from_be(u32_be(x)) == x,
        s.len() == 4 ==> u32_be(u32_from_be(s) as u32) == s,
        s.len() == 4 ==> 0 <= u32_from_be(s) <= u32::MAX,
{
    assert(u32_from_be(u32_be(x)) == x) by (nonlinear_arith);
    if s.len() == 4 {
        let y = u32_from_be(s);
        assert(0 <= y <= u32::MAX) by (nonlinear_arith)
            requires
                y == s[0] * 0x100_0000 + s[1] * 0x1_0000 + s[2] * 0x100 + s[3],
                0 <= s[0] < 256, 0 <= s[1] < 256, 0 <= s[2] < 256, 0 <= s[3] < 256,
        ;
        let z = y as u32;
        assert((z / 0x100_0000) as u8 == s[0] && ((z / 0x1_0000) % 0x100) as u8 == s[1]
            && ((z / 0x100) % 0x100) as u8 == s[2] && (z % 0x100) as u8 == s[3]) by (nonlinear_arith)
            requires
                z == s[0] * 0x100_0000 + s[1] * 0x1_0000 + s[2] * 0x100 + s[3],
                0 <= s[0] < 256, 0 <= s[1] < 256, 0 <= s[2] < 256, 0 <= s[3] < 256,
        ;
        assert(u32_be(u32_from_be(s) as u32) =~= s);
    }
}

/// The four header bytes of a record of `len` bytes.
pub fn encode_header(len: u32) -> (r: Vec<u8>)
    ensures
        r@ == u32_be(len),
{
    let mut r: Vec<u8> = Vec::new();
    r.push((len / 0x100_0000) as u8);
    r.push(((len / 0x1_0000) % 0x100) as u8);
    r.push(((len / 0x100) % 0x100) as u8);
    r.push((len % 0x100) as u8);
    assert(r@ =~= u32_be(len));
    r
}

/// The bytes that cap a segment off.
pub fn eof_header() -> (r: Vec<u8>)
    ensures
        r@ == eof_marker(),
        r@.len() == 4,
{
    encode_header(HEADER_EOF)
}

/// The header value that starts at offset `p` of `s`.
pub fn decode_header(s: &[u8], p: usize) -> (h: u32)
    requires
        p + 4 <= s@.len(),
    ensures
        h == header_at(s@, p as int),
{
    let b0 = s[p];
    let b1 = s[p + 1];
    let b2 = s[p + 2];
    let b3 = s[p + 3];
    b0 as u32 * 0x100_0000 + b1 as u32 * 0x1_0000 + b2 as u32 * 0x100 + b3 as u32
}

/// Appends one record carrying `data` to `out`.
pub fn append_record(out: &mut Vec<u8>, data: &[u8])
    requires
        data@.len() < HEADER_EOF,
    ensures
        final(out)@ == old(out)@ + record(data@),
{
    let header = encode_header(data.len() as u32);
    let mut k: usize = 0;
    while k < 4
        invariant
            k <= 4,
            header@ == u32_be(data@.len() as u32),
            out@ == old(out)@ + header@.take(k as int),
        decreases 4 - k,
    {
        out.push(header[k]);
        k = k + 1;
        assert(out@ =~= old(out)@ + header@.take(k as int));
    }
    let mut j: usize = 0;
    while j < data.len()
        invariant
            j <= data@.len(),
            header@ == u32_be(data@.len() as u32),
            out@ == old(out)@ + header@ + data@.take(j as int),
        decreases data@.len() - j,
    {
        out.push(data[j]);
        j = j + 1;
        assert(out@ =~= old(out)@ + header@ + data@.take(j as int));
    }
    assert(data@.take(data@.len() as int) =~= data@);
    assert(out@ =~= old(out)@ + record(data@));
}

/// The bytes of one record carrying `data`.
pub fn encode_record(data: &[u8]) -> (r: Vec<u8>)
    requires
        data@.len() < HEADER_EOF,
    ensures
        r@ == record(data@),
{
    let mut r: Vec<u8> = Vec::new();
    append_record(&mut r, data);
    assert(r@ =~= record(data@));
    r
}

/// The bytes of a run of records, one per item, in order.
pub fn encode_batch(items: &Vec<Vec<u8>>) -> (r: Vec<u8>)
    requires
        all_fit(contents(items@)),
    ensures
        r@ == frame(contents(items@)),
{
    let ghost all = contents(items@);
    let mut r: Vec<u8> = Vec::new();
    let mut k: usize = 0;
    while k < items.len()
        invariant
            k <= items@.len(),
            all == contents(items@),
            all_fit(all),
            r@ == frame(all.take(k as int)),
        decreases items@.len() - k,
    {
        assert(all[k as int] == items@[k as int]@);
        assert(items@[k as int]@.len() < HEADER_EOF);
        append_record(&mut r, items[k].as_slice());
        proof {
            let t = all.take(k + 1);
            assert(t.drop_last() =~= all.take(k as int));
            assert(t.last() == all[k as int]);
        }
        k = k + 1;
    }
    assert(all.take(items@.len() as int) =~= all);
    r
}

} // verus!

//! The receiving side: reading records back, in order, across segments, and
//! moving the receiver's position only when a read is committed.
//!
//! The receiver is handed the bytes of the queue as it stands: the first
//! vector holds its current segment from its position on, each further vector
//! the whole of the segment after the one before. Where those bytes end before
//! the records asked for do, nothing is read, and the caller waits for the
//! sender and asks again.
use vstd::prelude::*;
use vstd::slice::{slice_subrange, slice_to_vec};
use crate::format::{contents, decode_header, header_at, read_many, read_next, read_record, HEADER_EOF};
use crate::state::{state_bytes, QueueState};

verus! {

/// Whether `predicate` may have answered `answer` for the bytes `x`.
pub open spec fn answered<P: Fn(&[u8]) -> bool>(predicate: P, x: Seq<u8>, answer: bool) -> bool {
    exists|s: &[u8]| s@ == x && #[trigger] predicate.ensures((s,), answer)
}

/// Whether `predicate` may have accepted every item of `xs`.
pub open spec fn all_accepted<P: Fn(&[u8]) -> bool>(predicate: P, xs: Seq<Seq<u8>>) -> bool {
    forall|k: int| 0 <= k < xs.len() ==> answered(predicate, #[trigger] xs[k], true)
}

/// The state of a receiver that started at `st` and read up to offset `p` of
/// the `i`-th segment handed to it (counting the current one as the zeroth).
pub open spec fn cursor_state(st: QueueState, i: int, p: int) -> QueueState {
    QueueState {
        segment: (st.segment + i) as u64,
        position: (if i == 0 {
            st.position + p
        } else {
            p
        }) as u64,
    }
}

/// Whether the segment numbers and positions that reading `segs` from `st`
/// can reach all fit in a `u64`.
pub open spec fn fits(st: QueueState, segs: Seq<Seq<u8>>) -> bool {
    &&& st.segment + segs.len() <= u64::MAX
    &&& segs.len() > 0 ==> st.position + segs[0].len() <= u64::MAX
}

/// Reads the record whose header starts at offset `p` of segment `i`,
/// whatever the header's value.
fn read_record_at(segs: &Vec<Vec<u8>>, i: usize, p: usize) -> (r: Option<(Vec<u8>, usize, usize)>)
    ensures
        match r {
            None => read_record(contents(segs@), i as int, p as int) is None,
            Some((x, i2, p2)) => read_record(contents(segs@), i as int, p as int) == Some(
                (x@, i2 as int, p2 as int),
            ),
        },
{
    if i >= segs.len() {
        return None;
    }
    let seg = segs[i].as_slice();
    assert(contents(segs@)[i as int] == seg@);
    if p > seg.len() || seg.len() - p < 4 {
        return None;
    }
    let h = decode_header(seg, p);
    if seg.len() - p - 4 < h as usize {
        return None;
    }
    let end = p + 4 + h as usize;
    let x = slice_to_vec(slice_subrange(seg, p + 4, end));
    Some((x, i, end))
}

/// Reads the next record of `segs` from offset `p` of segment `i`.
fn read_next_at(segs: &Vec<Vec<u8>>, i: usize, p: usize) -> (r: Option<(Vec<u8>, usize, usize)>)
    ensures
        match r {
            None => read_next(contents(segs@), i as int, p as int) is None,
            Some((x, i2, p2)) => read_next(contents(segs@), i as int, p as int) == Some(
                (x@, i2 as int, p2 as int),
            ),
        },
{
    if i >= segs.len() {
        return None;
    }
    let seg = segs[i].as_slice();
    assert(contents(segs@)[i as int] == seg@);
    if p > seg.len() || seg.len() - p < 4 {
        return None;
    }
    let h = decode_header(seg, p);
    if h == HEADER_EOF {
        read_record_at(segs, i + 1, 0)
    } else {
        read_record_at(segs, i, p)
    }
}

/// Reads `n` records of `segs` in a row from offset `p0` of segment `i0`.
fn read_many_at(segs: &Vec<Vec<u8>>, i0: usize, p0: usize, n: usize) -> (r: Option<(Vec<Vec<u8>>, usize, usize)>)
    ensures
        match r {
            None => read_many(contents(segs@), i0 as int, p0 as int, n as nat) is None,
            Some((xs, i2, p2)) => read_many(contents(segs@), i0 as int, p0 as int, n as nat) == Some(
                (contents(xs@), i2 as int, p2 as int),
            ),
        },
{
    let ghost c = contents(segs@);
    let mut items: Vec<Vec<u8>> = Vec::new();
    let mut i = i0;
    let mut p = p0;
    let mut k: usize = 0;
    assert(contents(items@) =~= Seq::<Seq<u8>>::empty());
    while k < n
        invariant
            k <= n,
            c == contents(segs@),
            read_many(c, i0 as int, p0 as int, k as nat) == Some((contents(items@), i as int, p as int)),
        decreases n - k,
    {
        match read_next_at(segs, i, p) {
            None => {
                proof {
                    lemma_read_many_stops(c, i0 as int, p0 as int, k as nat, n as nat);
                }
                return None;
            },
            Some((x, i2, p2)) => {
                let ghost before = items@;
                items.push(x);
                assert(contents(items@) =~= contents(before).push(x@));
                i = i2;
                p = p2;
                k = k + 1;
            },
        }
    }
    Some((items, i, p))
}

/// Once a read of `k` records succeeds and the next record is missing, no
/// read of more records succeeds.
proof fn lemma_read_many_stops(c: Seq<Seq<u8>>, i: int, p: int, k: nat, n: nat)
    requires
        k < n,
        read_many(c, i, p, k) matches Some((_, i2, p2)) && read_next(c, i2, p2) is None,
    ensures
        read_many(c, i, p, n) is None,
    decreases n,
{
    if n > k + 1 {
        lemma_read_many_stops(c, i, p, k, (n - 1) as nat);
    }
}

/// The receiving side of a queue: its position is that of the first record
/// not yet committed.
pub struct Receiver {
    state: QueueState,
}

impl View for Receiver {
    type V = QueueState;

    closed spec fn view(&self) -> QueueState {
        self.state
    }
}

/// A read that has not been committed yet. It holds what was read, where the
/// receiver stood when it was read, and where the receiver stands once it is
/// committed. Dropping it leaves the receiver where it was, so the same
/// records are read again.
pub struct RecvGuard<T> {
    item: T,
    span: Span,
}

/// Where a read starts and where it ends; it never ends in an earlier
/// segment than it starts.
struct Span {
    start: QueueState,
    end: QueueState,
}

impl Span {
    #[verifier::type_invariant]
    spec fn well_formed(self) -> bool {
        self.start.segment <= self.end.segment
    }
}

impl<T> RecvGuard<T> {

    /// What was read.
    pub closed spec fn item(self) -> T {
        self.item
    }

    /// Where the receiver stood when it read.
    pub closed spec fn start(self) -> QueueState {
        self.span.start
    }

    /// Where the receiver stands once the read is committed.
    pub closed spec fn end(self) -> QueueState {
        self.span.end
    }

    /// What was read, by reference.
    pub fn get(&self) -> (r: &T)
        ensures
            *r == self.item(),
    {
        &self.item
    }

    /// What was read, to change in place.
    pub fn get_mut(&mut self) -> (r: &mut T)
        ensures
            *r == old(self).item(),
            final(self).item() == *final(r),
            final(self).start() == old(self).start(),
            final(self).end() == old(self).end(),
    {
        &mut self.item
    }

    /// Where the receiver stood when it read.
    pub fn start_state(&self) -> (r: QueueState)
        ensures
            r == self.start(),
    {
        self.span.start
    }

    /// Where the receiver stands once the read is committed.
    pub fn end_state(&self) -> (r: QueueState)
        ensures
            r == self.end(),
    {
        self.span.end
    }

    /// The segments that this read leaves behind once committed, in order:
    /// their files are no longer needed.
    pub fn finished_segments(&self) -> (r: Vec<u64>)
        ensures
            r@.len() == self.end().segment - self.start().segment,
            forall|k: int| 0 <= k < r@.len() ==> #[trigger] r@[k] == self.start().segment + k,
    {
        proof {
            use_type_invariant(&self.span);
        }
        let start = self.span.start.segment;
        let end = self.span.end.segment;
        let mut r: Vec<u64> = Vec::new();
        let mut s = start;
        while s < end
            invariant
                start <= s <= end,
                r@.len() == s - start,
                forall|k: int| 0 <= k < r@.len() ==> #[trigger] r@[k] == start + k,
            decreases end - s,
        {
            r.push(s);
            s = s + 1;
        }
        r
    }

    /// Commits the read and returns what was read: the receiver moves past it.
    pub fn into_inner(self, receiver: &mut Receiver) -> (r: T)
        requires
            old(receiver)@ == self.start(),
        ensures
            final(receiver)@ == self.end(),
            r == self.item(),
    {
        receiver.state = self.span.end;
        self.item
    }

    /// Commits the read: the receiver moves past what was read.
    pub fn commit(self, receiver: &mut Receiver)
        requires
            old(receiver)@ == self.start(),
        ensures
            final(receiver)@ == self.end(),
    {
        receiver.state = self.span.end;
    }
}

impl Receiver {
    /// A receiver that stands at `state`.
    pub fn open(state: QueueState) -> (r: Receiver)
        ensures
            r@ == state,
    {
        Receiver { state }
    }

    /// Where the receiver stands.
    pub fn state(&self) -> (r: QueueState)
        ensures
            r == self@,
    {
        self.state
    }

    /// The saved form of the receiver's position.
    pub fn save(&self) -> (r: Vec<u8>)
        ensures
            r@ == state_bytes(self@),
    {
        self.state.to_bytes()
    }

    /// Whether `segs` can be handed to a read: the segment numbers and
    /// positions it reaches fit in a `u64`.
    pub fn can_read(&self, segs: &Vec<Vec<u8>>) -> (r: bool)
        ensures
            r == fits(self@, contents(segs@)),
            r <==> (self@.segment + segs@.len() <= u64::MAX && (segs@.len() > 0 ==> self@.position
                + segs@[0]@.len() <= u64::MAX)),
    {
        if self.state.segment > u64::MAX - segs.len() as u64 {
            return false;
        }
        if segs.len() > 0 {
            assert(contents(segs@)[0] == segs@[0]@);
            self.state.position <= u64::MAX - segs[0].len() as u64
        } else {
            true
        }
    }

    /// Reads the next record. `segs` holds the current segment from the
    /// receiver's position on, then the segments after it. The result is
    /// `None` where those bytes end before a whole record does.
    pub fn recv(&self, segs: &Vec<Vec<u8>>) -> (r: Option<RecvGuard<Vec<u8>>>)
        requires
            fits(self@, contents(segs@)),
        ensures
            match r {
                None => read_next(contents(segs@), 0, 0) is None,
                Some(g) => {
                    &&& read_next(contents(segs@), 0, 0) matches Some((x, i, p))
                    &&& g.item()@ == x
                    &&& g.start() == self@
                    &&& g.end() == cursor_state(self@, i, p)
                },
            },
    {
        match read_next_at(segs, 0, 0) {
            None => None,
            Some((x, i, p)) => {
                proof {
                    lemma_read_next_in_bounds(contents(segs@), 0, 0);
                }
                let end = self.end_of_read(segs, i, p);
                Some(RecvGuard { item: x, span: Span { start: self.state, end } })
            },
        }
    }

    /// Reads the next `n` records. `segs` is as for `recv`. The result is
    /// `None` where those bytes end before the `n`-th record does.
    pub fn recv_batch(&self, n: usize, segs: &Vec<Vec<u8>>) -> (r: Option<RecvGuard<Vec<Vec<u8>>>>)
        requires
            fits(self@, contents(segs@)),
        ensures
            match r {
                None => read_many(contents(segs@), 0, 0, n as nat) is None,
                Some(g) => {
                    &&& read_many(contents(segs@), 0, 0, n as nat) matches Some((xs, i, p))
                    &&& contents(g.item()@) == xs
                    &&& g.start() == self@
                    &&& g.end() == cursor_state(self@, i, p)
                },
            },
    {
        match read_many_at(segs, 0, 0, n) {
            None => None,
            Some((xs, i, p)) => {
                proof {
                    lemma_read_many_in_bounds(contents(segs@), 0, 0, n as nat);
                }
                let end = self.end_of_read(segs, i, p);
                Some(RecvGuard { item: xs, span: Span { start: self.state, end } })
            },
        }
    }

    /// Reads records for as long as `predicate` accepts them. `segs` is as for
    /// `recv`. The result holds the records accepted before the first one
    /// that `predicate` rejects; that one stays in the queue. The result is
    /// `None` where `segs` ends before a record is rejected.
    pub fn recv_while<P: Fn(&[u8]) -> bool>(&self, segs: &Vec<Vec<u8>>, predicate: P) -> (r: Option<
        RecvGuard<Vec<Vec<u8>>>,
    >)
        requires
            fits(self@, contents(segs@)),
            forall|s: &[u8]| #[trigger] predicate.requires((s,)),
        ensures
            match r {
                None => exists|n: nat|
                    {
                        &&& #[trigger] read_many(contents(segs@), 0, 0, n) matches Some((xs, i, p))
                        &&& all_accepted(predicate, xs)
                        &&& read_next(contents(segs@), i, p) is None
                    },
                Some(g) => {
                    &&& read_many(contents(segs@), 0, 0, g.item()@.len()) matches Some((xs, i, p))
                    &&& contents(g.item()@) == xs
                    &&& all_accepted(predicate, xs)
                    &&& read_next(contents(segs@), i, p) matches Some((y, _, _))
                    &&& answered(predicate, y, false)
                    &&& g.start() == self@
                    &&& g.end() == cursor_state(self@, i, p)
                },
            },
    {
        let ghost c = contents(segs@);
        let mut items: Vec<Vec<u8>> = Vec::new();
        let mut i: usize = 0;
        let mut p: usize = 0;
        assert(contents(items@) =~= Seq::<Seq<u8>>::empty());
        loop
            invariant
                c == contents(segs@),
                fits(self@, c),
                forall|s: &[u8]| #[trigger] predicate.requires((s,)),
                read_many(c, 0, 0, items@.len() as nat) == Some((contents(items@), i as int, p as int)),
                all_accepted(predicate, contents(items@)),
                (i < segs@.len() && p <= segs@[i as int]@.len()) || (i == 0 && p == 0),
            decreases segs@.len() - i, if i < segs@.len() {
                segs@[i as int]@.len() - p
            } else {
                0
            },
        {
            match read_next_at(segs, i, p) {
                None => {
                    assert(read_many(c, 0, 0, items@.len() as nat) is Some);
                    return None;
                },
                Some((x, i2, p2)) => {
                    proof {
                        lemma_read_next_in_bounds(c, i as int, p as int);
                        assert(c[i2 as int] == segs@[i2 as int]@);
                    }
                    if predicate(x.as_slice()) {
                        let ghost before = items@;
                        items.push(x);
                        assert(contents(items@) =~= contents(before).push(x@));
                        assert(all_accepted(predicate, contents(items@))) by {
                            assert forall|k: int| 0 <= k < contents(items@).len() implies answered(
                                predicate,
                                #[trigger] contents(items@)[k],
                                true,
                            ) by {
                                if k < contents(before).len() {
                                    assert(contents(items@)[k] == contents(before)[k]);
                                }
                            }
                        }
                        i = i2;
                        p = p2;
                    } else {
                        let end = self.end_of_read(segs, i, p);
                        return Some(RecvGuard { item: items, span: Span { start: self.state, end } });
                    }
                },
            }
        }
    }

    /// The state of the receiver once it has read up to offset `p` of the
    /// `i`-th segment of `segs`.
    fn end_of_read(&self, segs: &Vec<Vec<u8>>, i: usize, p: usize) -> (r: QueueState)
        requires
            fits(self@, contents(segs@)),
            (i < segs@.len() && p <= segs@[i as int]@.len()) || (i == 0 && p == 0),
        ensures
            r == cursor_state(self@, i as int, p as int),
            r.segment >= self@.segment,
    {
        if i == 0 {
            assert(segs@.len() > 0 ==> contents(segs@)[0] == segs@[0]@);
            QueueState { segment: self.state.segment, position: self.state.position + p as u64 }
        } else {
            QueueState { segment: self.state.segment + i as u64, position: p as u64 }
        }
    }
}

/// A record that is read lies within the segments handed over.
pub proof fn lemma_read_next_in_bounds(c: Seq<Seq<u8>>, i: int, p: int)
    requires
        read_next(c, i, p) is Some,
    ensures
        read_next(c, i, p) matches Some((x, i2, p2)) && i <= i2 < c.len() && 0 <= p2 <= c[i2].len()
            && (i2 == i ==> p + 4 <= p2) && i2 <= i + 1,
{
}

/// A run of records that is read lies within the segments handed over.
pub proof fn lemma_read_many_in_bounds(c: Seq<Seq<u8>>, i: int, p: int, n: nat)
    requires
        read_many(c, i, p, n) is Some,
        0 <= i,
        0 <= p,
    ensures
        read_many(c, i, p, n) matches Some((xs, i2, p2)) && i <= i2 && (i2 == i ==> p <= p2) && (n
            > 0 ==> i2 < c.len() && p2 <= c[i2].len()) && (n == 0 ==> i2 == i && p2 == p),
    decreases n,
{
    if n > 0 {
        lemma_read_many_in_bounds(c, i, p, (n - 1) as nat);
        let (_, i1, p1) = read_many(c, i, p, (n - 1) as nat).unwrap();
        lemma_read_next_in_bounds(c, i1, p1);
    }
}

/// What is left of `segs` for a reader at offset `p` of segment `i`: the rest
/// of that segment, then the segments after it. It is what a receiver that
/// has committed up to there is handed next.
pub open spec fn remaining(segs: Seq<Seq<u8>>, i: int, p: int) -> Seq<Seq<u8>> {
    seq![segs[i].skip(p)] + segs.skip(i + 1)
}

/// Reading from where a receiver stands in `c` gives what reading the
/// remaining bytes from their start gives, with positions counted from there.
pub proof fn lemma_resume(c: Seq<Seq<u8>>, i: int, p: int)
    requires
        0 <= i < c.len(),
        0 <= p <= c[i].len(),
    ensures
        match read_next(c, i, p) {
            None => read_next(remaining(c, i, p), 0, 0) is None,
            Some((x, i2, p2)) => read_next(remaining(c, i, p), 0, 0) == Some(
                (
                    x,
                    i2 - i,
                    if i2 == i {
                        p2 - p
                    } else {
                        p2
                    },
                ),
            ),
        },
{
    let r = remaining(c, i, p);
    let s = c[i];
    assert(r[0] == s.skip(p));
    if p + 4 <= s.len() {
        assert(r[0].subrange(0, 4) =~= s.subrange(p, p + 4));
        if header_at(s, p) == HEADER_EOF {
            if i + 1 < c.len() {
                assert(r[1] == c[i + 1]);
            }
        } else {
            let h = header_at(s, p);
            if p + 4 + h <= s.len() {
                assert(r[0].subrange(4, 4 + h) =~= s.subrange(p + 4, p + 4 + h));
            }
        }
    }
}

/// Committing reads one at a time moves the receiver as committing them in
/// one batch does: a receiver at `st` that reads one record of `c`, commits,
/// and is then handed what remains, reads the next record, and its commit
/// leaves it where a batch read of both records would.
pub proof fn lemma_one_by_one_is_batch(st: QueueState, c: Seq<Seq<u8>>)
    requires
        fits(st, c),
        forall|k: int| 0 <= k < c.len() ==> #[trigger] c[k].len() <= u64::MAX,
        read_many(c, 0, 0, 2) is Some,
    ensures
        read_next(c, 0, 0) is Some,
        ({
            let (xs, i2, p2) = read_many(c, 0, 0, 2).unwrap();
            let (x, i1, p1) = read_next(c, 0, 0).unwrap();
            &&& x == xs[0]
            &&& read_next(remaining(c, i1, p1), 0, 0) is Some
            &&& read_next(remaining(c, i1, p1), 0, 0).unwrap().0 == xs[1]
            &&& cursor_state(
                cursor_state(st, i1, p1),
                read_next(remaining(c, i1, p1), 0, 0).unwrap().1,
                read_next(remaining(c, i1, p1), 0, 0).unwrap().2,
            ) == cursor_state(st, i2, p2)
        }),
{
    let (xs1, i1, p1) = read_many(c, 0, 0, 1).unwrap();
    assert(read_many(c, 0, 0, 0) == Some((Seq::<Seq<u8>>::empty(), 0int, 0int)));
    lemma_read_next_in_bounds(c, 0, 0);
    lemma_read_next_in_bounds(c, i1, p1);
    lemma_resume(c, i1, p1);
}

/// A record that a read leaves behind is the first one read next: where a
/// read of `n` records ends before a further record `y` (as `recv_while` ends
/// before the record it rejects), a receiver that commits it and is handed
/// what remains reads `y`.
pub proof fn lemma_record_left_is_read_next(c: Seq<Seq<u8>>, n: nat)
    requires
        read_many(c, 0, 0, n) matches Some((_, i, p)) && read_next(c, i, p) is Some,
    ensures
        ({
            let (_, i, p) = read_many(c, 0, 0, n).unwrap();
            &&& 0 <= i < c.len()
            &&& 0 <= p <= c[i].len()
            &&& read_next(remaining(c, i, p), 0, 0) is Some
            &&& read_next(remaining(c, i, p), 0, 0).unwrap().0 == read_next(c, i, p).unwrap().0
        }),
{
    let (_, i, p) = read_many(c, 0, 0, n).unwrap();
    lemma_read_many_in_bounds(c, 0, 0, n);
    lemma_read_next_in_bounds(c, i, p);
    lemma_resume(c, i, p);
}

/// Bytes can be handed to a read exactly when the segment numbers and
/// positions they reach fit in a `u64`; nothing else limits them, neither how
/// many segments they span, nor how many bytes they hold, nor that they hold
/// none.
pub proof fn lemma_fits_exact(st: QueueState, segs: Seq<Seq<u8>>)
    ensures
        fits(st, segs) <==> (st.segment + segs.len() <= u64::MAX && (segs.len() > 0 ==> st.position
            + segs[0].len() <= u64::MAX)),
{
}

/// Every window of a queue whose numbers stay far from the `u64` limit can be
/// read, however many segments it spans and however many bytes it holds,
/// including an empty one.
pub proof fn lemma_fits_windows(st: QueueState, segs: Seq<Seq<u8>>)
    requires
        st.segment + segs.len() <= u64::MAX,
        segs.len() > 0 ==> st.position + segs[0].len() <= u64::MAX,
    ensures
        fits(st, segs),
        segs.len() > 0 ==> fits(st, segs.take(1)),
        fits(st, Seq::empty()),
        st.position <= u64::MAX ==> fits(st, seq![Seq::<u8>::empty()]) || st.segment == u64::MAX,
{
}

} // verus!

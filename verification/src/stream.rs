//! What the queue directory holds after a run of sends, and why the receiver
//! reads back exactly what was sent, in order.
//!
//! The directory is modelled as its run of segments, the last of which is the
//! one the sender appends to. A send appends one record to it and, where the
//! sender decides so, caps it off with the end-of-segment marker and opens an
//! empty segment after it. Which sends cap a segment off has no bearing on
//! what is read back.
use vstd::prelude::*;
use crate::receiver::{lemma_read_many_in_bounds, lemma_resume, remaining};
use crate::format::{
    all_fit, eof_marker, frame, header_at, lemma_u32_be_roundtrip, read_many, read_next, read_record, record,
    u32_be, HEADER_EOF,
};

verus! {

/// The directory after appending `bytes` to its last segment.
pub open spec fn append_last(d: Seq<Seq<u8>>, bytes: Seq<u8>) -> Seq<Seq<u8>> {
    d.update(d.len() - 1, d.last() + bytes)
}

/// The directory after capping its last segment off with the end-of-segment
/// marker and opening an empty segment after it.
pub open spec fn cap_off(d: Seq<Seq<u8>>) -> Seq<Seq<u8>> {
    append_last(d, eof_marker()).push(Seq::empty())
}

/// The directory after carrying a send plan out: `bytes` appended to the
/// last segment, which is then capped off where `cap` holds.
pub open spec fn apply_plan(d: Seq<Seq<u8>>, bytes: Seq<u8>, cap: bool) -> Seq<Seq<u8>> {
    if cap {
        cap_off(append_last(d, bytes))
    } else {
        append_last(d, bytes)
    }
}

/// The directory after one send of `x`: its record is appended to the last
/// segment, which is then capped off, and an empty segment opened, if `cap`.
pub open spec fn write_one(d: Seq<Seq<u8>>, x: Seq<u8>, cap: bool) -> Seq<Seq<u8>> {
    apply_plan(d, record(x), cap)
}

/// The directory after sending every item in order, the `k`-th send capping
/// its segment off where `caps[k]` holds.
pub open spec fn written(d: Seq<Seq<u8>>, items: Seq<Seq<u8>>, caps: Seq<bool>) -> Seq<Seq<u8>>
    decreases items.len(),
{
    if items.len() == 0 || caps.len() != items.len() {
        d
    } else {
        write_one(written(d, items.drop_last(), caps.drop_last()), items.last(), caps.last())
    }
}

/// Whether `e` holds all of `d` and more: the same segments but for the last,
/// which may have grown, and possibly further segments after it.
pub open spec fn extends(d: Seq<Seq<u8>>, e: Seq<Seq<u8>>) -> bool {
    &&& d.len() >= 1
    &&& e.len() >= d.len()
    &&& forall|k: int| 0 <= k < d.len() - 1 ==> #[trigger] e[k] == d[k]
    &&& e[d.len() - 1].len() >= d.last().len()
    &&& e[d.len() - 1].take(d.last().len() as int) == d.last()
}

/// Whether offset `p` of segment `i` is where the next record will be
/// written: the end of the last segment, or an end-of-segment marker that
/// leads there.
pub open spec fn at_frontier(d: Seq<Seq<u8>>, i: int, p: int) -> bool {
    ||| d.len() >= 1 && i == d.len() - 1 && p == d[i].len()
    ||| {
        &&& d.len() >= 2
        &&& i == d.len() - 2
        &&& 0 <= p
        &&& p + 4 == d[i].len()
        &&& header_at(d[i], p) == HEADER_EOF
        &&& d.last().len() == 0
    }
}

/// Reading one record is not disturbed by bytes appended after it.
proof fn lemma_read_record_extends(d: Seq<Seq<u8>>, e: Seq<Seq<u8>>, i: int, p: int)
    requires
        extends(d, e),
        read_record(d, i, p) is Some,
    ensures
        read_record(e, i, p) == read_record(d, i, p),
{
    let di = d[i];
    let ei = e[i];
    if i < d.len() - 1 {
        assert(ei.take(di.len() as int) =~= di);
    }
    assert(ei.len() >= di.len() && ei.take(di.len() as int) == di);
    assert(ei.subrange(p, p + 4) =~= ei.take(di.len() as int).subrange(p, p + 4));
    let h = header_at(di, p);
    assert(ei.subrange(p + 4, p + 4 + h) =~= ei.take(di.len() as int).subrange(p + 4, p + 4 + h));
}

/// Reading is not disturbed by bytes appended after what is read.
pub proof fn lemma_read_next_extends(d: Seq<Seq<u8>>, e: Seq<Seq<u8>>, i: int, p: int)
    requires
        extends(d, e),
        read_next(d, i, p) is Some,
    ensures
        read_next(e, i, p) == read_next(d, i, p),
{
    let di = d[i];
    let ei = e[i];
    if i < d.len() - 1 {
        assert(ei.take(di.len() as int) =~= di);
    }
    assert(ei.len() >= di.len() && ei.take(di.len() as int) == di);
    assert(ei.subrange(p, p + 4) =~= ei.take(di.len() as int).subrange(p, p + 4));
    if header_at(di, p) == HEADER_EOF {
        lemma_read_record_extends(d, e, i + 1, 0);
    } else {
        lemma_read_record_extends(d, e, i, p);
    }
}

/// Reading a run of records is not disturbed by bytes appended after them.
pub proof fn lemma_read_many_extends(d: Seq<Seq<u8>>, e: Seq<Seq<u8>>, i: int, p: int, n: nat)
    requires
        extends(d, e),
        read_many(d, i, p, n) is Some,
    ensures
        read_many(e, i, p, n) == read_many(d, i, p, n),
    decreases n,
{
    if n > 0 {
        lemma_read_many_extends(d, e, i, p, (n - 1) as nat);
        let (_, i2, p2) = read_many(d, i, p, (n - 1) as nat).unwrap();
        lemma_read_next_extends(d, e, i2, p2);
    }
}

/// A directory extends itself.
pub proof fn lemma_extends_refl(d: Seq<Seq<u8>>)
    requires
        d.len() >= 1,
    ensures
        extends(d, d),
{
    assert(d.last().take(d.last().len() as int) =~= d.last());
}

/// Extending is transitive.
pub proof fn lemma_extends_trans(a: Seq<Seq<u8>>, b: Seq<Seq<u8>>, c: Seq<Seq<u8>>)
    requires
        extends(a, b),
        extends(b, c),
    ensures
        extends(a, c),
{
    let n = a.len() - 1;
    if b.len() == a.len() {
        assert(c[n].take(a.last().len() as int) =~= c[n].take(b.last().len() as int).take(
            a.last().len() as int,
        ));
    } else {
        assert(c[n] == b[n]);
    }
}

/// A send only adds to the directory.
pub proof fn lemma_write_one_extends(d: Seq<Seq<u8>>, x: Seq<u8>, cap: bool)
    requires
        d.len() >= 1,
    ensures
        extends(d, write_one(d, x, cap)),
        write_one(d, x, cap).len() >= 1,
{
    let a = append_last(d, record(x));
    assert(a[d.len() - 1].take(d.last().len() as int) =~= d.last());
    if cap {
        let b = append_last(a, eof_marker());
        assert(b[d.len() - 1].take(d.last().len() as int) =~= d.last());
    }
}

/// A run of sends only adds to the directory.
pub proof fn lemma_written_extends(d: Seq<Seq<u8>>, items: Seq<Seq<u8>>, caps: Seq<bool>)
    requires
        d.len() >= 1,
    ensures
        extends(d, written(d, items, caps)),
        written(d, items, caps).len() >= 1,
    decreases items.len(),
{
    if items.len() == 0 || caps.len() != items.len() {
        lemma_extends_refl(d);
    } else {
        let w = written(d, items.drop_last(), caps.drop_last());
        lemma_written_extends(d, items.drop_last(), caps.drop_last());
        lemma_write_one_extends(w, items.last(), caps.last());
        lemma_extends_trans(d, w, written(d, items, caps));
    }
}

/// The record at offset `p` of a segment that holds `record(x)` there.
proof fn lemma_record_at(s: Seq<u8>, p: int, x: Seq<u8>)
    requires
        0 <= p,
        x.len() < HEADER_EOF,
        p + 4 + x.len() <= s.len(),
        s.subrange(p, p + 4 + x.len()) == record(x),
    ensures
        header_at(s, p) == x.len(),
        s.subrange(p + 4, p + 4 + x.len()) == x,
{
    let r = record(x);
    lemma_u32_be_roundtrip(x.len() as u32, Seq::empty());
    assert(s.subrange(p, p + 4) =~= r.subrange(0, 4));
    assert(r.subrange(0, 4) =~= u32_be(x.len() as u32));
    assert(s.subrange(p + 4, p + 4 + x.len()) =~= r.subrange(4, 4 + x.len() as int));
    assert(r.subrange(4, 4 + x.len() as int) =~= x);
}

/// Right after one send, the record whose header starts where the last
/// segment used to end holds what was sent, and the reader that reads it
/// ends at the new frontier.
proof fn lemma_record_after_write_one(d: Seq<Seq<u8>>, x: Seq<u8>, cap: bool)
    requires
        d.len() >= 1,
        x.len() < HEADER_EOF,
    ensures
        ({
            let w = write_one(d, x, cap);
            let last = d.len() - 1;
            let q: int = d.last().len() as int + 4 + x.len() as int;
            &&& read_record(w, last, d.last().len() as int) == Some((x, last, q))
            &&& header_at(w[last], d.last().len() as int) != HEADER_EOF
            &&& at_frontier(w, last, q)
        }),
{
    let w = write_one(d, x, cap);
    let last = d.len() - 1;
    let p = d.last().len() as int;
    let a = append_last(d, record(x));
    let s = a[last];
    assert(s =~= d.last() + record(x));
    assert(s.subrange(p, p + 4 + x.len()) =~= record(x));
    lemma_record_at(s, p, x);
    assert(read_record(a, last, p) == Some((x, last, p + 4 + x.len())));
    if cap {
        assert(extends(a, w)) by {
            assert(w[last] =~= s + eof_marker());
            assert(w[last].take(s.len() as int) =~= s);
        }
        lemma_read_record_extends(a, w, last, p);
        let q = p + 4 + x.len();
        assert(w[last] =~= s + eof_marker());
        assert(w[last].subrange(p, p + 4) =~= s.subrange(p, p + 4));
        lemma_u32_be_roundtrip(HEADER_EOF, Seq::empty());
        assert(w[last].subrange(q, q + 4) =~= eof_marker());
    }
}

/// Reading from the frontier, right after one send, gives what was sent,
/// and leaves the reader at the new frontier.
pub proof fn lemma_read_after_write_one(d: Seq<Seq<u8>>, i: int, p: int, x: Seq<u8>, cap: bool)
    requires
        at_frontier(d, i, p),
        x.len() < HEADER_EOF,
    ensures
        read_next(write_one(d, x, cap), i, p) matches Some((y, i2, p2)) && y == x && at_frontier(
            write_one(d, x, cap),
            i2,
            p2,
        ),
{
    let w = write_one(d, x, cap);
    let last = d.len() - 1;
    lemma_record_after_write_one(d, x, cap);
    lemma_write_one_extends(d, x, cap);
    if i == last {
    } else {
        assert(w[i] == d[i]);
    }
}

/// What is sent is read back, in the order it was sent: a reader at the
/// frontier of a directory that then takes a run of sends reads exactly the
/// items sent, whichever of the sends capped a segment off, and ends at the
/// new frontier.
pub proof fn lemma_fifo(d: Seq<Seq<u8>>, i: int, p: int, items: Seq<Seq<u8>>, caps: Seq<bool>)
    requires
        at_frontier(d, i, p),
        all_fit(items),
        caps.len() == items.len(),
    ensures
        read_many(written(d, items, caps), i, p, items.len()) matches Some((xs, i2, p2)) && xs
            == items && at_frontier(written(d, items, caps), i2, p2),
    decreases items.len(),
{
    if items.len() == 0 {
        assert(items =~= Seq::<Seq<u8>>::empty());
    } else {
        let front = items.drop_last();
        let w = written(d, front, caps.drop_last());
        assert(all_fit(front)) by {
            assert forall|k: int| 0 <= k < front.len() implies #[trigger] front[k].len()
                < HEADER_EOF by {
                assert(front[k] == items[k]);
            }
        }
        lemma_fifo(d, i, p, front, caps.drop_last());
        let (xs, i1, p1) = read_many(w, i, p, front.len()).unwrap();
        assert(items.last() == items[items.len() - 1]);
        lemma_read_after_write_one(w, i1, p1, items.last(), caps.last());
        assert(d.len() >= 1);
        lemma_written_extends(d, front, caps.drop_last());
        lemma_write_one_extends(w, items.last(), caps.last());
        lemma_read_many_extends(w, written(d, items, caps), i, p, front.len());
        assert(front.push(items.last()) =~= items);
    }
}

/// Capping the last segment off keeps a reader that stands at its end at
/// the frontier.
pub proof fn lemma_frontier_cap_off(d: Seq<Seq<u8>>, p: int)
    requires
        d.len() >= 1,
        at_frontier(d, d.len() - 1, p),
    ensures
        at_frontier(cap_off(d), d.len() - 1, p),
{
    let c = cap_off(d);
    let last = d.len() - 1;
    assert(c[last] =~= d[last] + eof_marker());
    lemma_u32_be_roundtrip(HEADER_EOF, Seq::empty());
    assert(c[last].subrange(p, p + 4) =~= eof_marker());
}

/// The caps of a batch of `n` sends carried out in one plan: only the last
/// may cap its segment off.
pub open spec fn batch_caps(n: nat, cap: bool) -> Seq<bool> {
    Seq::new(n, |k: int| cap && k == n - 1)
}

/// Carrying out the plan of a batch is sending its items one after another,
/// the last of them capping the segment off where the plan does.
pub proof fn lemma_batch_is_sends(d: Seq<Seq<u8>>, items: Seq<Seq<u8>>, cap: bool)
    requires
        d.len() >= 1,
        items.len() >= 1,
    ensures
        apply_plan(d, frame(items), cap) == written(d, items, batch_caps(items.len(), cap)),
    decreases items.len(),
{
    let n = items.len();
    let front = items.drop_last();
    let caps = batch_caps(n, cap);
    assert(caps.drop_last() =~= batch_caps((n - 1) as nat, false));
    lemma_append_frame(d, front);
    assert(frame(items) == frame(front) + record(items.last()));
    lemma_append_last_twice(d, frame(front), record(items.last()));
    assert(caps.last() == cap);
}

/// Appending two runs of bytes one after the other is appending both at once.
proof fn lemma_append_last_twice(d: Seq<Seq<u8>>, a: Seq<u8>, b: Seq<u8>)
    requires
        d.len() >= 1,
    ensures
        append_last(append_last(d, a), b) == append_last(d, a + b),
{
    let w = append_last(d, a);
    assert(w.last() == d.last() + a);
    assert(w.last() + b =~= d.last() + (a + b));
    assert(append_last(w, b) =~= append_last(d, a + b));
}

/// Appending the records of a batch to the last segment is sending its items
/// one after another without capping.
pub proof fn lemma_append_frame(d: Seq<Seq<u8>>, items: Seq<Seq<u8>>)
    requires
        d.len() >= 1,
    ensures
        append_last(d, frame(items)) == written(d, items, batch_caps(items.len(), false)),
    decreases items.len(),
{
    let n = items.len();
    if n == 0 {
        assert(append_last(d, frame(items)) =~= d);
    } else {
        let front = items.drop_last();
        assert(batch_caps(n, false).drop_last() =~= batch_caps((n - 1) as nat, false));
        lemma_append_frame(d, front);
        assert(frame(items) == frame(front) + record(items.last()));
        lemma_append_last_twice(d, frame(front), record(items.last()));
    }
}

/// What a batch send writes is read back, in order: a reader at the frontier
/// of a directory on which the plan of a batch is carried out reads exactly
/// the items of the batch, and ends at the new frontier. An empty batch that
/// caps a segment off is left out where the reader stands on a marker that
/// already capped the segment before: the next header would then be a
/// second marker, which is read as a length.
pub proof fn lemma_batch_fifo(d: Seq<Seq<u8>>, i: int, p: int, items: Seq<Seq<u8>>, cap: bool)
    requires
        at_frontier(d, i, p),
        all_fit(items),
        items.len() == 0 && cap ==> i == d.len() - 1,
    ensures
        read_many(apply_plan(d, frame(items), cap), i, p, items.len()) matches Some((xs, i2, p2))
            && xs == items && at_frontier(apply_plan(d, frame(items), cap), i2, p2),
{
    if items.len() == 0 {
        assert(items =~= Seq::<Seq<u8>>::empty());
        assert(append_last(d, frame(items)) =~= d);
        if cap {
            lemma_frontier_cap_off(d, p);
        }
    } else {
        lemma_batch_is_sends(d, items, cap);
        lemma_fifo(d, i, p, items, batch_caps(items.len(), cap));
    }
}

/// Reading `n` records in a row reads, on the way, the first `k` of them and
/// then the `k`-th.
proof fn lemma_read_many_prefix(c: Seq<Seq<u8>>, i: int, p: int, n: nat, k: nat)
    requires
        k < n,
        read_many(c, i, p, n) is Some,
    ensures
        read_many(c, i, p, k) is Some,
        ({
            let (ys, ik, pk) = read_many(c, i, p, k).unwrap();
            let xs = read_many(c, i, p, n).unwrap().0;
            &&& ys == xs.take(k as int)
            &&& read_next(c, ik, pk) is Some
            &&& read_next(c, ik, pk).unwrap().0 == xs[k as int]
        }),
    decreases n,
{
    let (xs1, i1, p1) = read_many(c, i, p, (n - 1) as nat).unwrap();
    let (x, _, _) = read_next(c, i1, p1).unwrap();
    let xs = read_many(c, i, p, n).unwrap().0;
    assert(xs == xs1.push(x));
    lemma_read_many_len(c, i, p, (n - 1) as nat);
    assert(xs.take(n - 1) =~= xs1);
    if k + 1 < n {
        lemma_read_many_prefix(c, i, p, (n - 1) as nat, k);
        assert(xs1.take(k as int) =~= xs.take(k as int));
        assert(xs1[k as int] == xs[k as int]);
    }
}

/// Reading `n` records gives `n` records.
proof fn lemma_read_many_len(c: Seq<Seq<u8>>, i: int, p: int, n: nat)
    requires
        read_many(c, i, p, n) is Some,
    ensures
        read_many(c, i, p, n).unwrap().0.len() == n,
    decreases n,
{
    if n > 0 {
        lemma_read_many_len(c, i, p, (n - 1) as nat);
    }
}

/// Every item sent is received, in order, by a receiver that commits each
/// read: after committing the first `k` items, a receiver handed what
/// remains of the directory reads the `k`-th item sent.
pub proof fn lemma_sent_items_are_received(
    d: Seq<Seq<u8>>,
    i: int,
    p: int,
    items: Seq<Seq<u8>>,
    caps: Seq<bool>,
    k: nat,
)
    requires
        at_frontier(d, i, p),
        all_fit(items),
        caps.len() == items.len(),
        k < items.len(),
    ensures
        ({
            let w = written(d, items, caps);
            &&& read_many(w, i, p, k) is Some
            &&& read_next(
                remaining(w, read_many(w, i, p, k).unwrap().1, read_many(w, i, p, k).unwrap().2),
                0,
                0,
            ) matches Some((x, _, _))
            &&& x == items[k as int]
        }),
{
    let w = written(d, items, caps);
    lemma_fifo(d, i, p, items, caps);
    lemma_read_many_prefix(w, i, p, items.len(), k);
    let (_, ik, pk) = read_many(w, i, p, k).unwrap();
    lemma_written_extends(d, items, caps);
    lemma_frontier_bounds(d, i, p);
    assert(w[i].len() >= d[i].len()) by {
        if i < d.len() - 1 {
            assert(w[i] == d[i]);
        }
    }
    lemma_read_many_in_bounds(w, i, p, k);
    lemma_resume(w, ik, pk);
}

/// A reader at the frontier stands within the directory.
proof fn lemma_frontier_bounds(d: Seq<Seq<u8>>, i: int, p: int)
    requires
        at_frontier(d, i, p),
    ensures
        0 <= i < d.len(),
        0 <= p <= d[i].len(),
{
}

/// Whether `s` is a run of whole records.
pub open spec fn is_run(s: Seq<u8>) -> bool {
    exists|items: Seq<Seq<u8>>| all_fit(items) && s == #[trigger] frame(items)
}

/// Whether `s` is a run of whole records capped off with the end-of-segment
/// marker.
pub open spec fn is_capped_run(s: Seq<u8>) -> bool {
    exists|items: Seq<Seq<u8>>| all_fit(items) && s == #[trigger] frame(items) + eof_marker()
}

/// Whether a queue directory is well formed: every segment is a run of whole
/// records, and every segment but the last is capped off.
pub open spec fn well_formed(d: Seq<Seq<u8>>) -> bool {
    &&& d.len() >= 1
    &&& forall|k: int| 0 <= k < d.len() - 1 ==> #[trigger] is_capped_run(d[k])
    &&& is_run(d.last())
}

/// The records of two runs of items, one after the other, are the records
/// of the items of both.
pub proof fn lemma_frame_concat(a: Seq<Seq<u8>>, b: Seq<Seq<u8>>)
    ensures
        frame(a + b) == frame(a) + frame(b),
    decreases b.len(),
{
    if b.len() == 0 {
        assert(a + b =~= a);
        assert(frame(b) =~= Seq::<u8>::empty());
        assert(frame(a) + frame(b) =~= frame(a));
    } else {
        lemma_frame_concat(a, b.drop_last());
        assert((a + b).drop_last() =~= a + b.drop_last());
        assert((a + b).last() == b.last());
        assert(frame(a + b) =~= frame(a) + frame(b.drop_last()) + record(b.last()));
        assert(frame(a) + frame(b.drop_last()) + record(b.last()) =~= frame(a) + frame(b));
    }
}

/// A fresh queue directory, one empty segment, is well formed.
pub proof fn lemma_fresh_well_formed()
    ensures
        well_formed(seq![Seq::<u8>::empty()]),
{
    let none = Seq::<Seq<u8>>::empty();
    assert(frame(none) =~= Seq::<u8>::empty());
    assert(all_fit(none));
}

/// Carrying the plan of a batch send out keeps a directory well formed: the
/// records of the items are appended to the last segment, which stays a run
/// of records, or, where the plan caps it off, becomes a capped run before a
/// new empty segment.
pub proof fn lemma_batch_keeps_well_formed(d: Seq<Seq<u8>>, items: Seq<Seq<u8>>, cap: bool)
    requires
        well_formed(d),
        all_fit(items),
    ensures
        well_formed(apply_plan(d, frame(items), cap)),
{
    let last = d.len() - 1;
    let prior = choose|l: Seq<Seq<u8>>| all_fit(l) && d.last() == #[trigger] frame(l);
    let all = prior + items;
    lemma_frame_concat(prior, items);
    assert(all_fit(all)) by {
        assert forall|k: int| 0 <= k < all.len() implies #[trigger] all[k].len() < HEADER_EOF by {
            if k < prior.len() {
                assert(all[k] == prior[k]);
            } else {
                assert(all[k] == items[k - prior.len()]);
            }
        }
    }
    let a = append_last(d, frame(items));
    assert(a.last() == frame(all));
    assert(is_run(a.last()));
    assert forall|k: int| 0 <= k < a.len() - 1 implies #[trigger] is_capped_run(a[k]) by {
        assert(a[k] == d[k]);
    }
    if cap {
        let c = cap_off(a);
        assert(c[last] == frame(all) + eof_marker());
        assert(is_capped_run(c[last]));
        let none = Seq::<Seq<u8>>::empty();
        assert(frame(none) =~= Seq::<u8>::empty());
        assert(all_fit(none));
        assert(c.last() == frame(none));
        assert forall|k: int| 0 <= k < c.len() - 1 implies #[trigger] is_capped_run(c[k]) by {
            if k < last {
                assert(c[k] == d[k]);
            }
        }
    }
}

/// Carrying the plan of a send out keeps a directory well formed: the
/// record of what is sent directly follows the last record of the queue.
pub proof fn lemma_send_keeps_well_formed(d: Seq<Seq<u8>>, x: Seq<u8>, cap: bool)
    requires
        well_formed(d),
        x.len() < HEADER_EOF,
    ensures
        well_formed(write_one(d, x, cap)),
        apply_plan(d, record(x), cap)[d.len() - 1].take(d.last().len() as int + record(x).len() as int) == d.last()
            + record(x),
{
    let one = seq![x];
    assert(one.drop_last() =~= Seq::<Seq<u8>>::empty());
    assert(frame(one.drop_last()) =~= Seq::<u8>::empty());
    assert(frame(one) =~= record(x));
    assert(all_fit(one));
    lemma_batch_keeps_well_formed(d, one, cap);
    let a = append_last(d, record(x));
    assert(a[d.len() - 1].take(d.last().len() as int + record(x).len() as int) =~= d.last() + record(x));
    if cap {
        let w = apply_plan(d, record(x), cap);
        assert(w[d.len() - 1] == a[d.len() - 1] + eof_marker());
        assert(w[d.len() - 1].take(d.last().len() as int + record(x).len() as int) =~= d.last() + record(x));
    }
}

} // verus!

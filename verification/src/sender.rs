//! The sending side: framing what is sent and deciding when a segment is
//! capped off.
//!
//! A send does not touch the disk itself. It returns a `SendPlan`: the bytes
//! to append to the current segment in one write and one flush (that is what
//! makes a send atomic), and, where the segment has grown past its nominal
//! size, the segment to move on to after capping the current one off with
//! `eof_header`.
use vstd::prelude::*;
use crate::format::{all_fit, append_record, contents, frame, record, HEADER_EOF};
use crate::state::{advanced, next_segment, state_bytes, QueueState, SEGMENT_SIZE};
use crate::stream::apply_plan;

verus! {

/// What one send asks of the disk.
pub struct SendPlan {
    /// The segment to append to.
    pub segment: u64,
    /// The bytes to append to it, in one write and one flush.
    pub bytes: Vec<u8>,
    /// Where set, the segment is then capped off (the end-of-segment marker
    /// is appended and flushed) and sending goes on in this segment.
    pub next_segment: Option<u64>,
}

/// The state of a sender at `st` after `n` bytes were appended: past the
/// nominal size of a segment, it moves to the start of the next one.
pub open spec fn after_send(st: QueueState, n: int) -> QueueState {
    if advanced(st, n).position > SEGMENT_SIZE {
        next_segment(st)
    } else {
        advanced(st, n)
    }
}

/// Whether appending `n` bytes from `st`, and moving on to the next segment
/// where that is due, keeps positions and segment numbers within a `u64`.
pub open spec fn can_append(st: QueueState, n: int) -> bool {
    &&& st.position + n <= u64::MAX
    &&& st.position + n > SEGMENT_SIZE ==> st.segment < u64::MAX
}

/// The sending side of a queue.
pub struct Sender {
    state: QueueState,
}

impl View for Sender {
    type V = QueueState;

    closed spec fn view(&self) -> QueueState {
        self.state
    }
}

impl Sender {
    /// A sender that stands at `state`.
    pub fn open(state: QueueState) -> (r: Sender)
        ensures
            r@ == state,
    {
        Sender { state }
    }

    /// Where the sender stands.
    pub fn state(&self) -> (r: QueueState)
        ensures
            r == self@,
    {
        self.state
    }

    /// The saved form of the sender's position.
    pub fn save(&self) -> (r: Vec<u8>)
        ensures
            r@ == state_bytes(self@),
    {
        self.state.to_bytes()
    }

    /// Whether `send` can take `data`: it fits in a record, and the sender's
    /// position and segment number stay within a `u64`.
    pub fn can_send(&self, data: &[u8]) -> (r: bool)
        ensures
            r == (data@.len() < HEADER_EOF && can_append(self@, record(data@).len() as int)),
            r <==> (data@.len() < HEADER_EOF && self@.position + 4 + data@.len() <= u64::MAX && (
            self@.position + 4 + data@.len() > SEGMENT_SIZE ==> self@.segment < u64::MAX)),
    {
        if data.len() >= HEADER_EOF as usize {
            return false;
        }
        let n = 4 + data.len() as u64;
        self.fits_after(n)
    }

    /// Whether `send_batch` can take `items`: each fits in a record, and the
    /// sender's position and segment number stay within a `u64`.
    pub fn can_send_batch(&self, items: &Vec<Vec<u8>>) -> (r: bool)
        ensures
            r == (all_fit(contents(items@)) && can_append(self@, frame(contents(items@)).len() as int)),
            r <==> ((forall|k: int| 0 <= k < items@.len() ==> #[trigger] items@[k]@.len() < HEADER_EOF)
                && self@.position + frame(contents(items@)).len() <= u64::MAX && (self@.position + frame(
                contents(items@),
            ).len() > SEGMENT_SIZE ==> self@.segment < u64::MAX)),
    {
        let ghost all = contents(items@);
        proof {
            assert(all_fit(all) <==> (forall|k: int| 0 <= k < items@.len() ==> #[trigger] items@[k]@.len()
                < HEADER_EOF)) by {
                if all_fit(all) {
                    assert forall|k: int| 0 <= k < items@.len() implies #[trigger] items@[k]@.len()
                        < HEADER_EOF by {
                        assert(all[k] == items@[k]@);
                    }
                }
                if forall|k: int| 0 <= k < items@.len() ==> #[trigger] items@[k]@.len() < HEADER_EOF {
                    assert forall|k: int| 0 <= k < all.len() implies #[trigger] all[k].len()
                        < HEADER_EOF by {
                        assert(all[k] == items@[k]@);
                    }
                }
            }
        }
        let mut total: u64 = 0;
        let mut k: usize = 0;
        while k < items.len()
            invariant
                k <= items@.len(),
                all == contents(items@),
                all_fit(all.take(k as int)),
                total == frame(all.take(k as int)).len(),
            decreases items@.len() - k,
        {
            proof {
                let t = all.take(k + 1);
                assert(t.drop_last() =~= all.take(k as int));
                assert(t.last() == all[k as int]);
            }
            assert(all[k as int] == items@[k as int]@);
            if items[k].len() >= HEADER_EOF as usize {
                assert(!all_fit(all)) by {
                    assert(all[k as int].len() >= HEADER_EOF);
                }
                return false;
            }
            let n = 4 + items[k].len() as u64;
            if total > u64::MAX - n {
                proof {
                    lemma_frame_prefix_len(all, k + 1);
                }
                return false;
            }
            total = total + n;
            k = k + 1;
            assert(all_fit(all.take(k as int))) by {
                assert forall|j: int| 0 <= j < k implies #[trigger] all.take(k as int)[j].len()
                    < HEADER_EOF by {
                    if j < k - 1 {
                        assert(all.take(k as int)[j] == all.take(k - 1)[j]);
                    }
                }
            }
        }
        assert(all.take(items@.len() as int) =~= all);
        self.fits_after(total)
    }

    /// Whether appending `n` bytes keeps the position and segment number
    /// within a `u64`.
    fn fits_after(&self, n: u64) -> (r: bool)
        ensures
            r == can_append(self@, n as int),
            r <==> (self@.position + n <= u64::MAX && (self@.position + n > SEGMENT_SIZE
                ==> self@.segment < u64::MAX)),
    {
        if self.state.position > u64::MAX - n {
            false
        } else if self.state.position + n > SEGMENT_SIZE {
            self.state.segment < u64::MAX
        } else {
            true
        }
    }

    /// Appends the record of `data` to `buffer` and returns its length.
    fn write(&self, buffer: &mut Vec<u8>, data: &[u8]) -> (written: u64)
        requires
            data@.len() < HEADER_EOF,
        ensures
            final(buffer)@ == old(buffer)@ + record(data@),
            written == record(data@).len(),
            written == 4 + data@.len(),
    {
        append_record(buffer, data);
        4 + data.len() as u64
    }

    /// Moves on to the start of the next segment and returns its number.
    fn cap_off_and_move(&mut self) -> (r: u64)
        requires
            old(self)@.segment < u64::MAX,
        ensures
            final(self)@ == next_segment(old(self)@),
            r == final(self)@.segment,
    {
        self.state.advance_segment()
    }

    /// Records that `written` bytes went to the current segment, and moves on
    /// to the next segment where the current one has grown past its size.
    fn finish(&mut self, buffer: Vec<u8>, written: u64) -> (plan: SendPlan)
        requires
            can_append(old(self)@, written as int),
        ensures
            final(self)@ == after_send(old(self)@, written as int),
            plan.segment == old(self)@.segment,
            plan.bytes == buffer,
            plan.next_segment == (if old(self)@.position + written > SEGMENT_SIZE {
                Some(final(self)@.segment)
            } else {
                None::<u64>
            }),
    {
        let segment = self.state.segment;
        self.state.advance_position(written);
        if self.state.is_past_end() {
            let next = self.cap_off_and_move();
            SendPlan { segment, bytes: buffer, next_segment: Some(next) }
        } else {
            SendPlan { segment, bytes: buffer, next_segment: None }
        }
    }

    /// Sends `data` as one record.
    pub fn send(&mut self, data: &[u8]) -> (plan: SendPlan)
        requires
            data@.len() < HEADER_EOF,
            can_append(old(self)@, record(data@).len() as int),
        ensures
            plan.segment == old(self)@.segment,
            plan.bytes@ == record(data@),
            final(self)@ == after_send(old(self)@, record(data@).len() as int),
            final(self)@.position <= SEGMENT_SIZE,
            plan.next_segment == (if old(self)@.position + record(data@).len() > SEGMENT_SIZE {
                Some(final(self)@.segment)
            } else {
                None::<u64>
            }),
    {
        let mut buffer: Vec<u8> = Vec::new();
        let written = self.write(&mut buffer, data);
        assert(buffer@ =~= record(data@));
        self.finish(buffer, written)
    }

    /// Sends every item, each as one record, all in one write.
    pub fn send_batch(&mut self, items: &Vec<Vec<u8>>) -> (plan: SendPlan)
        requires
            all_fit(contents(items@)),
            can_append(old(self)@, frame(contents(items@)).len() as int),
        ensures
            plan.segment == old(self)@.segment,
            plan.bytes@ == frame(contents(items@)),
            final(self)@ == after_send(old(self)@, frame(contents(items@)).len() as int),
            final(self)@.position <= SEGMENT_SIZE,
            plan.next_segment == (if old(self)@.position + frame(contents(items@)).len()
                > SEGMENT_SIZE {
                Some(final(self)@.segment)
            } else {
                None::<u64>
            }),
    {
        let ghost all = contents(items@);
        let mut buffer: Vec<u8> = Vec::new();
        let mut written: u64 = 0;
        let mut k: usize = 0;
        while k < items.len()
            invariant
                k <= items@.len(),
                all == contents(items@),
                all_fit(all),
                buffer@ == frame(all.take(k as int)),
                written == buffer@.len(),
                self@.position + frame(all).len() <= u64::MAX,
            decreases items@.len() - k,
        {
            assert(all[k as int] == items@[k as int]@);
            proof {
                lemma_frame_prefix_len(all, k + 1);
            }
            let n = self.write(&mut buffer, items[k].as_slice());
            proof {
                let t = all.take(k + 1);
                assert(t.drop_last() =~= all.take(k as int));
                assert(t.last() == all[k as int]);
            }
            written = written + n;
            k = k + 1;
        }
        assert(all.take(items@.len() as int) =~= all);
        self.finish(buffer, written)
    }
}

/// The records of the first `k` items take no more room than those of all.
proof fn lemma_frame_prefix_len(items: Seq<Seq<u8>>, k: int)
    requires
        0 <= k <= items.len(),
    ensures
        frame(items.take(k)).len() <= frame(items).len(),
    decreases items.len() - k,
{
    if k < items.len() {
        lemma_frame_prefix_len(items, k + 1);
        let t = items.take(k + 1);
        assert(t.drop_last() =~= items.take(k));
    } else {
        assert(items.take(k) =~= items);
    }
}

/// Whether a sender at `st` stands at the top of the queue directory `d`,
/// whose first segment is numbered `base`: its segment is the last one and
/// its position is that segment's length.
pub open spec fn at_top(st: QueueState, base: int, d: Seq<Seq<u8>>) -> bool {
    &&& d.len() >= 1
    &&& st.segment == base + d.len() - 1
    &&& st.position == d.last().len()
}

/// A sender at the top of the directory stays there: once the plan of a
/// send of `bytes` is carried out, the sender's new position is the length
/// of the new last segment, and its segment number follows the segments.
pub proof fn lemma_sender_stays_at_top(st: QueueState, base: int, d: Seq<Seq<u8>>, bytes: Seq<u8>)
    requires
        at_top(st, base, d),
        can_append(st, bytes.len() as int),
    ensures
        at_top(
            after_send(st, bytes.len() as int),
            base,
            apply_plan(d, bytes, st.position + bytes.len() > SEGMENT_SIZE),
        ),
{
    let a = d.update(d.len() - 1, d.last() + bytes);
    assert(a.last() == d.last() + bytes);
}

/// A send can go ahead exactly when its new position stays within a `u64`
/// and, where it crosses the nominal size of a segment, the segment number
/// can still grow by one; nothing else limits it, neither the size of what
/// is sent nor crossing into a new segment.
pub proof fn lemma_can_append_exact(st: QueueState, n: int)
    ensures
        can_append(st, n) <==> (st.position + n <= u64::MAX && (st.position + n > SEGMENT_SIZE
            ==> st.segment < u64::MAX)),
{
}

/// A send that crosses the nominal size of a segment goes ahead and moves the
/// sender to the start of the next segment, for every state and length that
/// fit in a `u64`.
pub proof fn lemma_crossing_send_moves_on(st: QueueState, n: int)
    requires
        0 <= n,
        st.position + n <= u64::MAX,
        st.position + n > SEGMENT_SIZE,
        st.segment < u64::MAX,
    ensures
        can_append(st, n),
        after_send(st, n).segment == st.segment + 1,
        after_send(st, n).position == 0,
{
}

/// A send that stays within the nominal size of a segment goes ahead and
/// leaves the sender in the same segment, `n` bytes further on, whatever
/// its segment number.
pub proof fn lemma_small_send_stays(st: QueueState, n: int)
    requires
        0 <= n,
        st.position + n <= SEGMENT_SIZE,
    ensures
        can_append(st, n),
        after_send(st, n).segment == st.segment,
        after_send(st, n).position == st.position + n,
{
}

} // verus!

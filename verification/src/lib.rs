//! A disk-backed single-producer, single-consumer queue, with the logic that
//! decides what goes to disk and what is read back kept apart from the
//! filesystem itself.
//!
//! The queue lives in a directory of numbered segment files. The sender
//! appends framed records to the last segment and, once that segment has grown
//! past its nominal size, caps it off with an end-of-segment marker and moves
//! on to the next one. The receiver reads records back in order, following the
//! markers from one segment to the next, and moves its own position only when
//! a read is committed.
//!
//! - `format`: the byte layout of records and segments, and reading it back.
//! - `state`: positions in the queue and the bytes they are saved as.
//! - `sender`: what a send (or a batch of sends) writes, and when a segment
//!   is capped off.
//! - `receiver`: reading records back, and transactional commits.
//! - `stream`: the directory after a run of sends, and why what is sent is
//!   read back in order.
//! - `names`: the names of the files of a queue, and held locks.

pub mod format;
pub mod names;
pub mod receiver;
pub mod sender;
pub mod state;
pub mod stream;

pub use format::{
    decode_header, encode_batch, encode_header, encode_record, eof_header, HEADER_EOF,
};
pub use names::{
    recv_lock_filename, segment_filename, send_lock_filename,
    try_acquire_recv_lock, try_acquire_send_lock, QueueError,
};
pub use receiver::{Receiver, RecvGuard};
pub use sender::{SendPlan, Sender};
pub use state::{QueueState, SEGMENT_SIZE, STATE_BYTES};

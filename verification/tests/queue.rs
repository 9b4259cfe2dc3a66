use yaque::{
    decode_header, encode_batch, encode_header, encode_record, eof_header, recv_lock_filename,
    segment_filename, send_lock_filename, try_acquire_recv_lock, try_acquire_send_lock, QueueError,
    QueueState, Receiver, SendPlan, Sender, HEADER_EOF, SEGMENT_SIZE, STATE_BYTES,
};

/// An in-memory queue directory: segment files by number.
struct Dir {
    segments: Vec<Vec<u8>>,
}

impl Dir {
    fn new() -> Dir {
        Dir { segments: vec![Vec::new()] }
    }

    /// Carries a send plan out.
    fn apply(&mut self, plan: &SendPlan) {
        let seg = plan.segment as usize;
        while self.segments.len() <= seg {
            self.segments.push(Vec::new());
        }
        self.segments[seg].extend_from_slice(&plan.bytes);
        if let Some(next) = plan.next_segment {
            self.segments[seg].extend_from_slice(&eof_header());
            while self.segments.len() <= next as usize {
                self.segments.push(Vec::new());
            }
        }
    }

    /// What a receiver at `st` is handed: a window of the bytes from its
    /// position on, running into the next segments where the window reaches
    /// the end of one.
    fn from(&self, st: QueueState) -> Vec<Vec<u8>> {
        const WINDOW: usize = 1024;
        let mut seg = st.segment as usize;
        let mut start = st.position as usize;
        let mut out = Vec::new();
        while seg < self.segments.len() {
            let s = &self.segments[seg];
            let end = s.len().min(start + WINDOW);
            out.push(s[start..end].to_vec());
            if end < s.len() {
                break;
            }
            seg += 1;
            start = 0;
        }
        out
    }
}

fn lots_of_data(n: usize, seed: u64) -> Vec<Vec<u8>> {
    let mut x = seed;
    let mut next = move || {
        x = x.wrapping_mul(6364136223846793005).wrapping_add(1442695040888963407);
        (x >> 33) as usize
    };
    (0..n)
        .map(|_| {
            let len = next() % 128 + 1;
            (0..len).map(|_| next() as u8).collect()
        })
        .collect()
}

#[test]
fn header_is_big_endian() {
    assert_eq!(encode_header(0x0102_0304), vec![1, 2, 3, 4]);
    assert_eq!(encode_header(0), vec![0, 0, 0, 0]);
    assert_eq!(eof_header(), vec![255, 255, 255, 255]);
    assert_eq!(HEADER_EOF, u32::MAX);
    assert_eq!(decode_header(&[9, 1, 2, 3, 4], 1), 0x0102_0304);
    assert_eq!(decode_header(&encode_header(123_456), 0), 123_456);
}

#[test]
fn record_is_header_then_data() {
    assert_eq!(encode_record(b"abc"), vec![0, 0, 0, 3, b'a', b'b', b'c']);
    assert_eq!(encode_record(b""), vec![0, 0, 0, 0]);
    let batch = encode_batch(&vec![b"ab".to_vec(), Vec::new(), b"c".to_vec()]);
    assert_eq!(batch, vec![0, 0, 0, 2, b'a', b'b', 0, 0, 0, 0, 0, 0, 0, 1, b'c']);
    assert_eq!(encode_batch(&Vec::new()), Vec::<u8>::new());
}

#[test]
fn state_saves_and_loads() {
    let st = QueueState { segment: 0x0102_0304_0506_0708, position: 42 };
    let bytes = st.to_bytes();
    assert_eq!(bytes.len(), STATE_BYTES);
    assert_eq!(bytes, vec![1, 2, 3, 4, 5, 6, 7, 8, 0, 0, 0, 0, 0, 0, 0, 42]);
    assert_eq!(QueueState::from_bytes(&bytes), Some(st));
    assert_eq!(QueueState::from_bytes(&bytes[1..]), None);
    let max = QueueState { segment: u64::MAX, position: u64::MAX };
    assert_eq!(QueueState::from_bytes(&max.to_bytes()), Some(max));
}

#[test]
fn state_moves() {
    let mut st = QueueState::new();
    assert_eq!(st, QueueState { segment: 0, position: 0 });
    st.advance_position(SEGMENT_SIZE);
    assert!(!st.is_past_end());
    st.advance_position(1);
    assert!(st.is_past_end());
    assert_eq!(st.advance_segment(), 1);
    assert_eq!(st, QueueState { segment: 1, position: 0 });
}

#[test]
fn send_frames_and_advances() {
    let mut sender = Sender::open(QueueState { segment: 3, position: 10 });
    let plan = sender.send(b"hello");
    assert_eq!(plan.segment, 3);
    assert_eq!(plan.bytes, encode_record(b"hello"));
    assert_eq!(plan.next_segment, None);
    assert_eq!(sender.state(), QueueState { segment: 3, position: 19 });
    assert_eq!(sender.save(), QueueState { segment: 3, position: 19 }.to_bytes());
}

#[test]
fn send_caps_off_a_full_segment() {
    let mut sender = Sender::open(QueueState { segment: 7, position: SEGMENT_SIZE - 5 });
    let plan = sender.send(b"a");
    assert_eq!(plan.next_segment, None);
    assert_eq!(sender.state(), QueueState { segment: 7, position: SEGMENT_SIZE });
    let mut sender = Sender::open(QueueState { segment: 7, position: SEGMENT_SIZE - 5 });
    let plan = sender.send(b"ab");
    assert_eq!(plan.segment, 7);
    assert_eq!(plan.next_segment, Some(8));
    assert_eq!(sender.state(), QueueState { segment: 8, position: 0 });
}

#[test]
fn send_batch_is_one_write() {
    let items = vec![b"one".to_vec(), b"two".to_vec(), b"three".to_vec()];
    let mut sender = Sender::open(QueueState::new());
    let plan = sender.send_batch(&items);
    assert_eq!(plan.bytes, encode_batch(&items));
    assert_eq!(plan.next_segment, None);
    assert_eq!(sender.state(), QueueState { segment: 0, position: 23 });
    let plan = sender.send_batch(&Vec::new());
    assert!(plan.bytes.is_empty());
    assert_eq!(sender.state(), QueueState { segment: 0, position: 23 });
}

#[test]
fn recv_reads_and_commits() {
    let mut receiver = Receiver::open(QueueState { segment: 2, position: 100 });
    let mut seg = encode_record(b"abc");
    seg.extend(encode_record(b"de"));
    let segs = vec![seg];
    let guard = receiver.recv(&segs).unwrap();
    assert_eq!(guard.get(), &b"abc".to_vec());
    assert_eq!(guard.start_state(), QueueState { segment: 2, position: 100 });
    assert_eq!(guard.end_state(), QueueState { segment: 2, position: 107 });
    assert!(guard.finished_segments().is_empty());
    guard.commit(&mut receiver);
    assert_eq!(receiver.state(), QueueState { segment: 2, position: 107 });
    let rest = vec![segs[0][7..].to_vec()];
    let guard = receiver.recv(&rest).unwrap();
    assert_eq!(guard.into_inner(&mut receiver), b"de".to_vec());
    assert_eq!(receiver.state(), QueueState { segment: 2, position: 113 });
    assert_eq!(receiver.save(), QueueState { segment: 2, position: 113 }.to_bytes());
}

#[test]
fn dropped_guard_leaves_the_receiver() {
    let receiver = Receiver::open(QueueState::new());
    let segs = vec![encode_record(b"x")];
    let guard = receiver.recv(&segs).unwrap();
    drop(guard);
    assert_eq!(receiver.state(), QueueState::new());
    let again = receiver.recv(&segs).unwrap();
    assert_eq!(again.get(), &b"x".to_vec());
}

#[test]
fn recv_waits_for_whole_records() {
    let receiver = Receiver::open(QueueState::new());
    assert!(receiver.recv(&Vec::new()).is_none());
    assert!(receiver.recv(&vec![vec![0, 0]]).is_none());
    assert!(receiver.recv(&vec![vec![0, 0, 0, 5, 1, 2]]).is_none());
    assert!(receiver.recv(&vec![eof_header()]).is_none());
}

#[test]
fn recv_follows_end_of_segment() {
    let mut receiver = Receiver::open(QueueState { segment: 4, position: 0 });
    let segs = vec![eof_header(), encode_record(b"z")];
    let guard = receiver.recv(&segs).unwrap();
    assert_eq!(guard.get(), &b"z".to_vec());
    assert_eq!(guard.end_state(), QueueState { segment: 5, position: 5 });
    assert_eq!(guard.finished_segments(), vec![4]);
    guard.commit(&mut receiver);
    assert_eq!(receiver.state(), QueueState { segment: 5, position: 5 });
}

#[test]
fn header_after_end_of_segment_is_a_length() {
    // After a marker, the first header of the next segment is read as a
    // length, even where it is a marker itself.
    let receiver = Receiver::open(QueueState { segment: 4, position: 0 });
    let segs = vec![eof_header(), eof_header(), encode_record(b"z")];
    assert!(receiver.recv(&segs).is_none());
}

#[test]
fn recv_batch_reads_many() {
    let receiver = Receiver::open(QueueState::new());
    let mut first = encode_batch(&vec![b"a".to_vec(), b"bb".to_vec()]);
    first.extend(eof_header());
    let segs = vec![first, encode_record(b"ccc")];
    let guard = receiver.recv_batch(3, &segs).unwrap();
    assert_eq!(guard.get(), &vec![b"a".to_vec(), b"bb".to_vec(), b"ccc".to_vec()]);
    assert_eq!(guard.end_state(), QueueState { segment: 1, position: 7 });
    assert!(receiver.recv_batch(4, &segs).is_none());
    let none = receiver.recv_batch(0, &segs).unwrap();
    assert!(none.get().is_empty());
    assert_eq!(none.end_state(), QueueState::new());
}

#[test]
fn recv_while_stops_at_the_first_rejected() {
    let receiver = Receiver::open(QueueState::new());
    let segs = vec![encode_batch(&vec![b"a".to_vec(), b"bb".to_vec(), b"cccc".to_vec(), b"d".to_vec()])];
    let guard = receiver.recv_while(&segs, |x: &[u8]| x.len() < 3).unwrap();
    assert_eq!(guard.get(), &vec![b"a".to_vec(), b"bb".to_vec()]);
    assert_eq!(guard.end_state(), QueueState { segment: 0, position: 11 });
    assert!(receiver.recv_while(&segs, |_x: &[u8]| true).is_none());
    let empty = receiver.recv_while(&segs, |_x: &[u8]| false).unwrap();
    assert!(empty.get().is_empty());
}

#[test]
fn file_names() {
    assert_eq!(segment_filename(0), "0.q");
    assert_eq!(segment_filename(1234), "1234.q");
    assert_eq!(segment_filename(u64::MAX), "18446744073709551615.q");
    assert_eq!(recv_lock_filename(), "recv.lock");
    assert_eq!(send_lock_filename(), "send.lock");
}

#[test]
fn held_locks_are_errors() {
    assert_eq!(try_acquire_send_lock(Some(5)), Ok(5));
    assert_eq!(try_acquire_send_lock::<u8>(None), Err(QueueError::SenderInUse));
    assert_eq!(try_acquire_recv_lock(Some("g")), Ok("g"));
    assert_eq!(try_acquire_recv_lock::<u8>(None), Err(QueueError::ReceiverInUse));
}

#[test]
fn sends_are_received_in_order() {
    let data = lots_of_data(100_000, 7);
    let mut dir = Dir::new();
    let mut sender = Sender::open(QueueState::new());
    for item in &data {
        let plan = sender.send(item);
        dir.apply(&plan);
    }
    assert!(dir.segments.len() > 1);
    let mut receiver = Receiver::open(QueueState::new());
    for (i, should_be) in data.iter().enumerate() {
        let guard = receiver.recv(&dir.from(receiver.state())).unwrap();
        assert_eq!(guard.get(), should_be, "at sample {}", i);
        guard.commit(&mut receiver);
    }
    assert!(receiver.recv(&dir.from(receiver.state())).is_none());
}

#[test]
fn sends_and_receives_alternate() {
    let data = lots_of_data(100_000, 11);
    let mut dir = Dir::new();
    let mut sender = Sender::open(QueueState { segment: 0, position: SEGMENT_SIZE - 300 });
    dir.segments[0] = vec![0; (SEGMENT_SIZE - 300) as usize];
    let mut receiver = Receiver::open(QueueState { segment: 0, position: SEGMENT_SIZE - 300 });
    for (i, item) in data.iter().enumerate() {
        dir.apply(&sender.send(item));
        let guard = receiver.recv(&dir.from(receiver.state())).unwrap();
        assert_eq!(guard.get(), item, "at sample {}", i);
        guard.commit(&mut receiver);
    }
    assert_eq!(sender.state().segment, 2);
}

#[test]
fn batches_are_received_in_order() {
    let data = lots_of_data(300, 3);
    let mut dir = Dir::new();
    let mut sender = Sender::open(QueueState::new());
    for chunk in data.chunks(7) {
        dir.apply(&sender.send_batch(&chunk.to_vec()));
    }
    let mut receiver = Receiver::open(QueueState::new());
    for chunk in data.chunks(5) {
        let guard = receiver.recv_batch(chunk.len(), &dir.from(receiver.state())).unwrap();
        assert_eq!(guard.get(), &chunk.to_vec());
        guard.commit(&mut receiver);
    }
}

#[test]
fn send_checks() {
    let sender = Sender::open(QueueState::new());
    assert!(sender.can_send(b"abc"));
    assert!(sender.can_send_batch(&vec![b"a".to_vec(), Vec::new()]));
    let full = Sender::open(QueueState { segment: 0, position: u64::MAX - 6 });
    assert!(full.can_send(b"ab"));
    assert!(!full.can_send(b"abc"));
    assert!(!full.can_send_batch(&vec![b"a".to_vec(), b"b".to_vec()]));
    assert!(full.can_send_batch(&Vec::new()));
    let last = Sender::open(QueueState { segment: u64::MAX, position: SEGMENT_SIZE });
    assert!(!last.can_send(b""));
    assert!(!last.can_send_batch(&vec![Vec::new()]));
    let last = Sender::open(QueueState { segment: u64::MAX, position: SEGMENT_SIZE - 4 });
    assert!(last.can_send(b""));
}

#[test]
fn read_checks() {
    let receiver = Receiver::open(QueueState { segment: u64::MAX - 1, position: u64::MAX - 3 });
    assert!(receiver.can_read(&vec![vec![0; 3]]));
    assert!(!receiver.can_read(&vec![vec![0; 4]]));
    assert!(!receiver.can_read(&vec![vec![], vec![], vec![]]));
    assert!(receiver.can_read(&Vec::new()));
}

#[test]
fn guard_item_can_change() {
    let receiver = Receiver::open(QueueState::new());
    let segs = vec![encode_record(b"abc")];
    let mut guard = receiver.recv(&segs).unwrap();
    guard.get_mut().push(b'd');
    assert_eq!(guard.get(), &b"abcd".to_vec());
    assert_eq!(guard.end_state(), QueueState { segment: 0, position: 7 });
}

#[test]
fn distinct_segments_have_distinct_names() {
    let names: Vec<String> = (0..2000u64).map(segment_filename).collect();
    let mut sorted = names.clone();
    sorted.sort();
    sorted.dedup();
    assert_eq!(sorted.len(), names.len());
    assert_ne!(segment_filename(1), segment_filename(10));
}

#[test]
fn one_by_one_equals_batch() {
    let st = QueueState { segment: 5, position: 9 };
    let mut first = encode_record(b"x");
    first.extend(eof_header());
    let segs = vec![first, encode_record(b"yy")];
    let receiver = Receiver::open(st);
    let batch = receiver.recv_batch(2, &segs).unwrap();
    let mut one = Receiver::open(st);
    let a = one.recv(&segs).unwrap();
    a.commit(&mut one);
    let rest = vec![segs[0][5..].to_vec(), segs[1].clone()];
    let b = one.recv(&rest).unwrap();
    assert_eq!(b.get(), &batch.get()[1]);
    b.commit(&mut one);
    assert_eq!(one.state(), batch.end_state());
    assert_eq!(one.state(), QueueState { segment: 6, position: 6 });
}

#[test]
fn segments_are_capped_runs() {
    let data = lots_of_data(80_000, 5);
    let mut dir = Dir::new();
    let mut sender = Sender::open(QueueState::new());
    for item in &data {
        dir.apply(&sender.send(item));
    }
    assert!(dir.segments.len() > 1);
    let last = dir.segments.len() - 1;
    for (k, seg) in dir.segments.iter().enumerate() {
        let mut p = 0usize;
        loop {
            if k < last && p + 4 == seg.len() {
                assert_eq!(&seg[p..], &eof_header()[..]);
                break;
            }
            if k == last && p == seg.len() {
                break;
            }
            let h = decode_header(seg, p);
            assert!(h < HEADER_EOF);
            p += 4 + h as usize;
            assert!(p <= seg.len());
        }
    }
    assert_eq!(sender.state().position as usize, dir.segments[last].len());
    assert_eq!(sender.state().segment as usize, last);
}

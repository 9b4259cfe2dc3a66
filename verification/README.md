# yaque

A disk-backed single-producer, single-consumer queue.

- `src/` is the verified library: the record and segment layout, the saved
  form of queue positions, what a send writes and when a segment is capped
  off, reading records back across segments with transactional commits, and
  the proofs that what is sent is read back in order.
- `app/` carries the library's decisions out on the filesystem: lock files,
  segment files, saved positions, and waiting for the sender.
- `tests/` runs the library on in-memory queue directories.

//! A small sorted-storage primitive: an in-memory sorted buffer that is
//! flushed, once full, to an immutable text segment with a sparse index,
//! and a read path that looks in the buffer first and then scans the
//! segment from the nearest indexed line.
//!
//! The library never touches a disk. A segment is a byte string: the writer
//! produces it, the scanner reads it, and the caller decides where it lives.
//! A caller that keeps it in a file writes what `segment_on_insert` gives
//! and then calls `insert_after_write`, so that a failed write leaves the
//! table as it was; it reads the file where `needs_segment` asks for it and
//! then calls `find_after_read`.
//!
//! Every function has a contract over byte strings. The laws that tie the
//! functions together are proof functions: the buffer is a map kept in key
//! order, the sparse index ascends, and a lookup reads back what the last
//! flush wrote.

pub mod error;
pub mod memtable;
pub mod memtable_config;
pub mod memtable_search_file;
pub mod memtable_write_to_file;
pub mod round_trip;
pub mod sorted_string_table;
pub mod text;

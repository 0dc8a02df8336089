//! The table: buffer, segment writer, locator and scanner behind one
//! `insert` and one `find`; and what a key or a value must offer.

use crate::error::TableError;
use crate::memtable::{lookup, upsert, Memtable};
use crate::memtable_config::MemtableConfig;
use crate::memtable_search_file::{
    determine_file_search_start_position,
    outcome_text,
    scan_from,
    search_file_for_key_from_starting_position_until_next_offset,
    search_start,
    string_from_utf8,
};
use crate::memtable_write_to_file::{append_bytes, index_of, segment_of};
use crate::round_trip::{batch_fits, lemma_round_trip};
use crate::text::{append_decimal, integer_text, MINUS};
use vstd::prelude::*;
use vstd::slice::*;
use vstd::string::*;
use vstd::utf8::*;

verus! {

/// What the segment writer asks of a value: a text, as bytes, to write into
/// a segment line.
pub trait TextEncodable {
    /// The text, as the bytes written to a segment.
    spec fn text(&self) -> Seq<u8>;

    /// Adds the text at the end of `output`.
    fn write_text(&self, output: &mut Vec<u8>)
        ensures
            final(output)@ == old(output)@ + self.text(),
    ;
}

/// What the table asks of a key and of a value: a text in UTF-8 that can be
/// borrowed, to write into a segment line and to compare by, and a way to
/// copy it.
///
/// Keys are ordered by their text, byte by byte: two keys with the same text
/// are the same key.
pub trait StringLike: TextEncodable + Sized {
    /// The text is UTF-8.
    proof fn lemma_text_is_utf8(&self)
        ensures
            valid_utf8(self.text()),
    ;

    /// The text, borrowed.
    fn as_text(&self) -> (bytes: &[u8])
        ensures
            bytes@ == self.text(),
    ;

    /// A copy with the same text.
    fn duplicate(&self) -> (copy: Self)
        ensures
            copy.text() == self.text(),
    ;
}

impl TextEncodable for String {
    open spec fn text(&self) -> Seq<u8> {
        encode_utf8(self@)
    }

    fn write_text(&self, output: &mut Vec<u8>) {
        append_bytes(output, self.as_str().as_bytes());
    }
}

impl StringLike for String {
    proof fn lemma_text_is_utf8(&self) {
        encode_utf8_valid_utf8(self@);
    }

    fn as_text(&self) -> (bytes: &[u8]) {
        self.as_str().as_bytes()
    }

    fn duplicate(&self) -> (copy: Self) {
        self.clone()
    }
}

impl<'a> TextEncodable for &'a str {
    open spec fn text(&self) -> Seq<u8> {
        encode_utf8(self@)
    }

    fn write_text(&self, output: &mut Vec<u8>) {
        append_bytes(output, self.as_bytes());
    }
}

impl<'a> StringLike for &'a str {
    proof fn lemma_text_is_utf8(&self) {
        encode_utf8_valid_utf8(self@);
    }

    fn as_text(&self) -> (bytes: &[u8]) {
        self.as_bytes()
    }

    fn duplicate(&self) -> (copy: Self) {
        *self
    }
}

impl TextEncodable for i32 {
    open spec fn text(&self) -> Seq<u8> {
        integer_text(*self as int)
    }

    fn write_text(&self, output: &mut Vec<u8>) {
        if *self < 0 {
            output.push(MINUS);
            append_decimal(output, (-(*self as i64)) as u64);
        } else {
            append_decimal(output, *self as u64);
        }
    }
}

/// A table: a buffer in memory and, behind it, the segment of the buffer's
/// last flush, read through the sparse index that the buffer holds.
///
/// The table keeps no segment itself. `insert` hands the segment of a flush
/// to the caller, and `find` is handed the segment to read.
pub struct SortedStringTable<K: StringLike, V: StringLike> {
    memtable: Memtable<K, V>,
    memtable_config: MemtableConfig,
    current_size: usize,
}

impl<K: StringLike, V: StringLike> SortedStringTable<K, V> {
    /// The buffer of the table.
    pub closed spec fn buffer(&self) -> Memtable<K, V> {
        self.memtable
    }

    /// The configuration the table was made with.
    pub closed spec fn config(&self) -> MemtableConfig {
        self.memtable_config
    }

    /// The number of inserts the table has seen.
    pub closed spec fn inserts(&self) -> int {
        self.current_size as int
    }

    /// The invariant of the table: that of its buffer, which has the
    /// configuration of the table.
    pub open spec fn wf(&self) -> bool {
        &&& self.buffer().wf()
        &&& self.buffer().config() == self.config()
    }

    /// Whether this table is `before` after an insert of `value` under `key`:
    /// its buffer has seen the insert, and it has counted one insert more.
    pub open spec fn inserted(&self, before: Self, key: Seq<u8>, value: Seq<u8>) -> bool {
        &&& self.config() == before.config()
        &&& self.inserts() == before.inserts() + 1
        &&& self.buffer().inserted(before.buffer(), key, value)
    }

    /// Whether a lookup of `key` reads the segment: the buffer holds no
    /// value for `key`, and a sparse index is held.
    pub open spec fn reads_segment(&self, key: Seq<u8>) -> bool {
        lookup(self.buffer().entries(), key) is None && self.buffer().index().len() > 0
    }

    /// What a lookup of `key` finds when `segment` is the segment of the last
    /// flush: the value buffered under `key`; where the buffer has none, and
    /// a sparse index is held, what a scan of the segment from the offset
    /// that the index gives for `key` finds; and nothing where no index is
    /// held, whatever the segment holds.
    pub open spec fn find_outcome(&self, key: Seq<u8>, segment: Seq<u8>) -> Result<
        Option<Seq<u8>>,
        TableError,
    > {
        match lookup(self.buffer().entries(), key) {
            Some(value) => Ok(Some(value)),
            None => if self.buffer().index().len() > 0 {
                scan_from(self.config(), segment, search_start(self.buffer().index(), key), key)
            } else {
                Ok(None)
            },
        }
    }

    /// Reading back the last flush: with the segment of the last flush, in a
    /// format that can be read back and of keys and values that fit, a
    /// lookup finds the value buffered under the
    /// key; where the buffer has none and a sparse index is held, the value
    /// flushed under the key; and else nothing.
    pub proof fn lemma_find_reads_back(&self, key: Seq<u8>)
        requires
            self.wf(),
            self.config().unambiguous(),
            batch_fits(self.config(), self.buffer().flushed()),
        ensures
            self.find_outcome(key, segment_of(self.config(), self.buffer().flushed())) == Ok::<
                Option<Seq<u8>>,
                TableError,
            >(
                if lookup(self.buffer().entries(), key) is Some {
                    lookup(self.buffer().entries(), key)
                } else if self.buffer().index().len() > 0 {
                    lookup(self.buffer().flushed(), key)
                } else {
                    None
                },
            ),
    {
        self.buffer().lemma_wf();
        if lookup(self.buffer().entries(), key) is None && self.buffer().index().len() > 0 {
            lemma_round_trip(self.config(), self.buffer().flushed(), key);
        }
    }

    /// Looking a key up again, with nothing stored in between, finds the
    /// same: `find` borrows the table and cannot change it, and any two
    /// results that meet its contract for one table, key and segment are
    /// the same error, the same miss, or the same text.
    pub proof fn lemma_find_again(
        &self,
        key: Seq<u8>,
        segment: Seq<u8>,
        once: Result<Option<String>, TableError>,
        again: Result<Option<String>, TableError>,
    )
        requires
            outcome_text(once) == self.find_outcome(key, segment),
            outcome_text(again) == self.find_outcome(key, segment),
        ensures
            match (once, again) {
                (Ok(Some(found)), Ok(Some(found_again))) => found@ == found_again@,
                (Ok(None), Ok(None)) => true,
                (Err(error), Err(error_again)) => error == error_again,
                _ => false,
            },
    {
        if let (Ok(Some(found)), Ok(Some(found_again))) = (once, again) {
            encode_utf8_decode_utf8(found@);
            encode_utf8_decode_utf8(found_again@);
        }
    }

    /// An empty table.
    pub fn new(memtable_config: MemtableConfig) -> (table: Self)
        requires
            memtable_config.valid(),
        ensures
            table.wf(),
            table.config() == memtable_config,
            table.inserts() == 0,
            table.buffer().count() == 0,
            table.buffer().entries() == Seq::<(Seq<u8>, Seq<u8>)>::empty(),
            table.buffer().flushed() == Seq::<(Seq<u8>, Seq<u8>)>::empty(),
            table.buffer().index() == Seq::<(Seq<u8>, int)>::empty(),
    {
        SortedStringTable {
            memtable: Memtable::new(memtable_config.clone()),
            memtable_config,
            current_size: 0,
        }
    }

    /// The number of inserts the table has seen.
    pub fn current_size(&self) -> (size: usize)
        ensures
            size == self.inserts(),
    {
        self.current_size
    }

    /// The buffer of the table.
    pub fn memtable(&self) -> (memtable: &Memtable<K, V>)
        ensures
            *memtable == self.buffer(),
    {
        &self.memtable
    }

    /// The segment that `insert` of this pair will flush: `Some` exactly
    /// where that insert fills the buffer. The table is left as it is.
    pub fn segment_on_insert(&self, key: &K, value: &V) -> (segment: Option<Vec<u8>>)
        requires
            self.wf(),
        ensures
            segment is Some <==> self.buffer().flush_due(),
            segment matches Some(bytes) ==> bytes@ == segment_of(
                self.config(),
                upsert(self.buffer().entries(), key.text(), value.text()),
            ),
    {
        self.memtable.segment_on_insert(key, value)
    }

    /// Stores `value` under `key` in the buffer and counts the insert. Where
    /// that fills the buffer, the buffer is flushed and the segment returned.
    pub fn insert(&mut self, key: K, value: V) -> (segment: Option<Vec<u8>>)
        requires
            old(self).wf(),
            old(self).inserts() < usize::MAX,
        ensures
            final(self).wf(),
            final(self).inserted(*old(self), key.text(), value.text()),
            segment is Some <==> old(self).buffer().flush_due(),
            segment matches Some(bytes) ==> bytes@ == segment_of(
                old(self).config(),
                upsert(old(self).buffer().entries(), key.text(), value.text()),
            ),
    {
        let segment = self.memtable.insert(key, value);
        self.current_size += 1;
        segment
    }

    /// `insert` for a caller that stores the segment before the table
    /// changes. `segment_written` says whether the segment that
    /// `segment_on_insert` gave for this pair has been stored; it says
    /// nothing where that was `None`.
    ///
    /// Where the insert fills the buffer and the segment has not been
    /// stored, the result is `IoFailure` and the table stays as it was, the
    /// buffer with it: nothing is lost, and the insert can be tried again.
    /// Else the pair is inserted as `insert` does it.
    pub fn insert_after_write(&mut self, key: K, value: V, segment_written: bool) -> (result:
        Result<(), TableError>)
        requires
            old(self).wf(),
            old(self).inserts() < usize::MAX,
        ensures
            final(self).wf(),
            old(self).buffer().flush_due() && !segment_written ==> {
                &&& result == Err::<(), TableError>(TableError::IoFailure)
                &&& *final(self) == *old(self)
            },
            !(old(self).buffer().flush_due() && !segment_written) ==> {
                &&& result is Ok
                &&& final(self).inserted(*old(self), key.text(), value.text())
            },
    {
        if !segment_written && self.memtable.flush_is_due() {
            return Err(TableError::IoFailure);
        }
        let _ = self.insert(key, value);
        Ok(())
    }

    /// Whether `find` of `key` reads the segment: the buffer holds no value
    /// for `key`, and a sparse index is held.
    pub fn needs_segment(&self, key: &K) -> (needed: bool)
        requires
            self.wf(),
        ensures
            needed == self.reads_segment(key.text()),
    {
        self.memtable.find(key).is_none()
            && self.memtable.key_offsets_of_most_recent_written_memtable().is_some()
    }

    /// `find` for a caller that has tried to read the segment: `segment` is
    /// the segment of the last flush, or `None` where it could not be read.
    ///
    /// Where the lookup reads the segment and there is none, the result is
    /// `IoFailure`. Else it is that of `find`, which without reading the
    /// segment is the same for every segment.
    pub fn find_after_read(&self, key: &K, segment: Option<&[u8]>) -> (result: Result<
        Option<String>,
        TableError,
    >)
        requires
            self.wf(),
        ensures
            outcome_text(result) == (match segment {
                Some(bytes) => self.find_outcome(key.text(), bytes@),
                None => if self.reads_segment(key.text()) {
                    Err(TableError::IoFailure)
                } else {
                    self.find_outcome(key.text(), Seq::empty())
                },
            }),
    {
        match segment {
            Some(bytes) => self.find(key, bytes),
            None => {
                if self.needs_segment(key) {
                    Err(TableError::IoFailure)
                } else {
                    let nothing: Vec<u8> = Vec::new();
                    self.find(key, nothing.as_slice())
                }
            },
        }
    }

    /// Looks `key` up: in the buffer, and where the buffer has no value for
    /// it, in `segment`, the segment of the last flush, if a sparse index of
    /// it is held. Without an index the segment is not read, and a key that
    /// it may hold is not found.
    pub fn find(&self, key: &K, segment: &[u8]) -> (result: Result<Option<String>, TableError>)
        requires
            self.wf(),
        ensures
            outcome_text(result) == self.find_outcome(key.text(), segment@),
    {
        proof {
            self.memtable.lemma_wf();
        }
        let memtable_search_result = self.memtable.find(key);
        if let Some(value) = memtable_search_result {
            proof {
                value.lemma_text_is_utf8();
            }
            let result_as_string = string_from_utf8(slice_to_vec(value.as_text()));
            return Ok(result_as_string);
        }
        match self.memtable.key_offsets_of_most_recent_written_memtable() {
            Some(key_offsets) => self.search_most_recent_memtable_file(key, key_offsets, segment),
            None => Ok(None),
        }
    }

    /// Scans `segment` for `key_to_find` from the offset that the sparse
    /// index gives for it.
    fn search_most_recent_memtable_file(
        &self,
        key_to_find: &K,
        key_offsets_of_most_recent_written_memtable: &Vec<(K, usize)>,
        segment: &[u8],
    ) -> (result: Result<Option<String>, TableError>)
        requires
            self.config().valid(),
            key_offsets_of_most_recent_written_memtable@.len() > 0,
        ensures
            outcome_text(result) == scan_from(
                self.config(),
                segment@,
                search_start(
                    index_of(key_offsets_of_most_recent_written_memtable@),
                    key_to_find.text(),
                ),
                key_to_find.text(),
            ),
    {
        let search_start_position = determine_file_search_start_position(
            key_to_find,
            key_offsets_of_most_recent_written_memtable,
        );
        search_file_for_key_from_starting_position_until_next_offset(
            key_to_find,
            &self.memtable_config,
            segment,
            search_start_position,
        )
    }
}

} // verus!

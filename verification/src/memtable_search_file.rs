//! The read path into a segment: the locator, which picks the byte offset
//! at which to start, and the scanner, which reads lines from there until
//! the key is found, the next marked line is reached, or the segment ends.

use crate::error::TableError;
use crate::memtable_config::{MemtableConfig, LINE_END};
use crate::memtable_write_to_file::index_of;
use crate::sorted_string_table::{StringLike, TextEncodable};
use crate::text::{
    begins_with,
    bytes_equal,
    bytes_less,
    bytes_precede,
    char_bytes,
    first_occurrence,
    lemma_bytes_less_total,
    lemma_first_occurrence,
    position_of,
    starts_with,
};
use vstd::prelude::*;
use vstd::slice::*;
use vstd::string::*;
use vstd::utf8::*;

verus! {

/// The position, at or after `from`, of the first entry of `index` whose key
/// comes strictly after `key`; the length of `index` where there is none.
pub open spec fn first_after(index: Seq<(Seq<u8>, int)>, key: Seq<u8>, from: int) -> int
    decreases index.len() - from,
{
    if from < 0 || from >= index.len() {
        index.len() as int
    } else if bytes_less(key, index[from].0) {
        from
    } else {
        first_after(index, key, from + 1)
    }
}

/// The offset at which a scan for `key` starts: 0 where `key` comes before
/// the first indexed key, else the offset of the entry just before the first
/// one whose key comes strictly after `key`, which is the last entry where
/// no key does.
pub open spec fn search_start(index: Seq<(Seq<u8>, int)>, key: Seq<u8>) -> int {
    let next = first_after(index, key, 0);
    if next == 0 {
        0
    } else {
        index[next - 1].1
    }
}

/// Where the locator sends a key that lies outside the index: to the start
/// of the segment if every indexed key comes after it, and to the last
/// indexed offset if every indexed key comes before it.
pub proof fn lemma_search_start_outside(index: Seq<(Seq<u8>, int)>, key: Seq<u8>)
    requires
        index.len() > 0,
    ensures
        (forall|i: int| 0 <= i < index.len() ==> bytes_less(key, (#[trigger] index[i]).0))
            ==> search_start(index, key) == 0,
        (forall|i: int| 0 <= i < index.len() ==> bytes_less((#[trigger] index[i]).0, key))
            ==> search_start(index, key) == index.last().1,
{
    if forall|i: int| 0 <= i < index.len() ==> bytes_less((#[trigger] index[i]).0, key) {
        assert forall|i: int| 0 <= i < index.len() implies !bytes_less(
            key,
            (#[trigger] index[i]).0,
        ) by {
            lemma_bytes_less_total(index[i].0, key);
        }
        lemma_first_after_none(index, key, 0);
    }
}

/// Where no key from `from` on comes after `key`, there is no first one.
proof fn lemma_first_after_none(index: Seq<(Seq<u8>, int)>, key: Seq<u8>, from: int)
    requires
        0 <= from <= index.len(),
        forall|i: int| from <= i < index.len() ==> !bytes_less(key, (#[trigger] index[i]).0),
    ensures
        first_after(index, key, from) == index.len(),
    decreases index.len() - from,
{
    if from < index.len() {
        lemma_first_after_none(index, key, from + 1);
    }
}

/// The key that a line's key part stands for: the part without a leading
/// marker.
pub open spec fn key_of_part(part: Seq<u8>, marker: Seq<u8>) -> Seq<u8> {
    if starts_with(part, marker) {
        part.skip(marker.len() as int)
    } else {
        part
    }
}

/// What a found value is handed out as: itself where it is UTF-8, and a
/// read failure where it is no text.
pub open spec fn value_outcome(value: Seq<u8>) -> Result<Option<Seq<u8>>, TableError> {
    if valid_utf8(value) {
        Ok(Some(value))
    } else {
        Err(TableError::IoFailure)
    }
}

/// What one line, without its line feed, decides in a scan for `target`:
/// `None` to read on, else the outcome of the scan.
///
/// A line that begins with the marker and is not the first one read ends
/// the scan with a miss. Any other line must hold the delimiter; it is a hit
/// if what stands in front of the first delimiter, without a leading marker,
/// is `target`, and the value is what follows that delimiter.
pub open spec fn judge_line(
    marker: Seq<u8>,
    delimiter: Seq<u8>,
    line: Seq<u8>,
    first: bool,
    target: Seq<u8>,
) -> Option<Result<Option<Seq<u8>>, TableError>> {
    if !first && starts_with(line, marker) {
        Some(Ok(None))
    } else {
        let split = first_occurrence(line, delimiter);
        if split >= line.len() {
            Some(Err(TableError::MalformedLine))
        } else if key_of_part(line.take(split), marker) == target {
            Some(value_outcome(line.skip(split + delimiter.len())))
        } else {
            None
        }
    }
}

/// The outcome of scanning `bytes` line by line for `target`; `first` says
/// whether the line at the front is the one the scan started on.
pub open spec fn scan(
    marker: Seq<u8>,
    delimiter: Seq<u8>,
    bytes: Seq<u8>,
    first: bool,
    target: Seq<u8>,
) -> Result<Option<Seq<u8>>, TableError>
    decreases bytes.len(),
{
    if bytes.len() == 0 {
        Ok(None)
    } else {
        let end = first_occurrence(bytes, seq![LINE_END]);
        match judge_line(marker, delimiter, bytes.take(end), first, target) {
            Some(outcome) => outcome,
            None => if 0 <= end < bytes.len() {
                scan(marker, delimiter, bytes.skip(end + 1), false, target)
            } else {
                Ok(None)
            },
        }
    }
}

/// The outcome of scanning `segment` for `target` from the byte offset
/// `start`. A start at or behind the end finds nothing.
pub open spec fn scan_from(config: MemtableConfig, segment: Seq<u8>, start: int, target: Seq<u8>)
    -> Result<Option<Seq<u8>>, TableError> {
    if 0 <= start < segment.len() {
        scan(config.marker(), config.delimiter(), segment.skip(start), true, target)
    } else {
        Ok(None)
    }
}

/// The text of a lookup's result.
pub open spec fn outcome_text(result: Result<Option<String>, TableError>) -> Result<
    Option<Seq<u8>>,
    TableError,
> {
    match result {
        Ok(Some(value)) => Ok(Some(value.text())),
        Ok(None) => Ok(None),
        Err(error) => Err(error),
    }
}

/// The text of one line's verdict.
pub open spec fn verdict_text(verdict: Option<Result<Option<String>, TableError>>) -> Option<
    Result<Option<Seq<u8>>, TableError>,
> {
    match verdict {
        Some(result) => Some(outcome_text(result)),
        None => None,
    }
}

/// Calls `String::from_utf8` of the standard library. Taken on trust, not
/// proved: the call succeeds exactly where `bytes` is valid UTF-8, and the
/// string it gives is made of those very bytes. A failure is handed on as
/// `None`.
#[verifier::external_body]
pub(crate) fn string_from_utf8(bytes: Vec<u8>) -> (text: Option<String>)
    ensures
        text is Some <==> valid_utf8(bytes@),
        text matches Some(string) ==> string.text() == bytes@,
{
    match String::from_utf8(bytes) {
        Ok(string) => Some(string),
        Err(_) => None,
    }
}

/// The offset at which a scan for `key_to_find` starts, given the sparse
/// index of the segment.
pub fn determine_file_search_start_position<K: StringLike>(
    key_to_find: &K,
    key_offsets_of_most_recent_written_memtable: &Vec<(K, usize)>,
) -> (position: usize)
    requires
        key_offsets_of_most_recent_written_memtable@.len() > 0,
    ensures
        position == search_start(
            index_of(key_offsets_of_most_recent_written_memtable@),
            key_to_find.text(),
        ),
{
    let ghost index = index_of(key_offsets_of_most_recent_written_memtable@);
    let ghost key = key_to_find.text();
    let mut i: usize = 0;
    while i < key_offsets_of_most_recent_written_memtable.len()
        invariant
            index == index_of(key_offsets_of_most_recent_written_memtable@),
            key == key_to_find.text(),
            i <= index.len(),
            first_after(index, key, 0) == first_after(index, key, i as int),
        decreases index.len() - i,
    {
        if bytes_precede(
            key_to_find.as_text(),
            key_offsets_of_most_recent_written_memtable[i].0.as_text(),
        ) {
            if i == 0 {
                return 0;
            }
            return key_offsets_of_most_recent_written_memtable[i - 1].1;
        }
        i += 1;
    }
    key_offsets_of_most_recent_written_memtable[i - 1].1
}

/// Whether the key part of `line`, which ends at `delimiter_position`,
/// stands for `key_to_find`.
pub fn check_key_equality<K: StringLike>(
    line: &[u8],
    delimiter_position: usize,
    key_to_find: &K,
    marker: &[u8],
) -> (same: bool)
    requires
        delimiter_position <= line@.len(),
    ensures
        same == (key_of_part(line@.take(delimiter_position as int), marker@) == key_to_find.text()),
{
    let key_part = slice_subrange(line, 0, delimiter_position);
    let skipped: usize = if begins_with(key_part, marker) {
        marker.len()
    } else {
        0
    };
    let parsed_key = slice_subrange(key_part, skipped, delimiter_position);
    assert(parsed_key@ =~= key_of_part(line@.take(delimiter_position as int), marker@));
    bytes_equal(parsed_key, key_to_find.as_text())
}

/// The value of `line`, which begins at `value_position`, as a string;
/// `None` where the value is no text.
pub fn parse_value_as_string_type_from_line(line: &[u8], value_position: usize) -> (value: Option<
    String,
>)
    requires
        value_position <= line@.len(),
    ensures
        match value {
            Some(string) => value_outcome(line@.skip(value_position as int)) == Ok::<
                Option<Seq<u8>>,
                TableError,
            >(Some(string.text())),
            None => value_outcome(line@.skip(value_position as int)) is Err,
        },
{
    let bytes = slice_to_vec(slice_subrange(line, value_position, line.len()));
    string_from_utf8(bytes)
}

/// What one line, without its line feed, decides in a scan for
/// `key_to_find`: `None` to read on, else the outcome of the scan.
pub fn examine_line<K: StringLike>(
    key_to_find: &K,
    marker: &[u8],
    delimiter: &[u8],
    line: &[u8],
    first: bool,
) -> (verdict: Option<Result<Option<String>, TableError>>)
    ensures
        verdict_text(verdict) == judge_line(marker@, delimiter@, line@, first, key_to_find.text()),
{
    let end_of_segment = !first && begins_with(line, marker);
    if end_of_segment {
        return Some(Ok(None));
    }
    let delimiter_position = position_of(line, delimiter);
    if delimiter_position >= line.len() {
        return Some(Err(TableError::MalformedLine));
    }
    proof {
        lemma_first_occurrence(line@, delimiter@);
    }
    if check_key_equality(line, delimiter_position, key_to_find, marker) {
        match parse_value_as_string_type_from_line(line, delimiter_position + delimiter.len()) {
            Some(value) => Some(Ok(Some(value))),
            None => Some(Err(TableError::IoFailure)),
        }
    } else {
        None
    }
}

/// Scans `segment` for `key_to_find`, line by line from the byte offset
/// `search_start_position`, and returns the value of the first line with
/// that key.
///
/// `Ok(None)` says that the key is in none of the lines read: the scan came
/// to a marked line other than the one it started on, or to the end. A line
/// without delimiter ends the scan with `MalformedLine`, a value that is not
/// UTF-8 with `IoFailure`.
pub fn search_file_for_key_from_starting_position_until_next_offset<K: StringLike>(
    key_to_find: &K,
    memtable_config: &MemtableConfig,
    segment: &[u8],
    search_start_position: usize,
) -> (result: Result<Option<String>, TableError>)
    ensures
        outcome_text(result) == scan_from(
            *memtable_config,
            segment@,
            search_start_position as int,
            key_to_find.text(),
        ),
{
    if search_start_position >= segment.len() {
        return Ok(None);
    }
    let marker = char_bytes(memtable_config.key_offset_indicator);
    let delimiter = char_bytes(memtable_config.key_value_delimeter);
    let line_end: Vec<u8> = vec![LINE_END];
    let mut position: usize = search_start_position;
    let mut first = true;
    while position < segment.len()
        invariant
            position <= segment@.len(),
            marker@ == memtable_config.marker(),
            delimiter@ == memtable_config.delimiter(),
            line_end@ == seq![LINE_END],
            scan_from(
                *memtable_config,
                segment@,
                search_start_position as int,
                key_to_find.text(),
            ) == scan(
                marker@,
                delimiter@,
                segment@.skip(position as int),
                first,
                key_to_find.text(),
            ),
        decreases segment@.len() - position,
    {
        let rest = slice_subrange(segment, position, segment.len());
        let line_length = position_of(rest, line_end.as_slice());
        proof {
            lemma_first_occurrence(rest@, line_end@);
        }
        let line = slice_subrange(rest, 0, line_length);
        match examine_line(key_to_find, marker.as_slice(), delimiter.as_slice(), line, first) {
            Some(outcome) => {
                return outcome;
            },
            None => {},
        }
        if line_length >= rest.len() {
            return Ok(None);
        }
        assert(rest@.skip(line_length + 1) =~= segment@.skip(position + line_length + 1));
        position = position + line_length + 1;
        first = false;
    }
    Ok(None)
}

} // verus!

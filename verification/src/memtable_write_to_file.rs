//! The segment writer: a sorted batch of pairs becomes the text of a segment
//! and a sparse index into it.
//!
//! A segment holds one line per pair, `key<delimiter>value\n`. Every
//! `stride`-th line, but neither the first nor the last, is written as
//! `<marker>key<delimiter>value\n` and entered in the sparse index with the
//! byte offset at which it starts.

use crate::memtable_config::{MemtableConfig, LINE_END};
use crate::sorted_string_table::{StringLike, TextEncodable};
use crate::text::{char_bytes, char_text};
use vstd::prelude::*;

verus! {

/// The texts of a batch of pairs, in the order of the batch.
pub open spec fn entries_of<K: TextEncodable, V: TextEncodable>(pairs: Seq<(K, V)>) -> Seq<
    (Seq<u8>, Seq<u8>),
> {
    Seq::new(pairs.len(), |i: int| (pairs[i].0.text(), pairs[i].1.text()))
}

/// A sparse index as key texts and offsets.
pub open spec fn index_of<K: TextEncodable>(offsets: Seq<(K, usize)>) -> Seq<(Seq<u8>, int)> {
    Seq::new(offsets.len(), |i: int| (offsets[i].0.text(), offsets[i].1 as int))
}

/// Whether the line at `index` of a batch whose last line is at `end_index`
/// is entered in the sparse index.
pub open spec fn is_marker_position(index: int, end_index: int, stride: int) -> bool {
    index != 0 && index != end_index && index % stride == 0
}

/// Whether the line of the pair at `index` of `entries` is marked.
pub open spec fn line_is_marked(
    config: MemtableConfig,
    entries: Seq<(Seq<u8>, Seq<u8>)>,
    index: int,
) -> bool {
    is_marker_position(index, entries.len() - 1, config.stride())
}

/// The line of one pair, without marker.
pub open spec fn plain_line(key: Seq<u8>, value: Seq<u8>, delimiter: Seq<u8>) -> Seq<u8> {
    key + delimiter + value + seq![LINE_END]
}

/// The line of one pair, with the marker in front.
pub open spec fn marked_line(
    key: Seq<u8>,
    value: Seq<u8>,
    marker: Seq<u8>,
    delimiter: Seq<u8>,
) -> Seq<u8> {
    marker + plain_line(key, value, delimiter)
}

/// The line written for the pair at `index` of `entries`.
pub open spec fn entry_line(config: MemtableConfig, entries: Seq<(Seq<u8>, Seq<u8>)>, index: int)
    -> Seq<u8> {
    if line_is_marked(config, entries, index) {
        marked_line(entries[index].0, entries[index].1, config.marker(), config.delimiter())
    } else {
        plain_line(entries[index].0, entries[index].1, config.delimiter())
    }
}

/// The first `count` lines of the segment of `entries`, one after the other.
pub open spec fn segment_text(
    config: MemtableConfig,
    entries: Seq<(Seq<u8>, Seq<u8>)>,
    count: int,
) -> Seq<u8>
    decreases count,
{
    if count <= 0 {
        Seq::empty()
    } else {
        segment_text(config, entries, count - 1) + entry_line(config, entries, count - 1)
    }
}

/// The byte offset at which the line of the pair at `index` starts.
pub open spec fn line_offset(config: MemtableConfig, entries: Seq<(Seq<u8>, Seq<u8>)>, index: int)
    -> int {
    segment_text(config, entries, index).len() as int
}

/// The sparse index over the first `count` lines of the segment of
/// `entries`: key and offset of each marked line, in the order of the lines.
pub open spec fn sparse_index(
    config: MemtableConfig,
    entries: Seq<(Seq<u8>, Seq<u8>)>,
    count: int,
) -> Seq<(Seq<u8>, int)>
    decreases count,
{
    if count <= 0 {
        Seq::empty()
    } else if line_is_marked(config, entries, count - 1) {
        sparse_index(config, entries, count - 1).push(
            (entries[count - 1].0, line_offset(config, entries, count - 1)),
        )
    } else {
        sparse_index(config, entries, count - 1)
    }
}

/// The whole segment of a batch.
pub open spec fn segment_of(config: MemtableConfig, entries: Seq<(Seq<u8>, Seq<u8>)>) -> Seq<u8> {
    segment_text(config, entries, entries.len() as int)
}

/// The whole sparse index of a batch; empty where no line is marked.
pub open spec fn sparse_index_of(config: MemtableConfig, entries: Seq<(Seq<u8>, Seq<u8>)>) -> Seq<
    (Seq<u8>, int),
> {
    sparse_index(config, entries, entries.len() as int)
}

/// Adds `bytes` at the end of `output`.
pub fn append_bytes(output: &mut Vec<u8>, bytes: &[u8])
    ensures
        final(output)@ == old(output)@ + bytes@,
{
    output.extend_from_slice(bytes);
}

/// Whether the line at `index` of a batch whose last line is at `end_index`
/// is entered in the sparse index.
pub fn is_key_offset_index(index: usize, end_index: usize, key_offset_frequency: u32) -> (marked:
    bool)
    requires
        key_offset_frequency > 0,
    ensures
        marked == is_marker_position(index as int, end_index as int, key_offset_frequency as int),
{
    index != 0 && index != end_index && index % (key_offset_frequency as usize) == 0
}

/// The line of one pair, without marker.
pub fn create_key_value_string<K: StringLike, V: TextEncodable>(
    key: &K,
    value: &V,
    delimeter: char,
) -> (line: Vec<u8>)
    ensures
        line@ == plain_line(key.text(), value.text(), char_text(delimeter)),
{
    let mut line: Vec<u8> = Vec::new();
    append_bytes(&mut line, key.as_text());
    append_bytes(&mut line, char_bytes(delimeter).as_slice());
    value.write_text(&mut line);
    line.push(LINE_END);
    line
}

/// The line of one pair, with the marker in front.
pub fn create_key_value_offset_string<K: StringLike, V: TextEncodable>(
    key: &K,
    value: &V,
    offset_indicator: char,
    delimeter: char,
) -> (line: Vec<u8>)
    ensures
        line@ == marked_line(
            key.text(),
            value.text(),
            char_text(offset_indicator),
            char_text(delimeter),
        ),
{
    let mut line: Vec<u8> = char_bytes(offset_indicator);
    append_bytes(&mut line, key.as_text());
    append_bytes(&mut line, char_bytes(delimeter).as_slice());
    value.write_text(&mut line);
    line.push(LINE_END);
    line
}

/// Writes the segment of a batch of pairs into `output`, in place of what
/// `output` held, and returns the sparse index of the segment, or `None`
/// where no line is marked.
///
/// The batch is written in the order given; the caller passes it sorted.
pub fn write_data_to_file<K: StringLike, V: TextEncodable>(
    config: &MemtableConfig,
    key_value_pairs: &[(K, V)],
    output: &mut Vec<u8>,
) -> (key_offsets: Option<Vec<(K, usize)>>)
    requires
        config.valid(),
    ensures
        final(output)@ == segment_of(*config, entries_of(key_value_pairs@)),
        match key_offsets {
            Some(offsets) => offsets@.len() > 0 && index_of(offsets@) == sparse_index_of(
                *config,
                entries_of(key_value_pairs@),
            ),
            None => sparse_index_of(*config, entries_of(key_value_pairs@)).len() == 0,
        },
{
    let number_of_key_value_pairs = key_value_pairs.len();
    let ghost entries = entries_of(key_value_pairs@);
    let mut key_offsets: Vec<(K, usize)> = Vec::new();
    output.clear();
    let mut index: usize = 0;
    let mut accumulated_offset: usize = 0;
    while index < number_of_key_value_pairs
        invariant
            config.valid(),
            number_of_key_value_pairs == key_value_pairs@.len(),
            entries == entries_of(key_value_pairs@),
            index <= number_of_key_value_pairs,
            accumulated_offset == output@.len(),
            output@ == segment_text(*config, entries, index as int),
            index_of(key_offsets@) == sparse_index(*config, entries, index as int),
        decreases number_of_key_value_pairs - index,
    {
        let end_index: usize = number_of_key_value_pairs - 1;
        let key = &key_value_pairs[index].0;
        let value = &key_value_pairs[index].1;
        let key_value_line_to_write = if is_key_offset_index(
            index,
            end_index,
            config.key_offset_frequency,
        ) {
            key_offsets.push((key.duplicate(), accumulated_offset));
            create_key_value_offset_string(
                key,
                value,
                config.key_offset_indicator,
                config.key_value_delimeter,
            )
        } else {
            create_key_value_string(key, value, config.key_value_delimeter)
        };
        append_bytes(output, key_value_line_to_write.as_slice());
        accumulated_offset = output.len();
        index += 1;
    }
    if key_offsets.len() > 0 {
        Some(key_offsets)
    } else {
        None
    }
}

} // verus!

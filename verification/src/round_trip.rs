//! What is written can be read back: the laws that tie the segment writer,
//! the locator and the scanner together.

use crate::error::TableError;
use crate::memtable::{lemma_slot_sorted, lookup, slot, sorted};
use crate::memtable_config::{MemtableConfig, LINE_END};
use crate::memtable_search_file::{
    first_after,
    key_of_part,
    scan,
    scan_from,
    search_start,
};
use crate::memtable_write_to_file::{
    entry_line,
    line_is_marked,
    line_offset,
    marked_line,
    plain_line,
    segment_of,
    segment_text,
    sparse_index,
    sparse_index_of,
};
use crate::text::{
    bytes_less,
    first_occurrence,
    lemma_bytes_less_total,
    lemma_char_text_differs,
    lemma_char_text_shape,
    lemma_first_occurrence_is,
    starts_with,
};
use vstd::prelude::*;
use vstd::utf8::*;

verus! {

/// A key that a segment line can hold: without delimiter and line feed, and
/// not beginning with the marker.
pub open spec fn key_fits(config: MemtableConfig, key: Seq<u8>) -> bool {
    &&& forall|at: int|
        0 <= at < key.len() ==> !starts_with(#[trigger] key.skip(at), config.delimiter())
    &&& forall|j: int| 0 <= j < key.len() ==> key[j] != LINE_END
    &&& !starts_with(key, config.marker())
}

/// A value that a segment line can hold: UTF-8 without line feed.
pub open spec fn value_fits(value: Seq<u8>) -> bool {
    &&& forall|j: int| 0 <= j < value.len() ==> value[j] != LINE_END
    &&& valid_utf8(value)
}

/// A batch whose keys and values all fit.
pub open spec fn batch_fits(config: MemtableConfig, entries: Seq<(Seq<u8>, Seq<u8>)>) -> bool {
    forall|i: int|
        0 <= i < entries.len() ==> key_fits(config, (#[trigger] entries[i]).0) && value_fits(
            entries[i].1,
        )
}

/// The positions below `count` of the marked lines of a batch, ascending.
pub open spec fn marked_positions(
    config: MemtableConfig,
    entries: Seq<(Seq<u8>, Seq<u8>)>,
    count: int,
) -> Seq<int>
    decreases count,
{
    if count <= 0 {
        Seq::empty()
    } else if line_is_marked(config, entries, count - 1) {
        marked_positions(config, entries, count - 1).push(count - 1)
    } else {
        marked_positions(config, entries, count - 1)
    }
}

/// The segment of a batch from the line of the pair at `index` on.
pub open spec fn segment_tail(config: MemtableConfig, entries: Seq<(Seq<u8>, Seq<u8>)>, index: int)
    -> Seq<u8> {
    segment_of(config, entries).skip(line_offset(config, entries, index))
}

/// The marked positions are ascending positions of marked lines below
/// `count`, and every such position is among them.
pub proof fn lemma_marked_positions(
    config: MemtableConfig,
    entries: Seq<(Seq<u8>, Seq<u8>)>,
    count: int,
)
    ensures
        forall|j: int|
            0 <= j < marked_positions(config, entries, count).len() ==> 0 <= (
            #[trigger] marked_positions(config, entries, count)[j]) < count && line_is_marked(
                config,
                entries,
                marked_positions(config, entries, count)[j],
            ),
        forall|i: int, j: int|
            0 <= i < j < marked_positions(config, entries, count).len() ==> (
            #[trigger] marked_positions(config, entries, count)[i]) < (#[trigger] marked_positions(
                config,
                entries,
                count,
            )[j]),
        forall|position: int|
            0 <= position < count && #[trigger] line_is_marked(config, entries, position)
                ==> marked_positions(config, entries, count).contains(position),
    decreases count,
{
    if count > 0 {
        lemma_marked_positions(config, entries, count - 1);
        let before = marked_positions(config, entries, count - 1);
        let now = marked_positions(config, entries, count);
        assert forall|position: int|
            0 <= position < count && #[trigger] line_is_marked(
                config,
                entries,
                position,
            ) implies now.contains(position) by {
            if position < count - 1 {
                let j = choose|j: int| 0 <= j < before.len() && before[j] == position;
                assert(now[j] == position);
            } else {
                assert(now[now.len() - 1] == position);
            }
        }
    }
}

/// The sparse index holds, for each marked position in turn, the key of the
/// pair there and the offset of its line.
pub proof fn lemma_sparse_index_by_position(
    config: MemtableConfig,
    entries: Seq<(Seq<u8>, Seq<u8>)>,
    count: int,
)
    ensures
        sparse_index(config, entries, count).len() == marked_positions(config, entries, count).len(),
        forall|j: int|
            0 <= j < sparse_index(config, entries, count).len() ==> (#[trigger] sparse_index(
                config,
                entries,
                count,
            )[j]) == (
                entries[marked_positions(config, entries, count)[j]].0,
                line_offset(config, entries, marked_positions(config, entries, count)[j]),
            ),
    decreases count,
{
    if count > 0 {
        lemma_sparse_index_by_position(config, entries, count - 1);
    }
}

/// Every line holds at least its line feed, so the lines start at ascending
/// offsets, all within the segment.
pub proof fn lemma_line_offsets(
    config: MemtableConfig,
    entries: Seq<(Seq<u8>, Seq<u8>)>,
    low: int,
    high: int,
)
    requires
        0 <= low <= high <= entries.len(),
    ensures
        line_offset(config, entries, low) + (high - low) <= line_offset(config, entries, high),
        line_offset(config, entries, 0) == 0,
    decreases high - low,
{
    if low < high {
        lemma_line_offsets(config, entries, low, high - 1);
    }
}

/// The first `low` lines are the front of the first `high` lines.
pub proof fn lemma_segment_text_front(
    config: MemtableConfig,
    entries: Seq<(Seq<u8>, Seq<u8>)>,
    low: int,
    high: int,
)
    requires
        0 <= low <= high,
    ensures
        segment_text(config, entries, low).len() <= segment_text(config, entries, high).len(),
        segment_text(config, entries, high).take(segment_text(config, entries, low).len() as int)
            == segment_text(config, entries, low),
    decreases high - low,
{
    if low < high {
        lemma_segment_text_front(config, entries, low, high - 1);
    }
}

/// From a line on, the segment is that line and then the segment from the
/// next line on; behind the last line nothing is left.
pub proof fn lemma_segment_tail(
    config: MemtableConfig,
    entries: Seq<(Seq<u8>, Seq<u8>)>,
    index: int,
)
    requires
        0 <= index <= entries.len(),
    ensures
        index < entries.len() ==> segment_tail(config, entries, index) == entry_line(
            config,
            entries,
            index,
        ) + segment_tail(config, entries, index + 1),
        index == entries.len() ==> segment_tail(config, entries, index).len() == 0,
{
    if index < entries.len() {
        // The segment begins with the lines up to and with this one.
        let whole = segment_of(config, entries);
        let front = segment_text(config, entries, index + 1);
        lemma_segment_text_front(config, entries, index + 1, entries.len() as int);
        assert forall|j: int| 0 <= j < front.len() implies whole[j] == front[j] by {
        }
    }
}

/// Neither the delimiter nor the marker of a format that can be read back
/// holds a line feed.
pub proof fn lemma_reserved_bytes(config: MemtableConfig)
    requires
        config.unambiguous(),
    ensures
        forall|j: int|
            0 <= j < config.delimiter().len() ==> #[trigger] config.delimiter()[j] != LINE_END,
        forall|j: int| 0 <= j < config.marker().len() ==> #[trigger] config.marker()[j] != LINE_END,
{
    lemma_char_text_shape(config.key_value_delimeter);
    lemma_char_text_shape(config.key_offset_indicator);
}

/// In front of the delimiter that follows a key that fits, behind the marker
/// or not, the delimiter does not occur.
pub proof fn lemma_first_delimiter(
    config: MemtableConfig,
    key: Seq<u8>,
    marked: bool,
    value: Seq<u8>,
)
    requires
        config.unambiguous(),
        key_fits(config, key),
    ensures
        first_occurrence(
            (if marked {
                config.marker()
            } else {
                Seq::empty()
            }) + key + config.delimiter() + value,
            config.delimiter(),
        ) == (if marked {
            config.marker().len()
        } else {
            0
        }) + key.len(),
{
    let delimiter = config.delimiter();
    let marker = config.marker();
    lemma_char_text_shape(config.key_value_delimeter);
    lemma_char_text_shape(config.key_offset_indicator);
    lemma_char_text_differs(config.key_value_delimeter, config.key_offset_indicator);
    let lead: Seq<u8> = if marked {
        marker
    } else {
        Seq::empty()
    };
    let body = lead + key + delimiter + value;
    let split = lead.len() + key.len();
    assert(body.skip(split as int).take(delimiter.len() as int) =~= delimiter);
    assert forall|at: int| 0 <= at < split implies !starts_with(
        #[trigger] body.skip(at),
        delimiter,
    ) by {
        if starts_with(body.skip(at), delimiter) {
            if at < lead.len() {
                // A delimiter that begins within the marker begins with its
                // first byte, and then is the marker.
                assert(marker =~= delimiter);
            } else if at + delimiter.len() <= split {
                // A delimiter within the key.
                assert(key.skip(at - lead.len()).take(delimiter.len() as int) =~= body.skip(
                    at,
                ).take(delimiter.len() as int));
            } else {
                // A delimiter that runs into the one behind the key would
                // hold its own first byte further back.
                let gap = split - at;
                assert(body[at + gap] == delimiter[gap]);
            }
        }
    }
    lemma_first_occurrence_is(body, delimiter, split as int);
}

/// A line without marker, of a key that fits, does not begin with the
/// marker.
pub proof fn lemma_plain_line_has_no_marker(config: MemtableConfig, key: Seq<u8>, value: Seq<u8>)
    requires
        config.unambiguous(),
        key_fits(config, key),
    ensures
        !starts_with(key + config.delimiter() + value, config.marker()),
{
    let delimiter = config.delimiter();
    let marker = config.marker();
    lemma_char_text_shape(config.key_value_delimeter);
    lemma_char_text_shape(config.key_offset_indicator);
    lemma_char_text_differs(config.key_value_delimeter, config.key_offset_indicator);
    let body = key + delimiter + value;
    if starts_with(body, marker) {
        assert forall|j: int| 0 <= j < marker.len() implies body[j] == marker[j] by {
        }
        if key.len() >= marker.len() {
            assert(key.take(marker.len() as int) =~= body.take(marker.len() as int));
        } else {
            // The marker would run into the delimiter.
            assert(body[key.len() as int] == delimiter[0]);
            assert(marker =~= delimiter);
        }
    }
}

/// What the scanner makes of a written line followed by `rest`: a marked
/// line that the scan did not start on ends it with a miss, a line with the
/// key is a hit with the value written, and any other line is passed over.
pub proof fn lemma_scan_line(
    config: MemtableConfig,
    key: Seq<u8>,
    value: Seq<u8>,
    marked: bool,
    rest: Seq<u8>,
    first: bool,
    target: Seq<u8>,
)
    requires
        config.unambiguous(),
        key_fits(config, key),
        value_fits(value),
    ensures
        scan(
            config.marker(),
            config.delimiter(),
            (if marked {
                marked_line(key, value, config.marker(), config.delimiter())
            } else {
                plain_line(key, value, config.delimiter())
            }) + rest,
            first,
            target,
        ) == (if marked && !first {
            Ok::<Option<Seq<u8>>, TableError>(None)
        } else if key == target {
            Ok(Some(value))
        } else {
            scan(config.marker(), config.delimiter(), rest, false, target)
        }),
{
    let delimiter = config.delimiter();
    let marker = config.marker();
    let lead: Seq<u8> = if marked {
        marker
    } else {
        Seq::empty()
    };
    let body = lead + key + delimiter + value;
    let line = if marked {
        marked_line(key, value, marker, delimiter)
    } else {
        plain_line(key, value, delimiter)
    };
    let bytes = line + rest;
    lemma_reserved_bytes(config);
    // The line feed of the line is the first one: the line read is `body`,
    // and `rest` is what is left.
    assert forall|at: int| 0 <= at < body.len() implies !starts_with(
        #[trigger] bytes.skip(at),
        seq![LINE_END],
    ) by {
        assert(bytes.skip(at).take(1)[0] == body[at]);
    }
    assert(bytes.skip(body.len() as int).take(1) =~= seq![LINE_END]);
    lemma_first_occurrence_is(bytes, seq![LINE_END], body.len() as int);
    assert(bytes.take(body.len() as int) =~= body);
    assert(bytes.skip(body.len() as int + 1) =~= rest);
    // The delimiter behind the key is the first one: the key part is the
    // key, behind the marker if there is one, and the value is what follows.
    let split = lead.len() + key.len();
    lemma_first_delimiter(config, key, marked, value);
    assert(body.skip((split + delimiter.len()) as int) =~= value);
    assert(body.take(split as int) =~= lead + key);
    if marked {
        assert((marker + key).take(marker.len() as int) =~= marker);
        assert(body.take(marker.len() as int) =~= marker);
    } else {
        lemma_plain_line_has_no_marker(config, key, value);
    }
    assert(key_of_part(body.take(split as int), marker) == key);
}

/// A scan that starts at the line of the pair at `from`, or has come to it,
/// and meets neither the key nor a marked line up to the pair at `hit`,
/// which has the key, finds the value of that pair.
pub proof fn lemma_scan_hit(
    config: MemtableConfig,
    entries: Seq<(Seq<u8>, Seq<u8>)>,
    from: int,
    hit: int,
    first: bool,
    target: Seq<u8>,
)
    requires
        config.unambiguous(),
        batch_fits(config, entries),
        0 <= from <= hit < entries.len(),
        entries[hit].0 == target,
        forall|j: int| from <= j < hit ==> (#[trigger] entries[j]).0 != target,
        forall|j: int| from < j <= hit ==> !#[trigger] line_is_marked(config, entries, j),
        first || !line_is_marked(config, entries, from),
    ensures
        scan(
            config.marker(),
            config.delimiter(),
            segment_tail(config, entries, from),
            first,
            target,
        ) == Ok::<
            Option<Seq<u8>>,
            TableError,
        >(Some(entries[hit].1)),
    decreases hit - from,
{
    lemma_segment_tail(config, entries, from);
    let marked = line_is_marked(config, entries, from);
    lemma_scan_line(
        config,
        entries[from].0,
        entries[from].1,
        marked,
        segment_tail(config, entries, from + 1),
        first,
        target,
    );
    if from < hit {
        lemma_scan_hit(config, entries, from + 1, hit, false, target);
    }
}

/// A scan that starts at the line of the pair at `from`, or has come to it,
/// and does not meet the key in front of the pair at `end`, where a marked
/// line or the end of the segment stops it, finds nothing.
pub proof fn lemma_scan_miss(
    config: MemtableConfig,
    entries: Seq<(Seq<u8>, Seq<u8>)>,
    from: int,
    end: int,
    first: bool,
    target: Seq<u8>,
)
    requires
        config.unambiguous(),
        batch_fits(config, entries),
        0 <= from <= end <= entries.len(),
        forall|j: int| from <= j < end ==> (#[trigger] entries[j]).0 != target,
        end < entries.len() ==> line_is_marked(config, entries, end),
        from < end || !first,
    ensures
        scan(
            config.marker(),
            config.delimiter(),
            segment_tail(config, entries, from),
            first,
            target,
        ) == Ok::<
            Option<Seq<u8>>,
            TableError,
        >(None),
    decreases end - from,
{
    lemma_segment_tail(config, entries, from);
    if from < entries.len() {
        let marked = line_is_marked(config, entries, from);
        lemma_scan_line(
            config,
            entries[from].0,
            entries[from].1,
            marked,
            segment_tail(config, entries, from + 1),
            first,
            target,
        );
        if from < end && (first || !marked) {
            lemma_scan_miss(config, entries, from + 1, end, false, target);
        }
    }
}

/// A segment has a sparse index exactly where its batch is at least two
/// pairs longer than the stride: a batch of one pair, or of no more pairs
/// than the stride, has none.
pub proof fn lemma_index_exists(config: MemtableConfig, entries: Seq<(Seq<u8>, Seq<u8>)>)
    requires
        config.valid(),
    ensures
        sparse_index_of(config, entries).len() > 0 <==> entries.len() >= config.stride() + 2,
{
    let count = entries.len() as int;
    let stride = config.stride();
    let positions = marked_positions(config, entries, count);
    lemma_marked_positions(config, entries, count);
    lemma_sparse_index_by_position(config, entries, count);
    if count >= stride + 2 {
        assert(stride % stride == 0) by (nonlinear_arith)
            requires
                stride > 0,
        ;
        assert(line_is_marked(config, entries, stride));
    }
    if positions.len() > 0 {
        let position = positions[0];
        assert(position >= stride) by (nonlinear_arith)
            requires
                stride > 0,
                position > 0,
                position % stride == 0,
        ;
    }
}

/// The first entry of an index whose key comes after `key`: no entry in
/// front of it does, and it does.
pub proof fn lemma_first_after(index: Seq<(Seq<u8>, int)>, key: Seq<u8>, from: int)
    requires
        0 <= from <= index.len(),
    ensures
        from <= first_after(index, key, from) <= index.len(),
        forall|j: int|
            from <= j < first_after(index, key, from) ==> !bytes_less(key, (#[trigger] index[j]).0),
        first_after(index, key, from) < index.len() ==> bytes_less(
            key,
            index[first_after(index, key, from)].0,
        ),
    decreases index.len() - from,
{
    if from < index.len() && !bytes_less(key, index[from].0) {
        lemma_first_after(index, key, from + 1);
    }
}

/// The sparse index of a sorted batch is strictly ascending in its keys and
/// in its offsets.
pub proof fn lemma_sparse_index_ascending(config: MemtableConfig, entries: Seq<(Seq<u8>, Seq<u8>)>)
    requires
        sorted(entries),
    ensures
        forall|i: int, j: int|
            0 <= i < j < sparse_index_of(config, entries).len() ==> bytes_less(
                (#[trigger] sparse_index_of(config, entries)[i]).0,
                (#[trigger] sparse_index_of(config, entries)[j]).0,
            ) && sparse_index_of(config, entries)[i].1 < sparse_index_of(config, entries)[j].1,
        forall|i: int|
            0 <= i < sparse_index_of(config, entries).len() ==> 0 < (#[trigger] sparse_index_of(
                config,
                entries,
            )[i]).1 < segment_of(config, entries).len(),
{
    let count = entries.len() as int;
    let index = sparse_index_of(config, entries);
    let positions = marked_positions(config, entries, count);
    lemma_marked_positions(config, entries, count);
    lemma_sparse_index_by_position(config, entries, count);
    assert forall|i: int, j: int| 0 <= i < j < index.len() implies bytes_less(
        (#[trigger] index[i]).0,
        (#[trigger] index[j]).0,
    ) && index[i].1 < index[j].1 by {
        lemma_line_offsets(config, entries, positions[i], positions[j]);
    }
    assert forall|i: int| 0 <= i < index.len() implies 0 < (#[trigger] index[i]).1 < segment_of(
        config,
        entries,
    ).len() by {
        lemma_line_offsets(config, entries, positions[i], count);
    }
}

/// Reading back what was written: for a sorted batch of keys and values
/// that fit, whose segment has a sparse index, a scan of the segment from
/// the offset that the index gives for a key finds the value written under
/// that key, and finds nothing for a key that is not in the batch.
pub proof fn lemma_round_trip(
    config: MemtableConfig,
    entries: Seq<(Seq<u8>, Seq<u8>)>,
    target: Seq<u8>,
)
    requires
        config.unambiguous(),
        sorted(entries),
        batch_fits(config, entries),
        sparse_index_of(config, entries).len() > 0,
    ensures
        scan_from(
            config,
            segment_of(config, entries),
            search_start(sparse_index_of(config, entries), target),
            target,
        ) == Ok::<Option<Seq<u8>>, TableError>(lookup(entries, target)),
{
    let count = entries.len() as int;
    let index = sparse_index_of(config, entries);
    let positions = marked_positions(config, entries, count);
    lemma_marked_positions(config, entries, count);
    lemma_sparse_index_by_position(config, entries, count);
    let next = first_after(index, target, 0);
    lemma_first_after(index, target, 0);
    // The scan starts at the line of the pair at `from` and is stopped by
    // the marked line of the pair at `end`, or by the end of the segment. No
    // line between the two is marked.
    let from = if next == 0 {
        0
    } else {
        positions[next - 1]
    };
    let end = if next < index.len() {
        positions[next]
    } else {
        count
    };
    lemma_line_offsets(config, entries, from, count);
    let at = slot(entries, target, 0);
    lemma_slot_sorted(entries, target);
    if at < entries.len() && entries[at].0 == target {
        // The key is in the batch, and the order puts it between `from` and `end`.
        assert(at < end) by {
            if end < at {
                lemma_bytes_less_total(entries[end].0, target);
            }
        }
        lemma_scan_hit(config, entries, from, at, true, target);
    } else {
        lemma_scan_miss(config, entries, from, end, true, target);
    }
}

} // verus!

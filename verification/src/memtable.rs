//! The buffer: pairs kept sorted by key until a flush turns them into a
//! segment.

use crate::memtable_config::MemtableConfig;
use crate::memtable_write_to_file::{
    entries_of,
    index_of,
    segment_of,
    sparse_index_of,
    write_data_to_file,
};
use crate::sorted_string_table::StringLike;
use crate::text::{
    bytes_equal,
    bytes_less,
    bytes_precede,
    lemma_bytes_less_total,
    lemma_bytes_less_transitive,
};
use vstd::prelude::*;

verus! {

/// Keys strictly ascending: sorted, and no key twice.
pub open spec fn sorted(entries: Seq<(Seq<u8>, Seq<u8>)>) -> bool {
    forall|i: int, j: int|
        0 <= i < j < entries.len() ==> bytes_less(#[trigger] entries[i].0, #[trigger] entries[j].0)
}

/// The position, at or after `from`, of the first entry whose key does not
/// come before `key`; the length of `entries` where every key does.
pub open spec fn slot(entries: Seq<(Seq<u8>, Seq<u8>)>, key: Seq<u8>, from: int) -> int
    decreases entries.len() - from,
{
    if from < 0 || from >= entries.len() {
        entries.len() as int
    } else if !bytes_less(entries[from].0, key) {
        from
    } else {
        slot(entries, key, from + 1)
    }
}

/// The value stored under `key`.
pub open spec fn lookup(entries: Seq<(Seq<u8>, Seq<u8>)>, key: Seq<u8>) -> Option<Seq<u8>> {
    let at = slot(entries, key, 0);
    if at < entries.len() && entries[at].0 == key {
        Some(entries[at].1)
    } else {
        None
    }
}

/// `entries` with `value` stored under `key`: in place of the value that
/// was there, or as a new entry where the order puts it.
pub open spec fn upsert(entries: Seq<(Seq<u8>, Seq<u8>)>, key: Seq<u8>, value: Seq<u8>) -> Seq<
    (Seq<u8>, Seq<u8>),
> {
    let at = slot(entries, key, 0);
    if at < entries.len() && entries[at].0 == key {
        entries.update(at, (key, value))
    } else {
        entries.insert(at, (key, value))
    }
}

/// Every key in front of the slot comes before `key`, and the key at the
/// slot does not.
pub proof fn lemma_slot(entries: Seq<(Seq<u8>, Seq<u8>)>, key: Seq<u8>, from: int)
    requires
        0 <= from <= entries.len(),
    ensures
        from <= slot(entries, key, from) <= entries.len(),
        forall|j: int| from <= j < slot(entries, key, from) ==> bytes_less(entries[j].0, key),
        slot(entries, key, from) < entries.len() ==> !bytes_less(
            entries[slot(entries, key, from)].0,
            key,
        ),
    decreases entries.len() - from,
{
    if from < entries.len() && bytes_less(entries[from].0, key) {
        lemma_slot(entries, key, from + 1);
    }
}

/// A position with only smaller keys in front of it, and none at it, is the
/// slot.
pub proof fn lemma_slot_is(entries: Seq<(Seq<u8>, Seq<u8>)>, key: Seq<u8>, from: int, at: int)
    requires
        0 <= from <= at <= entries.len(),
        forall|j: int| from <= j < at ==> bytes_less(entries[j].0, key),
        at < entries.len() ==> !bytes_less(entries[at].0, key),
    ensures
        slot(entries, key, from) == at,
    decreases at - from,
{
    if from < at {
        lemma_slot_is(entries, key, from + 1, at);
    }
}

/// In sorted entries no key at or behind the slot comes before `key`, and
/// `key` itself can only stand at the slot.
pub proof fn lemma_slot_sorted(entries: Seq<(Seq<u8>, Seq<u8>)>, key: Seq<u8>)
    requires
        sorted(entries),
    ensures
        forall|j: int|
            slot(entries, key, 0) <= j < entries.len() ==> !bytes_less(
                (#[trigger] entries[j]).0,
                key,
            ),
        forall|j: int|
            0 <= j < entries.len() && (#[trigger] entries[j]).0 == key ==> j == slot(
                entries,
                key,
                0,
            ),
{
    let at = slot(entries, key, 0);
    lemma_slot(entries, key, 0);
    assert forall|j: int| at <= j < entries.len() implies !bytes_less(
        (#[trigger] entries[j]).0,
        key,
    ) by {
        if at < j && bytes_less(entries[j].0, key) {
            lemma_bytes_less_transitive(entries[at].0, entries[j].0, key);
        }
    }
    assert forall|j: int| 0 <= j < entries.len() && (#[trigger] entries[j]).0 == key implies j
        == at by {
        lemma_bytes_less_total(key, key);
        if j > at {
        }
    }
}

/// In sorted entries a key leads to a value exactly where an entry holds
/// the two.
pub proof fn lemma_lookup_is_the_entry(
    entries: Seq<(Seq<u8>, Seq<u8>)>,
    key: Seq<u8>,
    value: Seq<u8>,
)
    requires
        sorted(entries),
    ensures
        lookup(entries, key) == Some(value) <==> entries.contains((key, value)),
{
    lemma_slot_sorted(entries, key);
    if entries.contains((key, value)) {
        let j = choose|j: int| 0 <= j < entries.len() && entries[j] == (key, value);
    }
}

/// Storing a pair keeps the entries sorted.
pub proof fn lemma_upsert_sorted(entries: Seq<(Seq<u8>, Seq<u8>)>, key: Seq<u8>, value: Seq<u8>)
    requires
        sorted(entries),
    ensures
        sorted(upsert(entries, key, value)),
{
    let at = slot(entries, key, 0);
    let after = upsert(entries, key, value);
    lemma_slot(entries, key, 0);
    lemma_slot_sorted(entries, key);
    assert forall|i: int, j: int| 0 <= i < j < after.len() implies bytes_less(
        #[trigger] after[i].0,
        #[trigger] after[j].0,
    ) by {
        if after.len() > entries.len() && i == at {
            // The new entry stands in front of keys that are neither before
            // it nor equal to it.
            lemma_bytes_less_total(entries[j - 1].0, key);
        }
    }
}

/// Storing a pair under a key that is not there adds one entry, and under a
/// key that is there none.
pub proof fn lemma_upsert_length(entries: Seq<(Seq<u8>, Seq<u8>)>, key: Seq<u8>, value: Seq<u8>)
    ensures
        upsert(entries, key, value).len() == if lookup(entries, key) is Some {
            entries.len()
        } else {
            entries.len() + 1
        },
{
    lemma_slot(entries, key, 0);
}

/// After storing a pair, its key leads to its value, and every other key to
/// what it led to before.
pub proof fn lemma_lookup_upsert(
    entries: Seq<(Seq<u8>, Seq<u8>)>,
    key: Seq<u8>,
    value: Seq<u8>,
    other: Seq<u8>,
)
    requires
        sorted(entries),
    ensures
        lookup(upsert(entries, key, value), key) == Some(value),
        other != key ==> lookup(upsert(entries, key, value), other) == lookup(entries, other),
{
    let at = slot(entries, key, 0);
    let after = upsert(entries, key, value);
    lemma_slot(entries, key, 0);
    lemma_upsert_sorted(entries, key, value);
    lemma_slot_sorted(after, key);
    assert(after[at] == (key, value));
    if other != key {
        let was = slot(entries, other, 0);
        lemma_slot(entries, other, 0);
        if at < entries.len() && entries[at].0 == key {
            // The keys stand where they stood.
            lemma_slot_is(after, other, 0, was);
        } else {
            lemma_bytes_less_total(key, other);
            if bytes_less(key, other) {
                // `key` goes in front of where `other` stands.
                assert(at <= was) by {
                    if was < at {
                        lemma_bytes_less_transitive(entries[was].0, key, other);
                    }
                }
                lemma_slot_is(after, other, 0, was + 1);
            } else {
                // `key` goes behind where `other` stands.
                assert(was <= at) by {
                    if at < was {
                        lemma_bytes_less_transitive(entries[at].0, other, key);
                    }
                }
                lemma_slot_is(after, other, 0, was);
            }
        }
    }
}

/// A sorted buffer of pairs with a capacity. The insert that brings the
/// count of inserts up to the capacity flushes the buffer: the pairs become
/// a segment, the sparse index of that segment takes the place of the one
/// held, and the buffer starts over.
pub struct Memtable<K: StringLike, V: StringLike> {
    table: Vec<(K, V)>,
    config: MemtableConfig,
    flushed: Ghost<Seq<(Seq<u8>, Seq<u8>)>>,
    current_size: usize,
    key_offsets_of_most_recent_written_memtable: Option<Vec<(K, usize)>>,
}

impl<K: StringLike, V: StringLike> Memtable<K, V> {
    /// The buffered pairs as texts, sorted by key.
    pub closed spec fn entries(&self) -> Seq<(Seq<u8>, Seq<u8>)> {
        entries_of(self.table@)
    }

    /// The configuration the buffer was made with.
    pub closed spec fn config(&self) -> MemtableConfig {
        self.config
    }

    /// The number of inserts since the last flush.
    pub closed spec fn count(&self) -> int {
        self.current_size as int
    }

    /// The batch of the last flush, as texts; empty before the first flush.
    pub closed spec fn flushed(&self) -> Seq<(Seq<u8>, Seq<u8>)> {
        self.flushed@
    }

    /// The sparse index held, as key texts and offsets; empty where none is
    /// held.
    pub closed spec fn index(&self) -> Seq<(Seq<u8>, int)> {
        match self.key_offsets_of_most_recent_written_memtable {
            Some(offsets) => index_of(offsets@),
            None => Seq::empty(),
        }
    }

    /// The invariant of the buffer: its pairs are sorted by key, it has seen
    /// fewer inserts since the last flush than its capacity, and the index
    /// held is the sparse index of the segment of the last flush.
    pub closed spec fn wf(&self) -> bool {
        &&& self.config.valid()
        &&& sorted(self.entries())
        &&& self.entries().len() <= self.current_size < self.config.capacity
        &&& sorted(self.flushed@)
        &&& self.index() == sparse_index_of(self.config, self.flushed@)
        &&& self.key_offsets_of_most_recent_written_memtable matches Some(offsets)
            ==> offsets@.len() > 0
    }

    /// Whether the next insert brings the count up to the capacity, and so
    /// flushes the buffer.
    pub open spec fn flush_due(&self) -> bool {
        self.count() + 1 == self.config().capacity
    }

    /// Whether this buffer is `before` after an insert of `value` under
    /// `key`: the pair is stored and the count is one higher; or, where the
    /// flush was due, the buffer is empty, the count is 0, the batch flushed
    /// is what was buffered with the pair stored, and the index held is the
    /// sparse index of that batch.
    pub open spec fn inserted(&self, before: Self, key: Seq<u8>, value: Seq<u8>) -> bool {
        let staged = upsert(before.entries(), key, value);
        &&& self.config() == before.config()
        &&& if before.flush_due() {
            &&& self.count() == 0
            &&& self.entries() =~= Seq::empty()
            &&& self.flushed() =~= staged
            &&& self.index() =~= sparse_index_of(before.config(), staged)
        } else {
            &&& self.count() == before.count() + 1
            &&& self.entries() =~= staged
            &&& self.flushed() =~= before.flushed()
            &&& self.index() =~= before.index()
        }
    }

    /// What the invariant says.
    pub proof fn lemma_wf(&self)
        requires
            self.wf(),
        ensures
            self.config().valid(),
            sorted(self.entries()),
            self.entries().len() <= self.count() < self.config().capacity,
            sorted(self.flushed()),
            self.index() == sparse_index_of(self.config(), self.flushed()),
    {
    }

    /// An empty buffer without segment.
    pub fn new(config: MemtableConfig) -> (memtable: Self)
        requires
            config.valid(),
        ensures
            memtable.wf(),
            memtable.config() == config,
            memtable.entries() == Seq::<(Seq<u8>, Seq<u8>)>::empty(),
            memtable.flushed() == Seq::<(Seq<u8>, Seq<u8>)>::empty(),
            memtable.count() == 0,
            memtable.index() == Seq::<(Seq<u8>, int)>::empty(),
    {
        Memtable {
            table: Vec::new(),
            config,
            flushed: Ghost(Seq::empty()),
            current_size: 0,
            key_offsets_of_most_recent_written_memtable: None,
        }
    }

    /// The number of inserts since the last flush.
    pub fn current_size(&self) -> (size: usize)
        ensures
            size == self.count(),
    {
        self.current_size
    }

    /// The sparse index of the segment of the last flush; `None` before the
    /// first flush and where that segment has no marked line.
    pub fn key_offsets_of_most_recent_written_memtable(&self) -> (key_offsets: &Option<
        Vec<(K, usize)>,
    >)
        requires
            self.wf(),
        ensures
            match key_offsets {
                Some(offsets) => offsets@.len() > 0 && index_of(offsets@) == self.index(),
                None => self.index().len() == 0,
            },
    {
        &self.key_offsets_of_most_recent_written_memtable
    }

    /// The value buffered under `key`.
    pub fn find(&self, key: &K) -> (value: Option<&V>)
        requires
            self.wf(),
        ensures
            match value {
                Some(found) => lookup(self.entries(), key.text()) == Some(found.text()),
                None => lookup(self.entries(), key.text()) is None,
            },
    {
        let at = position_of_key(&self.table, key);
        if at < self.table.len() && bytes_equal(self.table[at].0.as_text(), key.as_text()) {
            Some(&self.table[at].1)
        } else {
            None
        }
    }

    /// Copies of the buffered pairs, sorted by key.
    fn get_all_key_value_pairs(&self) -> (key_value_pairs: Vec<(K, V)>)
        ensures
            entries_of(key_value_pairs@) == self.entries(),
    {
        let mut key_value_pairs: Vec<(K, V)> = Vec::new();
        let mut i: usize = 0;
        while i < self.table.len()
            invariant
                i <= self.table@.len(),
                key_value_pairs@.len() == i,
                forall|j: int|
                    0 <= j < i ==> (#[trigger] key_value_pairs@[j]).0.text()
                        == self.table@[j].0.text() && key_value_pairs@[j].1.text()
                        == self.table@[j].1.text(),
            decreases self.table@.len() - i,
        {
            key_value_pairs.push((self.table[i].0.duplicate(), self.table[i].1.duplicate()));
            i += 1;
        }
        key_value_pairs
    }

    /// Whether the next insert flushes the buffer.
    pub fn flush_is_due(&self) -> (due: bool)
        requires
            self.wf(),
        ensures
            due == self.flush_due(),
    {
        self.current_size + 1 == self.config.capacity
    }

    /// The segment that `insert` of this pair will flush: `Some` exactly
    /// where that insert brings the count up to the capacity. The buffer is
    /// left as it is, so a caller can store the segment first and insert
    /// only when that went well.
    pub fn segment_on_insert(&self, key: &K, value: &V) -> (segment: Option<Vec<u8>>)
        requires
            self.wf(),
        ensures
            segment is Some <==> self.flush_due(),
            segment matches Some(bytes) ==> bytes@ == segment_of(
                self.config(),
                upsert(self.entries(), key.text(), value.text()),
            ),
    {
        if !self.flush_is_due() {
            return None;
        }
        let mut staged = self.get_all_key_value_pairs();
        store_pair(&mut staged, key.duplicate(), value.duplicate());
        let mut segment: Vec<u8> = Vec::new();
        let _ = write_data_to_file(&self.config, staged.as_slice(), &mut segment);
        Some(segment)
    }

    /// Stores `value` under `key`, in place of a value already buffered
    /// under that key, and counts the insert. Where the count reaches the
    /// capacity, the buffered pairs are flushed: the segment of the sorted
    /// pairs is returned, its sparse index takes the place of the index
    /// held, and buffer and count start over.
    pub fn insert(&mut self, key: K, value: V) -> (segment: Option<Vec<u8>>)
        requires
            old(self).wf(),
        ensures
            final(self).wf(),
            final(self).inserted(*old(self), key.text(), value.text()),
            final(self).count() == if old(self).flush_due() {
                0
            } else {
                old(self).count() + 1
            },
            segment is Some <==> old(self).flush_due(),
            segment matches Some(bytes) ==> bytes@ == segment_of(
                old(self).config(),
                upsert(old(self).entries(), key.text(), value.text()),
            ),
    {
        proof {
            lemma_slot(self.entries(), key.text(), 0);
            lemma_upsert_sorted(self.entries(), key.text(), value.text());
        }
        let ghost staged = upsert(self.entries(), key.text(), value.text());
        store_pair(&mut self.table, key, value);
        self.current_size += 1;
        if self.current_size == self.config.capacity {
            let mut segment: Vec<u8> = Vec::new();
            self.key_offsets_of_most_recent_written_memtable = write_data_to_file(
                &self.config,
                self.table.as_slice(),
                &mut segment,
            );
            self.flushed = Ghost(staged);
            self.table.clear();
            self.current_size = 0;
            assert(self.index() =~= sparse_index_of(self.config, staged));
            Some(segment)
        } else {
            None
        }
    }
}

/// The position in `table` of the first pair whose key does not come before
/// `key`.
fn position_of_key<K: StringLike, V: StringLike>(table: &Vec<(K, V)>, key: &K) -> (at: usize)
    requires
        sorted(entries_of(table@)),
    ensures
        at == slot(entries_of(table@), key.text(), 0),
        at <= table@.len(),
{
    let ghost entries = entries_of(table@);
    let mut low: usize = 0;
    let mut high: usize = table.len();
    while low < high
        invariant
            entries == entries_of(table@),
            sorted(entries),
            low <= high <= table@.len(),
            forall|j: int| 0 <= j < low ==> bytes_less((#[trigger] entries[j]).0, key.text()),
            forall|j: int|
                high <= j < entries.len() ==> !bytes_less((#[trigger] entries[j]).0, key.text()),
        decreases high - low,
    {
        let middle = low + (high - low) / 2;
        if bytes_precede(table[middle].0.as_text(), key.as_text()) {
            assert forall|j: int| 0 <= j < middle + 1 implies bytes_less(
                (#[trigger] entries[j]).0,
                key.text(),
            ) by {
                if j < middle {
                    lemma_bytes_less_transitive(entries[j].0, entries[middle as int].0, key.text());
                }
            }
            low = middle + 1;
        } else {
            assert forall|j: int| middle <= j < entries.len() implies !bytes_less(
                (#[trigger] entries[j]).0,
                key.text(),
            ) by {
                if middle < j && bytes_less(entries[j].0, key.text()) {
                    lemma_bytes_less_transitive(entries[middle as int].0, entries[j].0, key.text());
                }
            }
            high = middle;
        }
    }
    proof {
        lemma_slot_is(entries, key.text(), 0, low as int);
    }
    low
}

/// Stores `value` under `key` in a sorted `table`.
fn store_pair<K: StringLike, V: StringLike>(table: &mut Vec<(K, V)>, key: K, value: V)
    requires
        sorted(entries_of(old(table)@)),
    ensures
        entries_of(final(table)@) == upsert(entries_of(old(table)@), key.text(), value.text()),
{
    let at = position_of_key(table, &key);
    if at < table.len() && bytes_equal(table[at].0.as_text(), key.as_text()) {
        table[at] = (key, value);
    } else {
        table.insert(at, (key, value));
    }
}

} // verus!

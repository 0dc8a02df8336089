//! The settings shared by the buffer, the segment writer and the scanner.

use crate::text::char_text;
use vstd::prelude::*;

verus! {

/// The line feed that ends every line of a segment.
pub const LINE_END: u8 = 10;

/// Settings of one table.
///
/// The segment format has no escaping: the delimiter, the marker and the
/// line feed must not occur in the text of a key or of a value. Text that
/// holds one of them is written as it is and may not be read back as it was.
pub struct MemtableConfig {
    /// Stands between the key and the value of a line.
    pub key_value_delimeter: char,
    /// Stands in front of a line that the sparse index points to.
    pub key_offset_indicator: char,
    /// Every so many lines one is entered in the sparse index.
    pub key_offset_frequency: u32,
    /// The number of inserts after which the buffer is flushed.
    pub capacity: usize,
    /// Where the caller keeps the segment.
    pub file_path: String,
}

impl MemtableConfig {
    /// The delimiter as the bytes that are written.
    pub open spec fn delimiter(&self) -> Seq<u8> {
        char_text(self.key_value_delimeter)
    }

    /// The marker as the bytes that are written.
    pub open spec fn marker(&self) -> Seq<u8> {
        char_text(self.key_offset_indicator)
    }

    /// The sample stride.
    pub open spec fn stride(&self) -> int {
        self.key_offset_frequency as int
    }

    /// A usable configuration: stride and capacity are positive.
    pub open spec fn valid(&self) -> bool {
        self.key_offset_frequency > 0 && self.capacity > 0
    }

    /// A format that can be read back: delimiter, marker and line feed are
    /// three different characters.
    pub open spec fn unambiguous(&self) -> bool {
        &&& self.key_value_delimeter != self.key_offset_indicator
        &&& self.key_value_delimeter != '\n'
        &&& self.key_offset_indicator != '\n'
    }

    /// The default format (`:` between key and value, `&` in front of an
    /// indexed line, one index entry every 5 lines) with the given capacity
    /// and path.
    pub fn new(capacity: usize, file_path: &str) -> (config: Self)
        ensures
            config.key_value_delimeter == ':',
            config.key_offset_indicator == '&',
            config.key_offset_frequency == 5,
            config.capacity == capacity,
            config.file_path@ == file_path@,
            config.valid() <==> capacity > 0,
            config.unambiguous(),
    {
        MemtableConfig {
            key_value_delimeter: ':',
            key_offset_indicator: '&',
            key_offset_frequency: 5,
            capacity,
            file_path: file_path.to_owned(),
        }
    }

    /// Whether the configuration is usable.
    pub fn is_valid(&self) -> (ok: bool)
        ensures
            ok == self.valid(),
    {
        self.key_offset_frequency > 0 && self.capacity > 0
    }

    /// Whether the format can be read back.
    pub fn is_unambiguous(&self) -> (ok: bool)
        ensures
            ok == self.unambiguous(),
    {
        self.key_value_delimeter != self.key_offset_indicator && self.key_value_delimeter != '\n'
            && self.key_offset_indicator != '\n'
    }
}

impl Clone for MemtableConfig {
    fn clone(&self) -> (copy: Self)
        ensures
            copy == *self,
    {
        MemtableConfig {
            key_value_delimeter: self.key_value_delimeter,
            key_offset_indicator: self.key_offset_indicator,
            key_offset_frequency: self.key_offset_frequency,
            capacity: self.capacity,
            file_path: self.file_path.clone(),
        }
    }
}

} // verus!

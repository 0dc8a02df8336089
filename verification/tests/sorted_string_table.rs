use sstable::error::TableError;
use sstable::memtable_config::MemtableConfig;
use sstable::sorted_string_table::SortedStringTable;

#[test]
fn new_sorted_string_table() {
    let memtable_config = MemtableConfig::new(7, "./output/test_result.txt");
    let sorted_string_table = SortedStringTable::<String, String>::new(memtable_config);
    assert_eq!(sorted_string_table.current_size(), 0);
}

#[test]
fn sorted_string_table_insert() {
    let memtable_config = MemtableConfig::new(7, "./output/test_result.txt");
    let mut sorted_string_table = SortedStringTable::<String, String>::new(memtable_config);
    sorted_string_table.insert("A".to_owned(), "1".to_owned());
    assert_eq!(sorted_string_table.current_size(), 1);
}

#[test]
fn sorted_string_table_find_value_still_in_memtable() {
    let memtable_config = MemtableConfig::new(7, "./output/test_result.txt");
    let mut sorted_string_table = SortedStringTable::<String, String>::new(memtable_config);
    sorted_string_table.insert("A".to_owned(), "1".to_owned());
    assert_eq!(sorted_string_table.current_size(), 1);
    let key_to_find = "A".to_string();
    let find_result = sorted_string_table.find(&key_to_find, &[]).unwrap();
    assert!(find_result.is_some());
    assert_eq!(find_result.unwrap(), "1");
}

#[test]
fn sorted_string_table_find_value_not_present() {
    let memtable_config = MemtableConfig::new(7, "./output/test_result.txt");
    let mut sorted_string_table = SortedStringTable::<String, &str>::new(memtable_config);
    sorted_string_table.insert("A".to_owned(), "1");
    assert_eq!(sorted_string_table.current_size(), 1);
    let key_to_find = "B".to_string();
    let find_result = sorted_string_table.find(&key_to_find, &[]).unwrap();
    assert!(find_result.is_none());
}

#[test]
fn sorted_string_table_insert_beyond_memtable_capacity() {
    let memtable_config = MemtableConfig::new(7, "./output/test_result.txt");
    let mut sorted_string_table = SortedStringTable::<String, &str>::new(memtable_config);
    sorted_string_table.insert("A".to_owned(), "1");
    sorted_string_table.insert("B".to_owned(), "1");
    sorted_string_table.insert("C".to_owned(), "1");
    sorted_string_table.insert("D".to_owned(), "1");
    sorted_string_table.insert("E".to_owned(), "1");
    sorted_string_table.insert("F".to_owned(), "1");
    sorted_string_table.insert("G".to_owned(), "1");
    sorted_string_table.insert("H".to_owned(), "1");
    assert_eq!(sorted_string_table.current_size(), 8);
    assert_eq!(sorted_string_table.memtable().current_size(), 1)
}

/// A table and the segment of its last flush, kept as a caller with a disk
/// would keep the file.
struct Stored {
    table: SortedStringTable<String, String>,
    file: Vec<u8>,
}

impl Stored {
    fn new(capacity: usize) -> Stored {
        Stored {
            table: SortedStringTable::new(MemtableConfig::new(capacity, "./")),
            file: Vec::new(),
        }
    }

    fn insert(&mut self, key: &str, value: &str) {
        if let Some(segment) = self.table.insert(key.to_string(), value.to_string()) {
            self.file = segment;
        }
    }

    fn find(&self, key: &str) -> Result<Option<String>, TableError> {
        self.table.find(&key.to_string(), &self.file)
    }
}

#[test]
fn flush_of_seven_indexes_the_sixth_key() {
    let mut stored = Stored::new(7);
    for key in ["A", "B", "C", "D", "E", "F", "G"] {
        stored.insert(key, "1");
    }
    assert_eq!(stored.table.memtable().current_size(), 0);
    assert_eq!(
        stored
            .table
            .memtable()
            .key_offsets_of_most_recent_written_memtable(),
        &Some(vec![("F".to_string(), 20)])
    );
}

#[test]
fn flush_of_eight_is_found_through_the_index() {
    let mut stored = Stored::new(8);
    for (key, value) in [
        ("A", "1"),
        ("B", "2"),
        ("C", "3"),
        ("D", "4"),
        ("E", "5"),
        ("F", "6"),
        ("G", "7"),
        ("H", "8"),
    ] {
        stored.insert(key, value);
    }
    assert_eq!(
        stored
            .table
            .memtable()
            .key_offsets_of_most_recent_written_memtable(),
        &Some(vec![("F".to_string(), 20)])
    );
    assert!(stored.table.needs_segment(&"H".to_string()));
    assert_eq!(stored.find("H"), Ok(Some("8".to_string())));
    assert_eq!(stored.find("I"), Ok(None));
}

#[test]
fn flush_of_one_is_not_found_again() {
    let mut stored = Stored::new(1);
    stored.insert("A", "1");
    assert_eq!(stored.file, b"A:1\n".to_vec());
    assert_eq!(stored.table.memtable().current_size(), 0);
    assert!(stored
        .table
        .memtable()
        .key_offsets_of_most_recent_written_memtable()
        .is_none());
    assert!(!stored.table.needs_segment(&"A".to_string()));
    assert_eq!(stored.find("A"), Ok(None));
}

#[test]
fn flush_without_index_is_not_read() {
    let mut stored = Stored::new(6);
    for key in ["A", "B", "C", "D", "E", "F"] {
        stored.insert(key, "1");
    }
    assert_eq!(stored.file, b"A:1\nB:1\nC:1\nD:1\nE:1\nF:1\n".to_vec());
    for key in ["A", "B", "C", "D", "E", "F"] {
        assert_eq!(stored.find(key), Ok(None));
    }
}

#[test]
fn every_key_of_a_flush_is_found_with_its_value() {
    for count in [7, 8, 11, 12, 16, 17, 26] {
        let mut stored = Stored::new(count);
        let keys: Vec<String> = (0..count).map(|i| format!("key{:02}", i * 2)).collect();
        for (i, key) in keys.iter().enumerate().rev() {
            stored.insert(key, &format!("value {}", i));
        }
        assert_eq!(stored.table.memtable().current_size(), 0);
        for (i, key) in keys.iter().enumerate() {
            assert_eq!(stored.find(key), Ok(Some(format!("value {}", i))));
        }
        for i in 0..count {
            assert_eq!(stored.find(&format!("key{:02}", i * 2 + 1)), Ok(None));
        }
        assert_eq!(stored.find(""), Ok(None));
        assert_eq!(stored.find("zzz"), Ok(None));
    }
}

#[test]
fn find_twice_finds_the_same() {
    let mut stored = Stored::new(8);
    for key in ["A", "B", "C", "D", "E", "F", "G", "H", "I"] {
        stored.insert(key, "1");
    }
    for key in ["A", "H", "I", "J", "F"] {
        let first = stored.find(key);
        let second = stored.find(key);
        assert_eq!(first, second);
        assert_eq!(stored.table.current_size(), 9);
        assert_eq!(stored.table.memtable().current_size(), 1);
    }
}

#[test]
fn find_prefers_the_buffer_to_the_segment() {
    let mut stored = Stored::new(7);
    for key in ["A", "B", "C", "D", "E", "F", "G"] {
        stored.insert(key, "old");
    }
    assert_eq!(stored.find("G"), Ok(Some("old".to_string())));
    stored.insert("G", "new");
    assert!(!stored.table.needs_segment(&"G".to_string()));
    assert_eq!(stored.find("G"), Ok(Some("new".to_string())));
    assert_eq!(stored.find("F"), Ok(Some("old".to_string())));
}

#[test]
fn a_second_flush_takes_the_place_of_the_first() {
    let mut stored = Stored::new(7);
    for key in ["A", "B", "C", "D", "E", "F", "G"] {
        stored.insert(key, "1");
    }
    for key in ["H", "I", "J", "K", "L", "M", "N"] {
        stored.insert(key, "2");
    }
    assert_eq!(
        stored
            .table
            .memtable()
            .key_offsets_of_most_recent_written_memtable(),
        &Some(vec![("M".to_string(), 20)])
    );
    assert_eq!(stored.find("N"), Ok(Some("2".to_string())));
    assert_eq!(stored.find("A"), Ok(None));
    assert_eq!(stored.table.current_size(), 14);
}

#[test]
fn find_reports_a_damaged_segment() {
    let mut stored = Stored::new(7);
    for key in ["A", "B", "C", "D", "E", "F", "G"] {
        stored.insert(key, "1");
    }
    stored.file = b"A:1\nB1\n".to_vec();
    assert_eq!(stored.find("B"), Err(TableError::MalformedLine));
    stored.file = b"A:1\nB:\xff\n".to_vec();
    assert_eq!(stored.find("B"), Err(TableError::IoFailure));
    // The buffer is looked at first.
    stored.insert("B", "2");
    assert_eq!(stored.find("B"), Ok(Some("2".to_string())));
}

#[test]
fn segment_on_insert_is_what_insert_hands_out() {
    let mut table = SortedStringTable::<String, &str>::new(MemtableConfig::new(2, "./"));
    assert_eq!(table.segment_on_insert(&"B".to_string(), &"1"), None);
    assert_eq!(table.insert("B".to_string(), "1"), None);
    let ahead = table.segment_on_insert(&"A".to_string(), &"2");
    assert_eq!(ahead, Some(b"A:2\nB:1\n".to_vec()));
    assert_eq!(table.memtable().current_size(), 1);
    assert_eq!(table.insert("A".to_string(), "2"), ahead);
    assert_eq!(table.memtable().current_size(), 0);
}

#[test]
fn table_works_with_borrowed_keys_and_values() {
    let config = MemtableConfig::new(5, "./output/main.txt");
    let mut ss_table = SortedStringTable::<&str, &str>::new(config);
    let key = "A";
    ss_table.insert(key, "1");
    let search_result = ss_table.find(&key, &[]).unwrap();
    assert_eq!(search_result.unwrap(), "1");
}

#[test]
fn every_key_of_a_flush_is_found_in_a_format_beyond_ascii() {
    let mut config = MemtableConfig::new(9, "./");
    config.key_offset_frequency = 2;
    config.key_value_delimeter = '→';
    config.key_offset_indicator = '§';
    let mut table = SortedStringTable::<String, String>::new(config);
    let keys = ["", "a", "b←", "c:", "d&", "é", "日本", "語", "😀"];
    let mut file = Vec::new();
    for (i, key) in keys.iter().enumerate() {
        if let Some(segment) = table.insert(key.to_string(), format!("value ← {}", i)) {
            file = segment;
        }
    }
    assert_eq!(table.memtable().current_size(), 0);
    assert_eq!(
        table
            .memtable()
            .key_offsets_of_most_recent_written_memtable()
            .as_ref()
            .unwrap()
            .len(),
        3
    );
    for (i, key) in keys.iter().enumerate() {
        assert_eq!(
            table.find(&key.to_string(), &file),
            Ok(Some(format!("value ← {}", i)))
        );
    }
    for key in ["←", "b", "c", "zz", "日", "§a"] {
        assert_eq!(table.find(&key.to_string(), &file), Ok(None));
    }
}

#[test]
fn insert_after_a_failed_write_leaves_the_table_as_it_was() {
    let mut table = SortedStringTable::<String, &str>::new(MemtableConfig::new(3, "./"));
    // No flush is due: how a write went does not matter.
    assert_eq!(table.insert_after_write("B".to_string(), "1", false), Ok(()));
    assert_eq!(table.insert_after_write("C".to_string(), "2", true), Ok(()));
    assert_eq!(table.memtable().current_size(), 2);

    let segment = table.segment_on_insert(&"A".to_string(), &"3");
    assert_eq!(segment, Some(b"A:3\nB:1\nC:2\n".to_vec()));
    assert_eq!(
        table.insert_after_write("A".to_string(), "3", false),
        Err(TableError::IoFailure)
    );
    assert_eq!(table.current_size(), 2);
    assert_eq!(table.memtable().current_size(), 2);
    assert_eq!(table.find(&"A".to_string(), &[]), Ok(None));
    assert_eq!(table.find(&"B".to_string(), &[]), Ok(Some("1".to_string())));
    assert_eq!(table.find(&"C".to_string(), &[]), Ok(Some("2".to_string())));

    // The insert can be tried again.
    assert_eq!(table.segment_on_insert(&"A".to_string(), &"3"), segment);
    assert_eq!(table.insert_after_write("A".to_string(), "3", true), Ok(()));
    assert_eq!(table.current_size(), 3);
    assert_eq!(table.memtable().current_size(), 0);
}

#[test]
fn find_after_a_failed_read_fails_only_where_the_segment_is_read() {
    let mut stored = Stored::new(7);
    for key in ["A", "B", "C", "D", "E", "F", "G"] {
        stored.insert(key, "1");
    }
    stored.insert("H", "2");
    let key = |text: &str| text.to_string();
    assert_eq!(stored.table.find_after_read(&key("H"), None), Ok(Some("2".to_string())));
    assert_eq!(stored.table.find_after_read(&key("G"), None), Err(TableError::IoFailure));
    assert_eq!(stored.table.find_after_read(&key("Z"), None), Err(TableError::IoFailure));
    assert_eq!(
        stored.table.find_after_read(&key("G"), Some(&stored.file)),
        Ok(Some("1".to_string()))
    );
    assert_eq!(stored.table.find_after_read(&key("Z"), Some(&stored.file)), Ok(None));

    // Without an index nothing is read, so nothing fails.
    let mut small = Stored::new(2);
    small.insert("A", "1");
    small.insert("B", "1");
    small.insert("C", "1");
    assert_eq!(small.table.find_after_read(&key("A"), None), Ok(None));
    assert_eq!(small.table.find_after_read(&key("C"), None), Ok(Some("1".to_string())));
}

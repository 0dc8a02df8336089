use sstable::memtable::Memtable;
use sstable::memtable_config::MemtableConfig;
use sstable::memtable_write_to_file::{
    append_bytes, create_key_value_offset_string, create_key_value_string, is_key_offset_index,
    write_data_to_file,
};

#[test]
fn write_data_to_file_test_through_memtable_exceeding_capacity() {
    let config = MemtableConfig::new(7, "./output/test_result.txt");
    let mut memtable = Memtable::<String, &str>::new(config);
    memtable.insert("Hello".to_string(), "1");
    memtable.insert("World!".to_string(), "2");
    memtable.insert("This".to_string(), "1");
    memtable.insert("Is".to_string(), "1");
    memtable.insert("A".to_string(), "1");
    memtable.insert("New".to_string(), "1");
    memtable.insert("Sentence".to_string(), "1");
    assert_eq!(memtable.current_size(), 0);
    assert!(memtable
        .key_offsets_of_most_recent_written_memtable()
        .is_some());
    assert_eq!(
        memtable
            .key_offsets_of_most_recent_written_memtable()
            .as_ref()
            .unwrap()
            .len(),
        1
    );
}

#[test]
fn write_data_to_file_test() {
    let config = MemtableConfig::new(7, "./output/test_result.txt");
    let mut key_value_pairs = vec![];
    key_value_pairs.push(("A", 1));
    key_value_pairs.push(("B", 1));
    key_value_pairs.push(("C", 1));
    key_value_pairs.push(("D", 1));
    key_value_pairs.push(("E", 1));
    key_value_pairs.push(("F", 1));
    key_value_pairs.push(("G", 1));
    let mut file = Vec::new();
    let key_offsets = write_data_to_file(&config, &key_value_pairs, &mut file);
    assert!(key_offsets.is_some());
    assert_eq!(key_offsets.unwrap().len(), 1);
}

fn letters(count: usize) -> Vec<(String, String)> {
    "ABCDEFGHIJKLMNOPQRSTUVWXYZ"
        .chars()
        .take(count)
        .map(|letter| (letter.to_string(), "1".to_string()))
        .collect()
}

#[test]
fn write_seven_pairs_marks_the_sixth_line_only() {
    let config = MemtableConfig::new(7, "./output/test_result.txt");
    let mut file = Vec::new();
    let key_offsets = write_data_to_file(&config, &letters(7), &mut file);
    assert_eq!(key_offsets, Some(vec![("F".to_string(), 20)]));
    assert_eq!(file, b"A:1\nB:1\nC:1\nD:1\nE:1\n&F:1\nG:1\n".to_vec());
}

#[test]
fn write_eight_pairs_marks_the_sixth_line_only() {
    let config = MemtableConfig::new(8, "./output/test_result.txt");
    let mut file = Vec::new();
    let key_offsets = write_data_to_file(&config, &letters(8), &mut file);
    assert_eq!(key_offsets, Some(vec![("F".to_string(), 20)]));
    assert_eq!(file, b"A:1\nB:1\nC:1\nD:1\nE:1\n&F:1\nG:1\nH:1\n".to_vec());
}

#[test]
fn write_does_not_mark_the_last_line() {
    let config = MemtableConfig::new(6, "./");
    let mut file = Vec::new();
    let key_offsets = write_data_to_file(&config, &letters(6), &mut file);
    assert_eq!(key_offsets, None);
    assert_eq!(file, b"A:1\nB:1\nC:1\nD:1\nE:1\nF:1\n".to_vec());
}

#[test]
fn write_marks_every_stride_and_counts_markers_into_the_offsets() {
    let config = MemtableConfig::new(12, "./");
    let mut file = Vec::new();
    let key_offsets = write_data_to_file(&config, &letters(12), &mut file);
    assert_eq!(
        key_offsets,
        Some(vec![("F".to_string(), 20), ("K".to_string(), 41)])
    );
    assert_eq!(&file[20..25], b"&F:1\n");
    assert_eq!(&file[41..46], b"&K:1\n");
    assert_eq!(file.len(), 12 * 4 + 2);
}

#[test]
fn write_with_stride_one_marks_all_but_first_and_last() {
    let mut config = MemtableConfig::new(4, "./");
    config.key_offset_frequency = 1;
    config.key_value_delimeter = '=';
    config.key_offset_indicator = '#';
    let mut file = Vec::new();
    let key_offsets = write_data_to_file(&config, &letters(4), &mut file);
    assert_eq!(
        key_offsets,
        Some(vec![("B".to_string(), 4), ("C".to_string(), 9)])
    );
    assert_eq!(file, b"A=1\n#B=1\n#C=1\nD=1\n".to_vec());
}

#[test]
fn write_of_no_pairs_is_an_empty_segment_without_index() {
    let config = MemtableConfig::new(7, "./");
    let mut file = b"what was there".to_vec();
    let none: Vec<(String, String)> = Vec::new();
    let key_offsets = write_data_to_file(&config, &none, &mut file);
    assert_eq!(key_offsets, None);
    assert!(file.is_empty());
}

#[test]
fn write_of_one_pair_has_no_index() {
    let config = MemtableConfig::new(7, "./");
    let mut file = Vec::new();
    let key_offsets = write_data_to_file(&config, &letters(1), &mut file);
    assert_eq!(key_offsets, None);
    assert_eq!(file, b"A:1\n".to_vec());
}

#[test]
fn write_replaces_what_the_output_held() {
    let config = MemtableConfig::new(7, "./");
    let mut file = Vec::new();
    write_data_to_file(&config, &letters(7), &mut file);
    write_data_to_file(&config, &letters(2), &mut file);
    assert_eq!(file, b"A:1\nB:1\n".to_vec());
}

#[test]
fn write_counts_offsets_in_bytes() {
    let config = MemtableConfig::new(7, "./");
    let pairs: Vec<(String, String)> = ["a", "b", "c", "d", "é", "ü", "ÿ"]
        .iter()
        .map(|key| (key.to_string(), "日本".to_string()))
        .collect();
    let mut file = Vec::new();
    let key_offsets = write_data_to_file(&config, &pairs, &mut file);
    // Four lines of 1 + 1 + 6 + 1 bytes, then one of 2 + 1 + 6 + 1.
    assert_eq!(key_offsets, Some(vec![("ü".to_string(), 4 * 9 + 10)]));
    assert_eq!(&file[46..57], "&ü:日本\n".as_bytes());
}

#[test]
fn is_key_offset_index_leaves_out_first_and_last() {
    assert!(!is_key_offset_index(0, 6, 5));
    assert!(!is_key_offset_index(4, 6, 5));
    assert!(is_key_offset_index(5, 6, 5));
    assert!(!is_key_offset_index(6, 6, 5));
    assert!(!is_key_offset_index(5, 5, 5));
    assert!(is_key_offset_index(10, 11, 5));
    assert!(!is_key_offset_index(0, 0, 1));
    assert!(is_key_offset_index(1, 2, 1));
}

#[test]
fn lines_are_key_delimiter_value_and_line_feed() {
    assert_eq!(
        create_key_value_string(&"key", &"value", ':'),
        b"key:value\n".to_vec()
    );
    assert_eq!(
        create_key_value_offset_string(&"key", &"value", '&', ':'),
        b"&key:value\n".to_vec()
    );
    assert_eq!(create_key_value_string(&"", &"", '='), b"=\n".to_vec());
}

#[test]
fn append_bytes_adds_at_the_end() {
    let mut output = b"ab".to_vec();
    append_bytes(&mut output, b"cd");
    append_bytes(&mut output, b"");
    assert_eq!(output, b"abcd".to_vec());
}

#[test]
fn write_with_a_delimiter_and_a_marker_of_several_bytes() {
    let mut config = MemtableConfig::new(4, "./");
    config.key_offset_frequency = 2;
    config.key_value_delimeter = '→';
    config.key_offset_indicator = '§';
    let mut file = Vec::new();
    let key_offsets = write_data_to_file(&config, &letters(4), &mut file);
    assert_eq!(key_offsets, Some(vec![("C".to_string(), 12)]));
    assert_eq!(file, "A→1\nB→1\n§C→1\nD→1\n".as_bytes().to_vec());
    assert_eq!(
        create_key_value_offset_string(&"k", &"v", '😀', 'é'),
        "😀kév\n".as_bytes().to_vec()
    );
}

#[test]
fn write_renders_numbers_in_decimal() {
    let config = MemtableConfig::new(7, "./");
    let pairs = vec![("a", 0), ("b", 7), ("c", -1), ("d", 1234567890), ("e", i32::MAX), ("f", i32::MIN)];
    let mut file = Vec::new();
    let key_offsets = write_data_to_file(&config, &pairs, &mut file);
    assert_eq!(key_offsets, None);
    assert_eq!(
        file,
        b"a:0\nb:7\nc:-1\nd:1234567890\ne:2147483647\nf:-2147483648\n".to_vec()
    );
}

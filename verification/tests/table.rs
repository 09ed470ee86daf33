use bigpack::{calc_table_size, sort_files, table_record_size, Entry, FileData};

#[test]
fn record_size_counts_fields_name_and_nul() {
    let e = Entry::new(b"abc".to_vec(), 7);
    assert_eq!(e.len, 7);
    assert_eq!(table_record_size(&e), 4 + 4 + 3 + 1);
}

#[test]
fn record_size_of_empty_name() {
    let e = Entry::new(Vec::new(), 0);
    assert_eq!(table_record_size(&e), 9);
}

#[test]
fn table_size_sums_every_record() {
    let entries = vec![
        Entry::new(b"abc".to_vec(), 1),
        Entry::new(b"de".to_vec(), 2),
        Entry::new(Vec::new(), 3),
    ];
    assert_eq!(calc_table_size(&entries), 12 + 11 + 9);
}

#[test]
fn table_size_of_no_entries_is_zero() {
    assert_eq!(calc_table_size(&Vec::new()), 0);
}

#[test]
fn sort_is_by_ascending_length_and_stable() {
    let files = vec![
        FileData::new(b"a".to_vec(), vec![0; 4]),
        FileData::new(b"b".to_vec(), vec![0; 2]),
        FileData::new(b"c".to_vec(), vec![0; 4]),
        FileData::new(b"d".to_vec(), vec![0; 1]),
    ];
    let sorted = sort_files(files);
    let names: Vec<&[u8]> = sorted.iter().map(|f| f.name.as_slice()).collect();
    assert_eq!(names, vec![b"d" as &[u8], b"b", b"a", b"c"]);
    let lens: Vec<usize> = sorted.iter().map(|f| f.data.len()).collect();
    assert_eq!(lens, vec![1, 2, 4, 4]);
}

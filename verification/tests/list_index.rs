use crash_index::types::{BinaryIndex, IndexError, IndexSink, RabbitFraming, DUMP_SIZE};

#[test]
fn list_sink_keeps_only_equals_lines() {
    let mut index = BinaryIndex::new();
    index.index_sink.record_match(b"=binary:A1\n", 0);
    index.index_sink.record_match(b"3:abc\n", 11);
    index.index_sink.record_match(b"", 17);
    index.index_sink.record_match(b"=binary\n", 20);
    assert_eq!(index.index_sink.matches, vec![(Some("A1".to_string()), 0), (None, 20)]);
    let _: &IndexSink = &index.index_sink;
}

#[test]
fn list_index_keeps_records_with_placeholder() {
    let mut index = BinaryIndex::new();
    assert_eq!(index.index_window(b"=binary:A1\n3:abc\n", &mut 0).unwrap().is_none(), true);
    assert_eq!(index.total_size(), 1);
    assert_eq!(index.records.len(), 1);
    assert_eq!(index.records[0].binary_data.size, 3);
    assert_eq!(index.records[0].binary_data.data, b"sample".to_vec());
    assert!(index.index_window(b"=binaryA1\n3:abc\n", &mut 0).unwrap().is_none());
    assert_eq!(index.total_size(), 1);
}

#[test]
fn list_index_dumps_records_of_dump_size() {
    assert_eq!(DUMP_SIZE, 131064);
    let mut index = BinaryIndex::new();
    let mut dumped = 0;
    let dump = index.index_window(b"=binary:N1\n1FFF8:eyJhIjoxfQ==\n", &mut dumped).unwrap().unwrap();
    assert_eq!(dump.file_name, "N1.json");
    assert_eq!(dump.json, b"{\"a\":1}".to_vec());
    assert_eq!(dumped, 1);
    dumped = 10;
    let dump = index.index_window(b"=binary:N2\n1fff8:eyJhIjoxfQ==\r\n", &mut dumped).unwrap().unwrap();
    assert_eq!(dump.file_name, "N2.json");
    assert_eq!(dumped, 11);
    assert!(index.index_window(b"=binary:N3\n1FFF8:eyJhIjoxfQ==\n", &mut dumped).unwrap().is_none());
    assert_eq!(dumped, 11);
    assert_eq!(index.total_size(), 3);
}

#[test]
fn list_index_reports_unreadable_windows() {
    let mut index = BinaryIndex::new();
    assert!(matches!(index.index_window(b"", &mut 0), Err(IndexError::Malformed)));
    assert!(matches!(index.index_window(b"=binary:A1\n", &mut 0), Err(IndexError::Malformed)));
    assert!(matches!(index.index_window(b"=binary:A1\nq:abc\n", &mut 0), Err(IndexError::Malformed)));
    assert!(matches!(index.index_window(b"=binary:A1\n1FFF8:not base64!\n", &mut 0), Err(IndexError::BadBase64(_))));
    assert_eq!(index.total_size(), 1);
}

#[test]
fn list_index_reads_bad_bytes_lossily() {
    let mut index = BinaryIndex::new();
    assert!(index.index_window(b"=binary:A\xff\n2:ab\n", &mut 0).unwrap().is_none());
    assert_eq!(index.records.len(), 1);
}

#[test]
fn sort_by_size_puts_largest_first() {
    let mut index = BinaryIndex::new();
    for window in [&b"=binary:A\n3:a\n"[..], b"=binary:B\n5:b\n", b"=binary:C\n3:c\n", b"=binary:D\n1:d\n", b"=binary:E\na:e\n"] {
        index.index_window(window, &mut 0).unwrap();
    }
    index.sort_by_size();
    let sizes: Vec<usize> = index.records.iter().map(|r| r.binary_data.size).collect();
    assert_eq!(sizes, vec![10, 5, 3, 3, 1]);
    let names: Vec<&str> = index.records.iter().map(|r| r.ref_name.as_str()).collect();
    assert_eq!(names, vec!["E", "B", "C", "A", "D"]);
    index.sort_by_size();
    let names: Vec<&str> = index.records.iter().map(|r| r.ref_name.as_str()).collect();
    assert_eq!(names, vec!["E", "B", "A", "C", "D"]);
    assert_eq!(index.total_size(), 5);
    assert_eq!(index.total_size, 5);
}

#[test]
fn list_rabbit_framing_holds_its_parts() {
    let framing = RabbitFraming { ref_name: "R".to_string(), message_parts: "m".to_string() };
    assert_eq!(framing.message_parts, "m");
}

#[test]
fn list_build_keeps_lines_starting_with_equals() {
    let mut index = BinaryIndex::new();
    let data: &[u8] = b"=binary:A1\n3:abc\nx =binary:B2\n=binary:\n=binary:C3\n";
    assert!(index.build(data));
    assert_eq!(index.index_sink.matches, vec![(Some("A1".to_string()), 0), (Some("C3".to_string()), 39)]);
}

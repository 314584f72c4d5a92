use crash_index::indices::binary::{BinaryIndex, RabbitFraming};
use crash_index::indices::content::{content_map, ContentIndex, NodeValue};
use crash_index::indices::global::IndexSink;
use crash_index::indices::proc_heap::{ProcHeapError, ProcHeapIndex};
use crash_index::text::{find_byte_in, first_line, parse_hex, sub_text, trim_text};

/// The start offsets of the lines of `data` that begin with `prefix`.
fn line_starts(data: &[u8], prefix: &[u8]) -> Vec<u64> {
    let mut starts = Vec::new();
    let mut at = 0;
    for line in data.split_inclusive(|&b| b == b'\n') {
        if line.starts_with(prefix) {
            starts.push(at as u64);
        }
        at += line.len();
    }
    starts
}

/// Records the lines of `data` that begin with `prefix`, as a search would.
fn sink_for(data: &[u8], prefix: &[u8]) -> IndexSink {
    let mut sink = IndexSink::new();
    for start in line_starts(data, prefix) {
        let start = start as usize;
        let end = data[start..].iter().position(|&b| b == b'\n').map(|p| start + p + 1).unwrap_or(data.len());
        sink.record_match(&data[start..end], start as u64);
    }
    sink
}

const DUMP: &[u8] = b"=binary:A1\n3:abc\n=binary:B2\n2:xy\n=binary:C3\r\n4:wxyz\r\n=binary:END\n";

#[test]
fn find_byte_finds_first_occurrence() {
    assert_eq!(find_byte_in(b"ab:cd:e", b':', 0, 7), 2);
    assert_eq!(find_byte_in(b"ab:cd:e", b':', 3, 7), 5);
    assert_eq!(find_byte_in(b"ab:cd:e", b':', 6, 7), 7);
    assert_eq!(find_byte_in(b"ab:cd:e", b':', 0, 2), 2);
}

#[test]
fn first_line_drops_terminators() {
    assert_eq!(first_line(b"abc\ndef", 0, 7), (3, 3));
    assert_eq!(first_line(b"abc\r\ndef", 0, 8), (3, 4));
    assert_eq!(first_line(b"abc\r", 0, 4), (4, 4));
    assert_eq!(first_line(b"abc", 0, 3), (3, 3));
    assert_eq!(first_line(b"\n", 0, 1), (0, 0));
}

#[test]
fn parse_hex_follows_from_str_radix() {
    assert_eq!(parse_hex(b"1f", 0, 2), Some(31));
    assert_eq!(parse_hex(b"+A", 0, 2), Some(10));
    assert_eq!(parse_hex(b"x20000y", 1, 6), Some(0x20000));
    assert_eq!(parse_hex(b"", 0, 0), None);
    assert_eq!(parse_hex(b"+", 0, 1), None);
    assert_eq!(parse_hex(b"-1", 0, 2), None);
    assert_eq!(parse_hex(b"1g", 0, 2), None);
    assert_eq!(parse_hex(b" 1", 0, 2), None);
    assert_eq!(parse_hex(b"ffffffffffffffff", 0, 16), Some(usize::MAX));
    assert_eq!(parse_hex(b"10000000000000000", 0, 17), None);
    for text in ["0", "ff", "+7", "dead", "BEEF", "-", "", "++1", "12345678"] {
        let expected = usize::from_str_radix(text, 16).ok();
        assert_eq!(parse_hex(text.as_bytes(), 0, text.len()), expected, "{text}");
    }
}

#[test]
fn trim_text_drops_unicode_white_space() {
    assert_eq!(trim_text("  a b \n"), "a b");
    assert_eq!(trim_text("\u{3000}x\u{85}"), "x");
    assert_eq!(trim_text(" \t\r\n"), "");
    assert_eq!(trim_text(""), "");
    for text in ["\u{a0}k\u{2028}", "x", " y ", "\u{200b}z"] {
        assert_eq!(trim_text(text), text.trim());
        assert_eq!(trim_text(trim_text(text)), trim_text(text));
    }
}

#[test]
fn sub_text_takes_byte_range() {
    assert_eq!(sub_text("ab:\u{e9}d", 3, 6), "\u{e9}d");
    assert_eq!(sub_text("ab:cd", 0, 2), "ab");
}

#[test]
fn sink_records_tags_and_offsets() {
    let mut sink = IndexSink::new();
    sink.record_match(b"=binary:7F3A\n", 100);
    sink.record_match(b"=binary\n", 200);
    sink.record_match(b"x:\n", 300);
    sink.record_match(b"abc:", 400);
    sink.record_match(b"k: \xff b \n", 500);
    assert_eq!(
        sink.matches,
        vec![
            (Some("7F3A".to_string()), 100),
            (None, 200),
            (Some(String::new()), 300),
            (None, 400),
            (Some("\u{fffd} b".to_string()), 500),
        ]
    );
}

#[test]
fn binary_index_reads_records() {
    let mut index = BinaryIndex::new(DUMP);
    index.index_sink = sink_for(DUMP, b"=binary");
    assert_eq!(index.index_sink.matches.len(), 4);
    assert!(index.can_index());
    assert_eq!(index.index().unwrap(), true);
    assert_eq!(index.total_size, 9);
    let a = index.get_ref_by_name("A1").unwrap();
    assert_eq!(a.ref_name, "A1");
    assert_eq!(a.binary_data.size, 3);
    assert_eq!(a.binary_data.data, "abc");
    let b = index.get_ref_by_name("B2").unwrap();
    assert_eq!((b.binary_data.size, b.binary_data.data), (2, "xy"));
    let c = index.get_ref_by_name("C3").unwrap();
    assert_eq!((c.ref_name.as_str(), c.binary_data.size, c.binary_data.data), ("C3", 4, "wxyz"));
    assert!(index.get_ref_by_name("END").is_none());
}

#[test]
fn binary_index_keeps_last_record_of_a_name() {
    let dump: &[u8] = b"=binary:A1\n3:abc\n=binary:A1\n1:z\n=binary:X\n";
    let mut index = BinaryIndex::new(dump);
    index.index_sink = sink_for(dump, b"=binary");
    assert!(index.can_index());
    index.index().unwrap();
    let a = index.get_ref_by_name("A1").unwrap();
    assert_eq!((a.binary_data.size, a.binary_data.data), (1, "z"));
    assert_eq!(index.total_size, 4);
}

#[test]
fn binary_index_skips_windows_without_records() {
    let dump: &[u8] = b"=binaryA1\n3:abc\n=binary:B2\nno size here\n=binary:END\n";
    let mut index = BinaryIndex::new(dump);
    index.index_sink = sink_for(dump, b"=binary");
    assert!(index.can_index());
    index.index().unwrap();
    assert!(index.get_ref_by_name("A1").is_none());
    assert!(index.get_ref_by_name("B2").is_none());
    assert_eq!(index.total_size, 0);
}

#[test]
fn binary_index_refuses_unreadable_windows() {
    let missing_line: &[u8] = b"=binary:A1\n=binary:B2\n";
    let mut index = BinaryIndex::new(missing_line);
    index.index_sink = sink_for(missing_line, b"=binary");
    assert!(!index.can_index());

    let bad_size: &[u8] = b"=binary:A1\nzz:abc\n=binary:B2\n";
    let mut index = BinaryIndex::new(bad_size);
    index.index_sink = sink_for(bad_size, b"=binary");
    assert!(!index.can_index());

    let bad_text: &[u8] = b"=binary:A1\n3:a\xffc\n=binary:B2\n";
    let mut index = BinaryIndex::new(bad_text);
    index.index_sink = sink_for(bad_text, b"=binary");
    assert!(!index.can_index());

    let mut index = BinaryIndex::new(DUMP);
    index.index_sink = sink_for(DUMP, b"=binary");
    index.total_size = usize::MAX - 8;
    assert!(!index.can_index());
    index.total_size = usize::MAX - 9;
    assert!(index.can_index());
}

#[test]
fn content_map_reads_data_nodes() {
    let nodes = content_map("  head:t6:A7:content\nX:YcA1:10:3\nY:YcYcB2:zz:2:more\nZ:Xc1:2:3\nW:YcC3:1\n ");
    let described: Vec<(String, usize, usize)> = nodes
        .iter()
        .map(|n| match n {
            NodeValue::Data { address, offset, size } => (address.clone(), *offset, *size),
            NodeValue::Link { .. } => panic!("no links are made"),
        })
        .collect();
    assert_eq!(described, vec![("A1".to_string(), 16, 3), ("B2".to_string(), 0, 2)]);
}

#[test]
fn content_index_spells_messages() {
    let mut binaries = BinaryIndex::new(DUMP);
    binaries.index_sink = sink_for(DUMP, b"=binary");
    binaries.index().unwrap();

    let heap: &[u8] = b"p1:t6:A7:content\nX:YcA1:0:3\nX:YcB2:0:2\np2:t6:A7:content\nX:YcB2:0:2\np3:t6:A7:content\nX:YcNONE:0:1\n";
    let mut content = ContentIndex::new(heap);
    content.index_sink = sink_for(heap, b"p");
    assert!(content.has_text_windows());
    let messages = content.get_messages(&binaries.binary_refs).unwrap();
    // "xy" is too short to keep; the last entry's message is kept even empty.
    assert_eq!(messages, vec!["abcxy".to_string(), String::new()]);

    let part = content.find_message_part(&binaries.binary_refs, "C3".to_string());
    assert_eq!(part, Some("wxyz"));
    assert_eq!(content.find_message_part(&binaries.binary_refs, "Q".to_string()), None);
}

#[test]
fn content_index_without_entries_has_no_messages() {
    let binaries = BinaryIndex::new(DUMP);
    let content = ContentIndex::new(DUMP);
    assert!(content.has_text_windows());
    assert_eq!(content.get_messages(&binaries.binary_refs).unwrap(), Vec::<String>::new());
}

#[test]
fn content_index_refuses_bad_text() {
    let heap: &[u8] = b"p1:t6:A7:content\nX:Yc\xff:0:3\n";
    let mut content = ContentIndex::new(heap);
    content.index_sink = sink_for(heap, b"p");
    assert!(!content.has_text_windows());
}

#[test]
fn proc_heap_takes_first_window_with_messages() {
    let mut binaries = BinaryIndex::new(DUMP);
    binaries.index_sink = sink_for(DUMP, b"=binary");
    binaries.index().unwrap();

    let file: &[u8] = b"=proc:1\nnothing\n=proc:2\nAAAAAAAAAAAA:t6:A7:content\nX:YcC3:0:4\n=proc:3\n";
    let heaps = sink_for(file, b"=proc");
    let mut heap = ProcHeapIndex::new();
    assert!(heap.can_index_proc_heap(&heaps.matches, file));
    let found = heap.index_proc_heap(&heaps.matches, file, &binaries.binary_refs);
    assert_eq!(found.ok(), Some(Some(vec!["wxyz".to_string()])));

    let quiet: &[u8] = b"=proc:1\nnothing\n=proc:2\nAAAA:t6:A7:content\n=proc:3\n";
    let heaps = sink_for(quiet, b"=proc");
    let found = heap.index_proc_heap(&heaps.matches, quiet, &binaries.binary_refs);
    assert_eq!(found.ok(), Some(None));

    let outside = vec![(None, 0), (None, 1000)];
    assert!(!heap.can_index_proc_heap(&outside, file));
}

#[test]
fn proc_heap_reports_bad_text() {
    let binaries = BinaryIndex::new(DUMP);
    let file: &[u8] = b"=proc:1\nAAAAAAAAAAAA:t6:A7:content\nX:Yc\xff:0:4\n=proc:2\n";
    let heaps = sink_for(file, b"=proc");
    let mut heap = ProcHeapIndex::new();
    let found = heap.index_proc_heap(&heaps.matches, file, &binaries.binary_refs);
    assert!(matches!(found, Err(ProcHeapError::Unreadable)));
}

#[test]
fn binary_index_build_finds_binary_lines() {
    let mut index = BinaryIndex::new(DUMP);
    assert!(index.build());
    assert_eq!(index.index_sink.matches, sink_for(DUMP, b"=binary").matches);
    assert_eq!(
        index.index_sink.matches,
        vec![
            (Some("A1".to_string()), 0),
            (Some("B2".to_string()), 17),
            (Some("C3".to_string()), 33),
            (Some("END".to_string()), 53),
        ]
    );
    assert!(index.can_index());
    index.index().unwrap();
    assert_eq!(index.get_ref_by_name("B2").unwrap().binary_data.data, "xy");
}

#[test]
fn binary_index_build_stops_at_nul_byte() {
    let dump: &[u8] = b"=binary:A1\n3:abc\n\x00\n=binary:B2\n";
    let mut index = BinaryIndex::new(dump);
    assert!(index.build());
    assert!(index.index_sink.matches.len() <= 1);
}

#[test]
fn content_index_build_finds_content_lines() {
    let heap: &[u8] = b"p1:t6:A7:content\nX:YcA1:0:3\nq t6:A7:conten\nnone\n";
    let mut content = ContentIndex::new(heap);
    assert!(content.build().is_ok());
    let offsets: Vec<u64> = content.index_sink.matches.iter().map(|m| m.1).collect();
    assert_eq!(offsets, vec![0, 28]);
    assert_eq!(content.index_sink.matches[0].0, Some("t6:A7:content".to_string()));
}

#[test]
fn indexing_twice_keeps_records_and_adds_sizes_again() {
    let mut index = BinaryIndex::new(DUMP);
    assert!(index.build());
    index.index().unwrap();
    assert_eq!(index.total_size, 9);
    assert!(index.can_index());
    index.index().unwrap();
    assert_eq!(index.total_size, 18);
    for (name, size, data) in [("A1", 3, "abc"), ("B2", 2, "xy"), ("C3", 4, "wxyz")] {
        let r = index.get_ref_by_name(name).unwrap();
        assert_eq!((r.ref_name.as_str(), r.binary_data.size, r.binary_data.data), (name, size, data));
    }
}

#[test]
fn messages_ignore_node_offsets_and_sizes() {
    let mut binaries = BinaryIndex::new(DUMP);
    binaries.index_sink = sink_for(DUMP, b"=binary");
    binaries.index().unwrap();
    let one: &[u8] = b"p1:t6:A7:content\nX:YcA1:0:3\nX:YcB2:0:2\n";
    let two: &[u8] = b"p1:t6:A7:content\nX:YcA1:7:1\nX:YcB2:f:9\n";
    let mut first = ContentIndex::new(one);
    first.index_sink = sink_for(one, b"p");
    let mut second = ContentIndex::new(two);
    second.index_sink = sink_for(two, b"p");
    assert_eq!(
        first.get_messages(&binaries.binary_refs).unwrap(),
        second.get_messages(&binaries.binary_refs).unwrap()
    );
}

#[test]
fn rabbit_framing_holds_its_parts() {
    let framing = RabbitFraming { ref_name: "A1".to_string(), message_parts: "abc".to_string() };
    assert_eq!((framing.ref_name.as_str(), framing.message_parts.as_str()), ("A1", "abc"));
}

#[test]
fn build_index() {
    let data: &[u8] = b"=binary:A1\n3:abc\n=binary:END\nAAAAAAAAAAAA:t6:A7:content\nX:YcA1:0:3\nBBBBBBBBBBBB:t6:A7:content\nX:YcQ:0:1\n";
    let mut content_index = ContentIndex::new(data);
    content_index.build().unwrap();
    assert!(content_index.has_text_windows());
    let no_refs = BinaryIndex::new(b"").binary_refs;
    let messages = content_index.get_messages(&no_refs).unwrap();
    assert_eq!(messages, vec![String::new()]);

    let mut binaries = BinaryIndex::new(data);
    assert!(binaries.build());
    assert!(binaries.can_index());
    binaries.index().unwrap();
    let messages = content_index.get_messages(&binaries.binary_refs).unwrap();
    assert_eq!(messages, vec!["abc".to_string(), String::new()]);
}

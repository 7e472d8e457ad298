use cct::{chunk_size, collect_lines, header_len, read_chunk};

fn fixture() -> Vec<u8> {
    let mut text = String::from("{\"traceEvents\":[\n");
    let names = [
        "alpha", "beta", "gamma", "delta", "epsilon", "zeta", "eta", "theta", "iota", "kappa",
        "lambda", "mu", "nu", "xi", "omicron", "pi", "rho", "sigma", "tau", "upsilon",
    ];
    for (i, name) in names.iter().enumerate() {
        let phase = if i % 2 == 0 { "B" } else { "E" };
        let tail = if i + 1 == names.len() { "],\"displayTimeUnit\":\"ns\"}\n" } else { ",\n" };
        text.push_str(&format!(
            "{{\"name\":\"{}\",\"cat\":\"c\",\"ph\":\"{}\",\"pid\":1,\"tid\":{},\"ts\":{}}}{}",
            name,
            phase,
            i % 3,
            i * 10,
            tail
        ));
    }
    text.into_bytes()
}

fn events_of(records: &[Vec<u8>]) -> Vec<String> {
    let mut events = Vec::new();
    for record in records {
        if let Ok(serde_json::Value::Object(map)) = serde_json::from_slice(record) {
            if map.contains_key("ph") {
                events.push(serde_json::Value::Object(map).to_string());
            }
        }
    }
    events
}

fn whole_file_events(data: &[u8]) -> Vec<String> {
    let value: serde_json::Value = serde_json::from_slice(data).unwrap();
    let list = value.get("traceEvents").unwrap().as_array().unwrap();
    list.iter().map(|event| event.to_string()).collect()
}

fn chunked(data: &[u8], readers: usize) -> Vec<Vec<u8>> {
    let skip = header_len(data);
    let size = chunk_size(data.len(), skip, readers);
    let mut records = Vec::new();
    for reader in 0..readers {
        records.extend(collect_lines(data, reader, size, skip));
    }
    records
}

#[test]
fn check_events_are_read_correctly() {
    let data = fixture();
    let trace_sync = whole_file_events(&data);
    let trace_parallel = events_of(&chunked(&data, 4));
    assert_eq!(trace_sync.len(), trace_parallel.len());
    for (event1, event2) in trace_sync.iter().zip(trace_parallel.iter()) {
        assert_eq!(event1, event2);
    }
}

#[test]
fn check_events_are_parsed_correctly() {
    let data = fixture();
    let trace_sync = whole_file_events(&data);
    let trace_parallel = events_of(&chunked(&data, 2));
    assert_eq!(trace_sync.len(), trace_parallel.len());
    for (event1, event2) in trace_sync.iter().zip(trace_parallel.iter()) {
        assert_eq!(event1, event2);
    }
}

#[test]
fn chunks_recover_what_one_reader_recovers() {
    let data = fixture();
    let mut expected = whole_file_events(&data);
    expected.sort();
    assert_eq!(expected.len(), 20);
    for readers in [1usize, 2, 4, 8] {
        let mut found = events_of(&chunked(&data, readers));
        found.sort();
        assert_eq!(found, expected, "with {} readers", readers);
    }
}

#[test]
fn no_record_of_one_reader_is_lost_by_any_number_of_readers() {
    let data = fixture();
    let single = chunked(&data, 1);
    for readers in 1usize..=40 {
        let found = chunked(&data, readers);
        for record in &single {
            assert!(found.contains(record), "with {} readers", readers);
        }
    }
}

#[test]
fn header_is_the_first_line() {
    assert_eq!(header_len(b"{\"traceEvents\":[\n{},\n"), 17);
    assert_eq!(header_len(b"no newline"), 10);
    assert_eq!(header_len(b""), 0);
    assert_eq!(header_len(b"\nrest"), 1);
}

#[test]
fn chunk_size_rounds_up() {
    assert_eq!(chunk_size(117, 17, 4), 25);
    assert_eq!(chunk_size(118, 17, 4), 26);
    assert_eq!(chunk_size(17, 17, 8), 0);
    assert_eq!(chunk_size(18, 17, 8), 1);
    assert_eq!(chunk_size(usize::MAX, 0, 1), usize::MAX);
    assert_eq!(chunk_size(usize::MAX, 0, 2), usize::MAX / 2 + 1);
}

#[test]
fn lines_lose_their_separator() {
    let data = b"{\"a\":1},\n{\"b\":2},\n{\"c\":3},\n";
    let records = read_chunk(data, 0, data.len());
    assert_eq!(records, vec![b"{\"a\":1}".to_vec(), b"{\"b\":2}".to_vec(), b"{\"c\":3}".to_vec()]);
}

#[test]
fn last_line_is_cut_at_the_marker() {
    let data = b"{\"a\":1},\n{\"b\":2}],\"unit\":\"ns\"}\n{\"not\":\"read\"},\n";
    let records = read_chunk(data, 0, data.len());
    assert_eq!(records, vec![b"{\"a\":1}".to_vec(), b"{\"b\":2}".to_vec()]);
}

#[test]
fn the_last_of_several_markers_counts() {
    let data = b"{\"s\":\"}],\"}],\"meta\":[{\"k\":1}],\"z\":0}\n";
    let records = read_chunk(data, 0, data.len());
    assert_eq!(records, vec![b"{\"s\":\"}],\"}],\"meta\":[{\"k\":1}".to_vec()]);
}

#[test]
fn last_line_without_marker_loses_two_bytes() {
    let data = b"{\"a\":1},\n{\"b\":2}]}\n";
    let records = read_chunk(data, 0, data.len());
    assert_eq!(records, vec![b"{\"a\":1}".to_vec(), b"{\"b\":2}]".to_vec()]);
    let unterminated = b"{\"a\":1}";
    assert_eq!(read_chunk(unterminated, 0, 100), vec![b"{\"a\":".to_vec()]);
}

#[test]
fn a_bare_newline_holds_no_record_and_ends_nothing() {
    let data = b"\n{\"a\":1},\n";
    let records = read_chunk(data, 0, data.len());
    assert_eq!(records, vec![Vec::new(), b"{\"a\":1}".to_vec()]);
}

#[test]
fn reading_stops_once_the_chunk_is_exceeded() {
    let data = b"{\"a\":1},\n{\"b\":2},\n{\"c\":3},\n{\"d\":4},\n";
    assert_eq!(read_chunk(data, 0, 0), vec![b"{\"a\":1}".to_vec()]);
    assert_eq!(read_chunk(data, 0, 8), vec![b"{\"a\":1}".to_vec()]);
    assert_eq!(read_chunk(data, 0, 9), vec![b"{\"a\":1}".to_vec(), b"{\"b\":2}".to_vec()]);
    assert_eq!(read_chunk(data, 9, 9), vec![b"{\"b\":2}".to_vec(), b"{\"c\":3}".to_vec()]);
    assert_eq!(read_chunk(data, 12, 5), vec![b"\":2}".to_vec()]);
    assert_eq!(read_chunk(data, 36, 9), Vec::<Vec<u8>>::new());
    assert_eq!(read_chunk(data, 1000, 9), Vec::<Vec<u8>>::new());
}

#[test]
fn a_reader_beyond_the_file_reads_nothing() {
    let data = b"{\"a\":1},\n";
    assert_eq!(collect_lines(data, 3, 9, 0), Vec::<Vec<u8>>::new());
    assert_eq!(collect_lines(data, usize::MAX, usize::MAX, 5), Vec::<Vec<u8>>::new());
    assert_eq!(collect_lines(data, 0, 9, 0), vec![b"{\"a\":1}".to_vec()]);
}

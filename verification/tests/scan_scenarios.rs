use memscan::model::{DataType, FindMode, Match, MemoryScanRequest, ScanResponse, MAX_RESULTS};
use memscan::scan::{matches_of_spans, scan_chunk, snapshot};
use memscan::session::{make_response, memory_scan_handler, ScanRun};
use memscan::store::ResultStore;
use memscan::target::{ApiError, TargetContext};

fn attached() -> TargetContext {
    let mut context = TargetContext::new();
    context.attach(4242);
    context
}

fn request(
    pattern: &str,
    ranges: Vec<(usize, usize)>,
    find: &str,
    data: &str,
    id: &str,
    align: usize,
    json: bool,
) -> MemoryScanRequest {
    MemoryScanRequest {
        pattern: pattern.to_string(),
        address_ranges: ranges,
        find_type: find.to_string(),
        data_type: data.to_string(),
        scan_id: id.to_string(),
        align,
        return_as_json: json,
    }
}

fn m(address: usize, value: &str) -> Match {
    Match { address, value: value.to_string() }
}

#[test]
fn exact_byte_pattern_scan_reports_both_occurrences() {
    let context = attached();
    let mut store = ResultStore::new();
    let mut memory = vec![0u8; 0x1000];
    memory[0x10] = 0xff;
    memory[0x20] = 0xff;
    let req = request("ff", vec![(0x1000, 0x2000)], "exact", "aob", "s1", 1, true);
    let response = memory_scan_handler(&context, &mut store, &req, &vec![Some(memory)]).unwrap();
    let expected = vec![m(0x1010, "ff"), m(0x1020, "ff")];
    assert_eq!(
        response,
        ScanResponse::Full { matched_addresses: expected.clone(), found: 2, is_rounded: false }
    );
    assert_eq!(store.get("s1"), Some(&expected));
}

#[test]
fn scan_without_target_is_refused_and_leaves_the_store() {
    let context = TargetContext::new();
    let mut store = ResultStore::new();
    store.replace("s1", vec![m(1, "00")]);
    let req = request("00", vec![(0, 4)], "exact", "aob", "s1", 1, true);
    let r = memory_scan_handler(&context, &mut store, &req, &vec![Some(vec![0u8; 4])]);
    assert_eq!(r, Err(ApiError::NotAttached));
    assert_eq!(store.get("s1"), Some(&vec![m(1, "00")]));
}

#[test]
fn literal_scan_keeps_only_aligned_addresses() {
    let data = vec![0xabu8; 16];
    let found = scan_chunk(FindMode::Exact, DataType::Aob, "ab", 4, 0x1002, &data);
    let addresses: Vec<usize> = found.iter().map(|x| x.address).collect();
    assert_eq!(addresses, vec![0x1004, 0x1008, 0x100c, 0x1010]);
    for item in &found {
        assert_eq!(item.address % 4, 0);
        assert_eq!(item.value, "ab");
    }
}

#[test]
fn literal_scan_with_alignment_three() {
    let data = vec![7u8; 10];
    let found = scan_chunk(FindMode::Exact, DataType::UInt8, "07", 3, 100, &data);
    let addresses: Vec<usize> = found.iter().map(|x| x.address).collect();
    assert_eq!(addresses, vec![102, 105, 108]);
}

#[test]
fn literal_scan_reports_overlapping_occurrences() {
    let data = vec![0xaau8, 0xaa, 0xaa, 0xaa, 0x00];
    let found = scan_chunk(FindMode::Exact, DataType::Aob, "aaaa", 1, 0x10, &data);
    assert_eq!(found, vec![m(0x10, "aaaa"), m(0x11, "aaaa"), m(0x12, "aaaa")]);
}

#[test]
fn literal_scan_echoes_the_pattern_as_written() {
    let data = vec![0x00u8, 0xde, 0xad, 0x00];
    let found = scan_chunk(FindMode::Exact, DataType::Int16, "DEad", 1, 0, &data);
    assert_eq!(found, vec![m(1, "DEad")]);
}

#[test]
fn literal_scan_with_malformed_pattern_finds_nothing() {
    let data = vec![0u8; 8];
    assert_eq!(scan_chunk(FindMode::Exact, DataType::Aob, "0", 1, 0, &data), vec![]);
    assert_eq!(scan_chunk(FindMode::Exact, DataType::Aob, "zz", 1, 0, &data), vec![]);
    assert_eq!(scan_chunk(FindMode::Exact, DataType::Aob, "0é", 1, 0, &data), vec![]);
}

#[test]
fn literal_scan_with_empty_pattern_matches_every_offset() {
    let data = vec![1u8, 2, 3];
    let found = scan_chunk(FindMode::Exact, DataType::Aob, "", 1, 8, &data);
    assert_eq!(found, vec![m(8, ""), m(9, ""), m(10, ""), m(11, "")]);
}

#[test]
fn literal_scan_of_an_empty_chunk() {
    let data: Vec<u8> = vec![];
    assert_eq!(scan_chunk(FindMode::Exact, DataType::Aob, "00", 1, 8, &data), vec![]);
}

#[test]
fn regex_scan_reports_matched_bytes_as_hex() {
    let data = b"xxabcxxabbcxx".to_vec();
    let found = scan_chunk(FindMode::Exact, DataType::Regex, "ab+c", 1, 0x100, &data);
    assert_eq!(found, vec![m(0x102, "616263"), m(0x107, "61626263")]);
}

#[test]
fn regex_scan_respects_alignment() {
    let data = b"a.a.a.aa".to_vec();
    let found = scan_chunk(FindMode::Exact, DataType::Regex, "a", 2, 0, &data);
    assert_eq!(found, vec![m(0, "61"), m(2, "61"), m(4, "61"), m(6, "61")]);
}

#[test]
fn regex_scan_with_malformed_expression_finds_nothing() {
    let data = b"((((".to_vec();
    assert_eq!(scan_chunk(FindMode::Exact, DataType::Regex, "(", 1, 0, &data), vec![]);
}

#[test]
fn snapshot_of_int32_values() {
    let data = vec![1u8, 0, 0, 0, 0xff, 0xff, 0xff, 0xff, 9, 9];
    let found = scan_chunk(FindMode::Unknown, DataType::Int32, "", 1, 0x1000, &data);
    assert_eq!(found, vec![m(0x1000, "01000000"), m(0x1004, "ffffffff")]);
    for item in &found {
        assert_eq!(item.value.len(), 8);
        let bytes = hex::decode(&item.value).unwrap();
        let at = item.address - 0x1000;
        assert_eq!(bytes, data[at..at + 4].to_vec());
    }
}

#[test]
fn snapshot_widths_follow_the_data_type() {
    let data: Vec<u8> = (0u8..16).collect();
    let cases: Vec<(DataType, usize)> = vec![
        (DataType::Int8, 1),
        (DataType::UInt8, 1),
        (DataType::Int16, 2),
        (DataType::UInt16, 2),
        (DataType::Int32, 4),
        (DataType::UInt32, 4),
        (DataType::Float, 4),
        (DataType::Int64, 8),
        (DataType::UInt64, 8),
        (DataType::Double, 8),
        (DataType::Utf8, 1),
        (DataType::Utf16, 1),
        (DataType::Aob, 1),
        (DataType::Regex, 1),
        (DataType::Other, 1),
    ];
    for (t, width) in cases {
        let found = scan_chunk(FindMode::Unknown, t, "ignored", 1, 0, &data);
        assert_eq!(found.len(), 16 / width);
        for (k, item) in found.iter().enumerate() {
            assert_eq!(item.address, k * width);
            assert_eq!(item.value.len(), 2 * width);
            assert_eq!(item.value, hex::encode(&data[k * width..(k + 1) * width]));
        }
    }
}

#[test]
fn snapshot_values_decode_to_the_numbers_in_memory() {
    let data = vec![0x34u8, 0x12, 0x78, 0x56, 0xef, 0xcd, 0xab, 0x89, 1, 2, 3, 4, 5, 6, 7, 8];
    let two = snapshot(&data, 0, 1, 2);
    assert_eq!(two[0].value, "3412");
    assert_eq!(u16::from_le_bytes(hex::decode(&two[0].value).unwrap().try_into().unwrap()), 0x1234);
    let four = snapshot(&data, 0, 1, 4);
    assert_eq!(four[1].value, "efcdab89");
    assert_eq!(
        u32::from_le_bytes(hex::decode(&four[1].value).unwrap().try_into().unwrap()),
        0x89abcdef
    );
    let eight = snapshot(&data, 0, 1, 8);
    assert_eq!(eight[1].value, "0102030405060708");
    assert_eq!(
        u64::from_le_bytes(hex::decode(&eight[1].value).unwrap().try_into().unwrap()),
        0x0807060504030201
    );
    let one = snapshot(&data, 0, 1, 1);
    assert_eq!(one[4].value, "ef");
}

#[test]
fn snapshot_skips_unaligned_slots_and_the_leftover() {
    let data = vec![0u8; 11];
    let found = snapshot(&data, 2, 4, 2);
    let addresses: Vec<usize> = found.iter().map(|x| x.address).collect();
    assert_eq!(addresses, vec![4, 8]);
    assert_eq!(snapshot(&[], 0, 1, 4), vec![]);
    assert_eq!(snapshot(&[1, 2, 3], 0, 1, 4), vec![]);
}

#[test]
fn unnamed_find_mode_finds_nothing() {
    let data = vec![0u8; 8];
    assert_eq!(scan_chunk(FindMode::Other, DataType::Aob, "00", 1, 0, &data), vec![]);
    let context = attached();
    let mut store = ResultStore::new();
    let req = request("00", vec![(0, 8)], "fuzzy", "aob", "s", 1, true);
    let response = memory_scan_handler(&context, &mut store, &req, &vec![Some(data)]).unwrap();
    assert_eq!(
        response,
        ScanResponse::Full { matched_addresses: vec![], found: 0, is_rounded: false }
    );
    assert_eq!(store.get("s"), Some(&vec![]));
}

#[test]
fn matches_of_spans_renders_bytes_or_echo() {
    let data = vec![0xdeu8, 0xad, 0xbe, 0xef];
    let spans = vec![(0usize, 2usize), (1, 3), (2, 4), (4, 4)];
    let plain = matches_of_spans(&spans, &data, 0x10, 2, None);
    assert_eq!(plain, vec![m(0x10, "dead"), m(0x12, "beef"), m(0x14, "")]);
    let echoed = matches_of_spans(&spans, &data, 0x10, 1, Some("xy"));
    assert_eq!(echoed, vec![m(0x10, "xy"), m(0x11, "xy"), m(0x12, "xy"), m(0x14, "xy")]);
}

#[test]
fn failed_chunk_read_contributes_nothing() {
    let context = attached();
    let mut store = ResultStore::new();
    let req = request("01", vec![(0x10, 0x14), (0x20, 0x24)], "exact", "aob", "s", 1, true);
    let reads = vec![None, Some(vec![1u8, 0, 1, 0])];
    let response = memory_scan_handler(&context, &mut store, &req, &reads).unwrap();
    assert_eq!(
        response,
        ScanResponse::Full {
            matched_addresses: vec![m(0x20, "01"), m(0x22, "01")],
            found: 2,
            is_rounded: false
        }
    );
}

#[test]
fn missing_reads_count_as_failed() {
    let context = attached();
    let mut store = ResultStore::new();
    let req = request("01", vec![(0x10, 0x14), (0x20, 0x24)], "exact", "aob", "s", 1, false);
    let reads = vec![Some(vec![1u8, 1, 1, 1])];
    let response = memory_scan_handler(&context, &mut store, &req, &reads).unwrap();
    assert_eq!(response, ScanResponse::Count { found: 4 });
    assert_eq!(store.count("s"), Some(4));
}

#[test]
fn reversed_and_empty_ranges_have_no_chunks() {
    let context = attached();
    let mut store = ResultStore::new();
    let req = request("00", vec![(0x20, 0x10), (5, 5)], "exact", "aob", "s", 1, true);
    let response = memory_scan_handler(&context, &mut store, &req, &vec![]).unwrap();
    assert_eq!(
        response,
        ScanResponse::Full { matched_addresses: vec![], found: 0, is_rounded: false }
    );
    assert_eq!(store.get("s"), Some(&vec![]));
}

#[test]
fn a_new_scan_clears_the_result_set_of_its_id_only() {
    let context = attached();
    let mut store = ResultStore::new();
    store.replace("s", vec![m(1, "aa"), m(2, "bb")]);
    store.replace("other", vec![m(3, "cc")]);
    let req = request("07", vec![(0, 2)], "exact", "aob", "s", 1, false);
    let response = memory_scan_handler(&context, &mut store, &req, &vec![Some(vec![7u8, 0])]).unwrap();
    assert_eq!(response, ScanResponse::Count { found: 1 });
    assert_eq!(store.get("s"), Some(&vec![m(0, "07")]));
    assert_eq!(store.get("other"), Some(&vec![m(3, "cc")]));
}

#[test]
fn spilled_chunk_loses_no_match() {
    let context = attached();
    let mut store = ResultStore::new();
    let big = MAX_RESULTS + 1;
    let req = request(
        "",
        vec![(0x100, 0x104), (0x10000, 0x10000 + big), (0x200, 0x202)],
        "unknown",
        "uint8",
        "spill",
        1,
        true,
    );
    let reads = vec![Some(vec![1u8; 4]), Some(vec![2u8; big]), Some(vec![3u8; 2])];
    let response = memory_scan_handler(&context, &mut store, &req, &reads).unwrap();
    let stored = store.get("spill").unwrap();
    assert_eq!(stored.len(), big + 6);
    match response {
        ScanResponse::Full { matched_addresses, found, is_rounded } => {
            assert_eq!(found, big + 6);
            assert_eq!(found, stored.len());
            assert!(is_rounded);
            assert_eq!(matched_addresses.len(), MAX_RESULTS);
            assert_eq!(matched_addresses[..], stored[..MAX_RESULTS]);
        }
        ScanResponse::Count { .. } => panic!("a full answer was asked for"),
    }
    // The spilled chunk comes first, then the chunks that were held back, in order.
    assert_eq!(stored[0], m(0x10000, "02"));
    assert_eq!(stored[big - 1], m(0x10000 + big - 1, "02"));
    assert_eq!(stored[big], m(0x100, "01"));
    assert_eq!(stored[big + 4], m(0x200, "03"));
    assert_eq!(stored[big + 5], m(0x201, "03"));
}

#[test]
fn exactly_max_results_in_a_chunk_is_not_spilled_and_not_rounded() {
    let context = attached();
    let mut store = ResultStore::new();
    let req = request("", vec![(0, MAX_RESULTS)], "unknown", "int8", "s", 1, true);
    let reads = vec![Some(vec![0u8; MAX_RESULTS])];
    let response = memory_scan_handler(&context, &mut store, &req, &reads).unwrap();
    match response {
        ScanResponse::Full { matched_addresses, found, is_rounded } => {
            assert_eq!(found, MAX_RESULTS);
            assert!(!is_rounded);
            assert_eq!(matched_addresses.len(), MAX_RESULTS);
        }
        ScanResponse::Count { .. } => panic!("a full answer was asked for"),
    }
}

#[test]
fn scan_run_steps_spill_and_hold_back() {
    let mut store = ResultStore::new();
    store.replace("id", vec![m(9, "09")]);
    let mut run = ScanRun::begin(&mut store, "id");
    assert_eq!(store.get("id"), Some(&vec![]));
    assert_eq!(run.found, 0);
    run.absorb(&mut store, "id", vec![m(1, "01"), m(2, "02")]);
    assert_eq!(run.found, 2);
    assert_eq!(run.pending, vec![m(1, "01"), m(2, "02")]);
    assert_eq!(store.get("id"), Some(&vec![]));
    let many: Vec<Match> = (0..MAX_RESULTS + 1).map(|i| m(1000 + i, "ff")).collect();
    run.absorb(&mut store, "id", many.clone());
    assert_eq!(run.found, MAX_RESULTS + 3);
    assert_eq!(run.pending.len(), 2);
    assert_eq!(store.get("id"), Some(&many));
    let response = run.finish(&mut store, "id", false);
    assert_eq!(response, ScanResponse::Count { found: MAX_RESULTS + 3 });
    let stored = store.get("id").unwrap();
    assert_eq!(stored.len(), MAX_RESULTS + 3);
    assert_eq!(stored[MAX_RESULTS + 1], m(1, "01"));
    assert_eq!(stored[MAX_RESULTS + 2], m(2, "02"));
}

#[test]
fn scan_run_begin_makes_no_result_set() {
    let mut store = ResultStore::new();
    let run = ScanRun::begin(&mut store, "fresh");
    assert!(!store.contains("fresh"));
    let response = run.finish(&mut store, "fresh", true);
    assert_eq!(
        response,
        ScanResponse::Full { matched_addresses: vec![], found: 0, is_rounded: false }
    );
    assert!(store.contains("fresh"));
}

#[test]
fn absorb_chunk_searches_and_counts() {
    let mut store = ResultStore::new();
    let req = request("0a", vec![], "exact", "aob", "id", 2, true);
    let mut run = ScanRun::begin(&mut store, "id");
    let chunk = memscan::chunks::Chunk { start: 0x40, len: 4 };
    run.absorb_chunk(&mut store, &req, chunk, Some(&[0x0a, 0x0a, 0x0a, 0x00]));
    run.absorb_chunk(&mut store, &req, chunk, None);
    assert_eq!(run.found, 2);
    assert_eq!(run.pending, vec![m(0x40, "0a"), m(0x42, "0a")]);
}

#[test]
fn make_response_lists_at_most_max_results() {
    let set: Vec<Match> = (0..MAX_RESULTS + 5).map(|i| m(i, "00")).collect();
    match make_response(&set, 7, true) {
        ScanResponse::Full { matched_addresses, found, is_rounded } => {
            assert_eq!(matched_addresses.len(), MAX_RESULTS);
            assert_eq!(matched_addresses[MAX_RESULTS - 1], m(MAX_RESULTS - 1, "00"));
            assert_eq!(found, 7);
            assert!(is_rounded);
        }
        ScanResponse::Count { .. } => panic!("a full answer was asked for"),
    }
    assert_eq!(make_response(&set, 7, false), ScanResponse::Count { found: 7 });
    let small = vec![m(1, "aa")];
    assert_eq!(
        make_response(&small, 1, true),
        ScanResponse::Full { matched_addresses: small.clone(), found: 1, is_rounded: false }
    );
}

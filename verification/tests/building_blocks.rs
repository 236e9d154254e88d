use memscan::chunks::{count_chunks, nth_chunk, plan_chunks, Chunk, CHUNK_SIZE};
use memscan::hexcode::{parse_hex, to_hex};
use memscan::model::{
    copy_prefix, DataType, FindMode, Match, OpenProcess, Relation, MAX_RESULTS,
};
use memscan::numeric::{
    float_order_key, read_signed, read_unsigned, write_unsigned, F32_INFINITY, F32_SIGN,
    F64_INFINITY, F64_SIGN,
};
use memscan::search::find_all;
use memscan::store::ResultStore;
use memscan::target::{
    open_process_handler, read_memory_handler, write_memory_handler, ApiError, TargetContext,
};

fn m(address: usize, value: &str) -> Match {
    Match { address, value: value.to_string() }
}

#[test]
fn hex_text_is_lowercase_two_digits_a_byte() {
    assert_eq!(to_hex(&[]), "");
    assert_eq!(to_hex(&[0x00, 0x0f, 0x10, 0xab, 0xff]), "000f10abff");
    let all: Vec<u8> = (0..=255).collect();
    assert_eq!(to_hex(&all), hex::encode(&all));
}

#[test]
fn hex_text_parses_in_either_case() {
    assert_eq!(parse_hex(""), Some(vec![]));
    assert_eq!(parse_hex("000f10abff"), Some(vec![0x00, 0x0f, 0x10, 0xab, 0xff]));
    assert_eq!(parse_hex("ABcdEF"), Some(vec![0xab, 0xcd, 0xef]));
    assert_eq!(parse_hex("0123456789"), Some(vec![0x01, 0x23, 0x45, 0x67, 0x89]));
}

#[test]
fn malformed_hex_text_is_refused() {
    assert_eq!(parse_hex("0"), None);
    assert_eq!(parse_hex("abc"), None);
    assert_eq!(parse_hex("0g"), None);
    assert_eq!(parse_hex("  "), None);
    assert_eq!(parse_hex("0x10"), None);
    assert_eq!(parse_hex("é"), None);
    assert_eq!(parse_hex("aé"), None);
    assert_eq!(parse_hex("ｆｆ"), None);
}

#[test]
fn hex_round_trip_gives_the_bytes_again() {
    let all: Vec<u8> = (0..=255).rev().collect();
    assert_eq!(parse_hex(&to_hex(&all)), Some(all));
}

#[test]
fn unsigned_numbers_are_read_least_significant_byte_first() {
    assert_eq!(read_unsigned(&[]), 0);
    assert_eq!(read_unsigned(&[0x2a]), 42);
    assert_eq!(read_unsigned(&[0x34, 0x12]), 0x1234);
    assert_eq!(read_unsigned(&[0x0a, 0, 0, 0]), 10);
    assert_eq!(read_unsigned(&[1, 2, 3]), 0x030201);
    assert_eq!(read_unsigned(&[0xff; 8]), u64::MAX);
    assert_eq!(read_unsigned(&[1, 2, 3, 4, 5, 6, 7, 8]), 0x0807060504030201);
}

#[test]
fn signed_numbers_are_twos_complement() {
    assert_eq!(read_signed(&[0x7f]), 127);
    assert_eq!(read_signed(&[0x80]), -128);
    assert_eq!(read_signed(&[0xff]), -1);
    assert_eq!(read_signed(&[0xfe, 0xff]), -2);
    assert_eq!(read_signed(&[0x00, 0x80]), -32768);
    assert_eq!(read_signed(&[0x14, 0, 0, 0]), 20);
    assert_eq!(read_signed(&(-123456i32).to_le_bytes()), -123456);
    assert_eq!(read_signed(&i64::MIN.to_le_bytes()), i64::MIN);
    assert_eq!(read_signed(&i64::MAX.to_le_bytes()), i64::MAX);
    assert_eq!(read_signed(&[0xff, 0xff, 0xff]), -1);
}

#[test]
fn numbers_are_written_least_significant_byte_first() {
    assert_eq!(write_unsigned(0x1234, 2), vec![0x34, 0x12]);
    assert_eq!(write_unsigned(1, 4), vec![1, 0, 0, 0]);
    assert_eq!(write_unsigned(0x0102030405060708, 8), vec![8, 7, 6, 5, 4, 3, 2, 1]);
    assert_eq!(write_unsigned(0x1234, 1), vec![0x34]);
    assert_eq!(write_unsigned(7, 0), vec![]);
    assert_eq!(write_unsigned(u64::MAX, 10), vec![0xff, 0xff, 0xff, 0xff, 0xff, 0xff, 0xff, 0xff, 0, 0]);
}

#[test]
fn float_keys_order_bit_patterns_as_floats() {
    let key = |x: f32| float_order_key(x.to_bits() as u64, F32_SIGN, F32_INFINITY);
    assert_eq!(key(0.0), Some(0));
    assert_eq!(key(-0.0), Some(0));
    assert_eq!(key(1.0), Some(0x3f80_0000));
    assert_eq!(key(-1.0), Some(-0x3f80_0000));
    assert_eq!(key(f32::INFINITY), Some(0x7f80_0000));
    assert_eq!(key(f32::NEG_INFINITY), Some(-0x7f80_0000));
    assert_eq!(key(f32::NAN), None);
    assert_eq!(float_order_key(0xffc0_0000, F32_SIGN, F32_INFINITY), None);
    let wide = |x: f64| float_order_key(x.to_bits(), F64_SIGN, F64_INFINITY);
    assert_eq!(wide(0.0), Some(0));
    assert_eq!(wide(-0.0), Some(0));
    assert_eq!(wide(f64::NAN), None);
    assert_eq!(wide(-2.0), Some(-0x4000_0000_0000_0000));
    assert!(wide(1.0e10) > wide(1.0));
    assert!(wide(-1.0e10) < wide(-1.0));
}

#[test]
fn find_all_reports_every_occurrence() {
    assert_eq!(find_all(b"foo bar foo baz foo", b"foo"), vec![(0, 3), (8, 11), (16, 19)]);
    assert_eq!(find_all(b"aaaa", b"aa"), vec![(0, 2), (1, 3), (2, 4)]);
    assert_eq!(find_all(b"abc", b"abcd"), vec![]);
    assert_eq!(find_all(b"abc", b"x"), vec![]);
    assert_eq!(find_all(b"ab", b""), vec![(0, 0), (1, 1), (2, 2)]);
    assert_eq!(find_all(b"", b""), vec![(0, 0)]);
    assert_eq!(find_all(b"", b"a"), vec![]);
    let long = vec![9u8; 300];
    assert_eq!(find_all(&long, &[9u8; 299]), vec![(0, 299), (1, 300)]);
}

#[test]
fn data_types_by_name() {
    let names = [
        ("int8", DataType::Int8),
        ("int16", DataType::Int16),
        ("int32", DataType::Int32),
        ("int64", DataType::Int64),
        ("uint8", DataType::UInt8),
        ("uint16", DataType::UInt16),
        ("uint32", DataType::UInt32),
        ("uint64", DataType::UInt64),
        ("float", DataType::Float),
        ("double", DataType::Double),
        ("utf-8", DataType::Utf8),
        ("utf-16", DataType::Utf16),
        ("aob", DataType::Aob),
        ("regex", DataType::Regex),
        ("", DataType::Other),
        ("INT8", DataType::Other),
        ("int128", DataType::Other),
    ];
    for (name, t) in names {
        assert_eq!(DataType::from_name(name), t);
    }
}

#[test]
fn data_type_widths() {
    assert_eq!(DataType::Int8.width(), Some(1));
    assert_eq!(DataType::UInt16.width(), Some(2));
    assert_eq!(DataType::Float.width(), Some(4));
    assert_eq!(DataType::Double.width(), Some(8));
    assert_eq!(DataType::Utf8.width(), None);
    assert_eq!(DataType::Regex.width(), None);
    assert_eq!(DataType::Int64.step(), 8);
    assert_eq!(DataType::Aob.step(), 1);
    assert_eq!(DataType::Other.step(), 1);
}

#[test]
fn find_modes_and_relations_by_name() {
    assert_eq!(FindMode::from_name("exact"), FindMode::Exact);
    assert_eq!(FindMode::from_name("unknown"), FindMode::Unknown);
    assert_eq!(FindMode::from_name("Exact"), FindMode::Other);
    assert_eq!(FindMode::from_name(""), FindMode::Other);
    assert_eq!(Relation::from_name("changed"), Relation::Changed);
    assert_eq!(Relation::from_name("unchanged"), Relation::Unchanged);
    assert_eq!(Relation::from_name("increased"), Relation::Increased);
    assert_eq!(Relation::from_name("decreased"), Relation::Decreased);
    assert_eq!(Relation::from_name("exact"), Relation::Exact);
    assert_eq!(Relation::from_name("equal"), Relation::Other);
}

#[test]
fn copy_prefix_copies_in_order() {
    let all = vec![m(1, "01"), m(2, "02"), m(3, "03")];
    assert_eq!(copy_prefix(&all, 0), vec![]);
    assert_eq!(copy_prefix(&all, 2), vec![m(1, "01"), m(2, "02")]);
    assert_eq!(copy_prefix(&all, 3), all);
    assert_eq!(all[0].clone(), m(1, "01"));
    assert_eq!(MAX_RESULTS, 100_000);
}

#[test]
fn store_keeps_result_sets_by_id() {
    let mut store = ResultStore::new();
    assert!(!store.contains("a"));
    assert_eq!(store.get("a"), None);
    assert_eq!(store.count("a"), None);
    store.append("a", vec![m(1, "01")]);
    store.append("b", vec![m(2, "02")]);
    store.append("a", vec![m(3, "03"), m(4, "04")]);
    assert_eq!(store.get("a"), Some(&vec![m(1, "01"), m(3, "03"), m(4, "04")]));
    assert_eq!(store.get("b"), Some(&vec![m(2, "02")]));
    assert_eq!(store.count("a"), Some(3));
    assert!(store.contains("b"));
    assert!(!store.contains("A"));
    store.replace("a", vec![m(9, "09")]);
    assert_eq!(store.get("a"), Some(&vec![m(9, "09")]));
    assert_eq!(store.get("b"), Some(&vec![m(2, "02")]));
    store.replace("c", vec![]);
    assert_eq!(store.get("c"), Some(&vec![]));
}

#[test]
fn store_clear_empties_but_makes_no_set() {
    let mut store = ResultStore::new();
    store.clear("a");
    assert!(!store.contains("a"));
    store.replace("a", vec![m(1, "01")]);
    store.replace("b", vec![m(2, "02")]);
    store.clear("a");
    assert_eq!(store.get("a"), Some(&vec![]));
    assert_eq!(store.get("b"), Some(&vec![m(2, "02")]));
    store.append("a", vec![m(5, "05")]);
    assert_eq!(store.get("a"), Some(&vec![m(5, "05")]));
}

#[test]
fn ranges_are_cut_into_chunks() {
    assert_eq!(CHUNK_SIZE, 512 * 1024 * 1024);
    assert_eq!(count_chunks(0x1000, 0x2000), 1);
    assert_eq!(count_chunks(0, CHUNK_SIZE), 1);
    assert_eq!(count_chunks(0, CHUNK_SIZE + 1), 2);
    assert_eq!(count_chunks(7, 7), 0);
    assert_eq!(count_chunks(9, 7), 0);
    assert_eq!(count_chunks(0, usize::MAX), usize::MAX / CHUNK_SIZE + 1);
    let end = 0x1000 + 2 * CHUNK_SIZE + 5;
    assert_eq!(count_chunks(0x1000, end), 3);
    assert_eq!(nth_chunk(0x1000, end, 0), Chunk { start: 0x1000, len: CHUNK_SIZE });
    assert_eq!(nth_chunk(0x1000, end, 1), Chunk { start: 0x1000 + CHUNK_SIZE, len: CHUNK_SIZE });
    assert_eq!(nth_chunk(0x1000, end, 2), Chunk { start: 0x1000 + 2 * CHUNK_SIZE, len: 5 });
    let last = count_chunks(0, usize::MAX) - 1;
    let chunk = nth_chunk(0, usize::MAX, last);
    assert_eq!(chunk.start + chunk.len, usize::MAX);
}

#[test]
fn chunks_are_planned_range_after_range() {
    let plan = plan_chunks(&vec![(0x1000, 0x2000), (5, 5), (0, CHUNK_SIZE + 2), (9, 3), (10, 11)]);
    assert_eq!(
        plan,
        vec![
            Chunk { start: 0x1000, len: 0x1000 },
            Chunk { start: 0, len: CHUNK_SIZE },
            Chunk { start: CHUNK_SIZE, len: 2 },
            Chunk { start: 10, len: 1 },
        ]
    );
    assert_eq!(plan_chunks(&vec![]), vec![]);
}

#[test]
fn target_context_guards_requests() {
    let mut context = TargetContext::new();
    assert_eq!(context.pid, None);
    assert_eq!(context.require(), Err(ApiError::NotAttached));
    open_process_handler(&mut context, OpenProcess { pid: 1234 });
    assert_eq!(context.pid, Some(1234));
    assert_eq!(context.require(), Ok(1234));
    open_process_handler(&mut context, OpenProcess { pid: 99 });
    assert_eq!(context.require(), Ok(99));
    context.attach(-1);
    assert_eq!(context.pid, Some(-1));
}

#[test]
fn single_read_answers_bytes_or_nothing() {
    let mut context = TargetContext::new();
    assert_eq!(read_memory_handler(&context, Some(vec![1, 2])), Err(ApiError::NotAttached));
    assert_eq!(read_memory_handler(&context, None), Err(ApiError::NotAttached));
    context.attach(5);
    assert_eq!(read_memory_handler(&context, Some(vec![1, 2])), Ok(vec![1, 2]));
    assert_eq!(read_memory_handler(&context, None), Ok(vec![]));
}

#[test]
fn write_answers_done_or_failure() {
    let mut context = TargetContext::new();
    assert_eq!(write_memory_handler(&context, true), Err(ApiError::NotAttached));
    context.attach(5);
    assert_eq!(write_memory_handler(&context, true), Ok(()));
    assert_eq!(write_memory_handler(&context, false), Err(ApiError::WriteFailure));
}

#[test]
fn error_messages() {
    assert_eq!(ApiError::NotAttached.message(), "Pid not set");
    assert_eq!(ApiError::UnknownScanId.message(), "Scanid not found");
    assert_eq!(ApiError::InvalidPattern.message(), "Invalid hex pattern");
    assert_eq!(ApiError::WriteFailure.message(), "WriteProcessMemory error");
    assert_eq!(ApiError::PackingFailure.message(), "Compression failed");
}

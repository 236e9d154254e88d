use memscan::batch::{
    decode_batch, encode_read, failure_record, parse_records, read_memory_multiple_handler,
    success_record,
};
use memscan::target::{ApiError, TargetContext};

fn attached() -> TargetContext {
    let mut context = TargetContext::new();
    context.attach(1);
    context
}

#[test]
fn failure_record_is_a_zero_flag() {
    assert_eq!(failure_record(), vec![0, 0, 0, 0]);
    assert_eq!(encode_read(None), Ok(vec![0, 0, 0, 0]));
}

#[test]
fn success_record_frames_the_block() {
    assert_eq!(success_record(&[0xaa, 0xbb, 0xcc]), Some(vec![1, 0, 0, 0, 3, 0, 0, 0, 0xaa, 0xbb, 0xcc]));
    assert_eq!(success_record(&[]), Some(vec![1, 0, 0, 0, 0, 0, 0, 0]));
    let block = vec![7u8; 0x0102];
    let record = success_record(&block).unwrap();
    assert_eq!(record[..8], [1, 0, 0, 0, 0x02, 0x01, 0, 0]);
    assert_eq!(record[8..], block[..]);
}

#[test]
fn encoded_read_holds_a_block_that_unpacks_to_the_bytes() {
    let data: Vec<u8> = (0..2000u32).map(|i| (i % 7) as u8).collect();
    let record = encode_read(Some(&data)).unwrap();
    assert_eq!(record[..4], [1, 0, 0, 0]);
    let length = u32::from_le_bytes(record[4..8].try_into().unwrap()) as usize;
    assert_eq!(record.len(), 8 + length);
    // The block starts with the length of the bytes and is shorter than they are.
    assert_eq!(record[8..12], (data.len() as u32).to_le_bytes());
    assert!(length < data.len());
    assert_eq!(lz4::block::decompress(&record[8..], None).unwrap(), data);
    assert_ne!(record[8..], data[..]);
}

#[test]
fn batch_round_trip_with_mixed_outcomes() {
    let context = attached();
    let outcomes: Vec<Option<Vec<u8>>> = vec![
        Some(vec![1, 2, 3, 4]),
        None,
        Some(vec![]),
        Some(vec![0u8; 5000]),
        None,
        None,
        Some((0..=255u8).collect()),
    ];
    let buf = read_memory_multiple_handler(&context, &outcomes).unwrap();
    assert_eq!(decode_batch(&buf), Some(outcomes.clone()));
    let blocks = parse_records(&buf).unwrap();
    assert_eq!(blocks.len(), outcomes.len());
    for (block, outcome) in blocks.iter().zip(outcomes.iter()) {
        assert_eq!(block.is_some(), outcome.is_some());
        if let (Some(block), Some(data)) = (block, outcome) {
            assert_eq!(&lz4::block::decompress(block, None).unwrap(), data);
        }
    }
}

#[test]
fn batch_of_failed_reads_is_zero_flags() {
    let context = attached();
    let buf = read_memory_multiple_handler(&context, &vec![None, None, None]).unwrap();
    assert_eq!(buf, vec![0u8; 12]);
    assert_eq!(decode_batch(&buf), Some(vec![None, None, None]));
}

#[test]
fn empty_batch_is_empty() {
    let context = attached();
    assert_eq!(read_memory_multiple_handler(&context, &vec![]), Ok(vec![]));
    assert_eq!(decode_batch(&[]), Some(vec![]));
    assert_eq!(parse_records(&[]), Some(vec![]));
}

#[test]
fn batch_without_target_is_refused() {
    let context = TargetContext::new();
    assert_eq!(
        read_memory_multiple_handler(&context, &vec![Some(vec![1])]),
        Err(ApiError::NotAttached)
    );
}

#[test]
fn records_are_parsed_in_order() {
    let buf = vec![1, 0, 0, 0, 2, 0, 0, 0, 0xaa, 0xbb, 0, 0, 0, 0, 1, 0, 0, 0, 0, 0, 0, 0];
    assert_eq!(parse_records(&buf), Some(vec![Some(vec![0xaa, 0xbb]), None, Some(vec![])]));
}

#[test]
fn malformed_batches_are_refused() {
    // A flag cut short.
    assert_eq!(parse_records(&[0, 0, 0]), None);
    // A flag that is neither 0 nor 1.
    assert_eq!(parse_records(&[2, 0, 0, 0]), None);
    assert_eq!(parse_records(&[1, 1, 0, 0, 0, 0, 0, 0]), None);
    // A length cut short.
    assert_eq!(parse_records(&[1, 0, 0, 0, 1, 0]), None);
    // A block that runs past the end.
    assert_eq!(parse_records(&[1, 0, 0, 0, 3, 0, 0, 0, 9, 9]), None);
    assert_eq!(parse_records(&[0, 0, 0, 0, 1, 0, 0, 0, 0xff, 0xff, 0xff, 0xff]), None);
    // A good record followed by a bad one.
    assert_eq!(parse_records(&[0, 0, 0, 0, 5]), None);
    assert_eq!(decode_batch(&[0, 0, 0, 0, 5]), None);
}

#[test]
fn a_block_that_does_not_unpack_refuses_the_batch() {
    // The frame is sound, the block is too short to hold its own length.
    let buf = vec![1, 0, 0, 0, 2, 0, 0, 0, 0xaa, 0xbb];
    assert_eq!(parse_records(&buf), Some(vec![Some(vec![0xaa, 0xbb])]));
    assert_eq!(decode_batch(&buf), None);
}

#[test]
fn bytes_that_the_compressor_takes_always_have_a_record() {
    let context = attached();
    let samples: Vec<Vec<u8>> = vec![
        vec![],
        vec![0],
        (0..=255u8).collect(),
        (0..100_000u32).map(|i| (i.wrapping_mul(2654435761) >> 24) as u8).collect(),
        vec![0xab; 1 << 20],
    ];
    for data in samples {
        let record = encode_read(Some(&data)).unwrap();
        let block = &record[8..];
        assert_eq!(record[..4], [1, 0, 0, 0]);
        assert_eq!(u32::from_le_bytes(record[4..8].try_into().unwrap()) as usize, block.len());
        assert!(block.len() <= data.len() + data.len() / 255 + 20);
        assert_eq!(lz4::block::decompress(block, None).unwrap(), data);
        let batch = read_memory_multiple_handler(&context, &vec![None, Some(data.clone()), None]).unwrap();
        assert_eq!(batch[..4], [0, 0, 0, 0]);
        assert_eq!(batch[4..4 + record.len()], record[..]);
        assert_eq!(batch[4 + record.len()..], [0, 0, 0, 0]);
        assert_eq!(decode_batch(&batch), Some(vec![None, Some(data), None]));
    }
}

#[test]
fn bytes_that_the_compressor_refuses_fail_the_batch() {
    // One byte more than the compressor takes; the buffer is never touched.
    let huge = vec![0u8; 0x7E00_0001];
    assert_eq!(encode_read(Some(&huge)), Err(ApiError::PackingFailure));
    let context = attached();
    assert_eq!(
        read_memory_multiple_handler(&context, &vec![None, Some(huge)]),
        Err(ApiError::PackingFailure)
    );
}

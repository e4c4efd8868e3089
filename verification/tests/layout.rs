use fence::layout::{
    MetricsBlock, PoolGeometry, RecordMeta, CACHELINE, HEADER_SIZE, RECORD_META_SIZE, REC_CHECKSUM,
    REC_DATA_LEN, REC_INDEX, REC_STATE, REC_TERM, REC_WRITER_ID,
};
use std::mem::size_of;

#[test]
fn record_meta_size_is_64() {
    assert_eq!(size_of::<RecordMeta>(), RECORD_META_SIZE);
    assert_eq!(sample_meta().to_bytes().len(), RECORD_META_SIZE);
}

fn sample_meta() -> RecordMeta {
    RecordMeta {
        state: 0x11,
        _pad1: [0; 7],
        term: 0x2222_2222_2222_2222,
        index: 0x3333_3333_3333_3333,
        writer_id: 0x4444_4444_4444_4444,
        data_len: 0x5555_5555,
        _pad2: [0; 4],
        checksum: 0x6666_6666_6666_6666,
        _pad3: [0; 16],
    }
}

/// Where a run of `len` bytes `b` starts.
fn offset_of_run(bytes: &[u8], b: u8, len: usize) -> usize {
    let start = bytes.iter().position(|x| *x == b).unwrap();
    assert!(bytes[start..start + len].iter().all(|x| *x == b));
    assert_eq!(bytes.iter().filter(|x| **x == b).count(), len);
    start
}

#[test]
fn record_meta_offsets_match_constants() {
    let bytes = sample_meta().to_bytes();
    assert_eq!(offset_of_run(&bytes, 0x11, 1), REC_STATE);
    assert_eq!(offset_of_run(&bytes, 0x22, 8), REC_TERM);
    assert_eq!(offset_of_run(&bytes, 0x33, 8), REC_INDEX);
    assert_eq!(offset_of_run(&bytes, 0x44, 8), REC_WRITER_ID);
    assert_eq!(offset_of_run(&bytes, 0x55, 4), REC_DATA_LEN);
    assert_eq!(offset_of_run(&bytes, 0x66, 8), REC_CHECKSUM);
}

#[test]
fn metrics_block_size_is_64() {
    assert_eq!(size_of::<MetricsBlock>(), CACHELINE);
}

#[test]
fn geometry_record_offset() {
    let g = PoolGeometry::new(1024, 192, 4);
    // record_size = 64 + 192 = 256
    assert_eq!(g.record_size, 256);
    // slot 0 starts right after header
    assert_eq!(g.record_offset(0), HEADER_SIZE);
    // slot 1 starts at 64 + 256 = 320
    assert_eq!(g.record_offset(1), HEADER_SIZE + 256);
}

#[test]
fn geometry_payload_offset() {
    let g = PoolGeometry::new(1024, 192, 4);
    // payload of slot 0 = HEADER_SIZE + RECORD_META_SIZE = 128
    assert_eq!(g.payload_offset(0), HEADER_SIZE + RECORD_META_SIZE);
}

#[test]
fn geometry_metrics_offset() {
    let g = PoolGeometry::new(1024, 192, 4);
    // records end at: 64 + 1024 * 256 = 262208
    let records_end = HEADER_SIZE + 1024 * 256;
    assert_eq!(g.metrics_offset(0), records_end);
    assert_eq!(g.metrics_offset(1), records_end + CACHELINE);
    assert_eq!(g.metrics_offset(3), records_end + 3 * CACHELINE);
}

#[test]
fn geometry_total_size() {
    let g = PoolGeometry::new(1024, 192, 4);
    // header(64) + records(1024*256) + metrics(4*64)
    let expected = 64u64 + (1024 * 256) + (4 * 64);
    assert_eq!(g.total_size, expected);
}

#[test]
fn geometry_payload_max() {
    assert_eq!(PoolGeometry::new(8, 192, 4).payload_max(), 192);
}

#[test]
fn records_do_not_overlap() {
    let g = PoolGeometry::new(8, 40, 2);
    for slot in 0..7u32 {
        assert_eq!(g.record_offset(slot) + 104, g.record_offset(slot + 1));
        assert_eq!(g.record_offset(slot) % 8, 0);
    }
    assert_eq!(g.record_offset(8), g.metrics_offset(0));
    assert_eq!(g.metrics_offset(2) as u64, g.total_size);
}

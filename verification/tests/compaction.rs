use fence::backend::{MemOrder, MemoryBackend};
use fence::checksum;
use fence::compaction::trim;
use fence::engine::FenceRuntime;
use fence::error::FenceError;
use fence::heap_backend::HeapBackend;
use fence::layout::{
    PoolGeometry, HDR_CAPACITY, HDR_COMMITTED_TAIL, HDR_EPOCH, HDR_MAGIC, HDR_MAX_HOSTS,
    HDR_RECORD_SIZE, HDR_RESERVE_TAIL, MAGIC, RECORD_META_SIZE, REC_CHECKSUM, REC_DATA_LEN,
    REC_INDEX, REC_STATE, REC_TERM, STATE_ABANDONED, STATE_COMMITTED, STATE_WRITING,
};
use fence::temp_pool::TempPoolBuilder;

fn setup_pool(capacity: u32, payload_size: u32) -> (HeapBackend, PoolGeometry) {
    let geometry = PoolGeometry::new(capacity, payload_size, 2);
    let mut backend = HeapBackend::new(geometry.total_size as usize);
    backend.store_u64(HDR_MAGIC, MAGIC, MemOrder::Relaxed);
    backend.store_u64(HDR_CAPACITY, capacity as u64, MemOrder::Relaxed);
    backend.store_u64(HDR_RECORD_SIZE, geometry.record_size as u64, MemOrder::Relaxed);
    backend.store_u64(HDR_MAX_HOSTS, 2, MemOrder::Relaxed);
    backend.store_u64(HDR_COMMITTED_TAIL, 0, MemOrder::Relaxed);
    backend.store_u64(HDR_RESERVE_TAIL, 0, MemOrder::Relaxed);
    backend.store_u64(HDR_EPOCH, 1, MemOrder::Relaxed);
    (backend, geometry)
}

fn write_committed_record(
    backend: &mut HeapBackend,
    geometry: &PoolGeometry,
    slot: u32,
    payload: &[u8],
) {
    let rec_offset = geometry.record_offset(slot);
    let term = 1u64;
    let index = slot as u64 + 1;
    backend.store_u64(rec_offset + REC_TERM, term, MemOrder::Relaxed);
    backend.store_u64(rec_offset + REC_INDEX, index, MemOrder::Relaxed);
    let data_len_bytes = (payload.len() as u32).to_le_bytes();
    backend.write(rec_offset + REC_DATA_LEN, &data_len_bytes);
    if !payload.is_empty() {
        backend.write(rec_offset + RECORD_META_SIZE, payload);
    }
    let crc = checksum::compute(term, index, payload);
    backend.store_u64(rec_offset + REC_CHECKSUM, crc, MemOrder::Relaxed);
    backend.store_u8(rec_offset + REC_STATE, STATE_COMMITTED, MemOrder::Release);
}

fn temp_pool(builder: TempPoolBuilder) -> FenceRuntime<HeapBackend> {
    let config = builder.config("unused".to_string());
    let geometry = PoolGeometry::new(config.capacity, config.payload_size, config.max_hosts);
    FenceRuntime::open(config, HeapBackend::new(geometry.total_size as usize)).unwrap()
}

#[test]
fn compaction_trim_zero_is_noop() {
    let (mut backend, geometry) = setup_pool(8, 64);
    let result = trim(&mut backend, &geometry, 0).unwrap();
    assert_eq!(result.trimmed_count, 0);

    let mut rt = temp_pool(TempPoolBuilder::default());
    rt.append(1, b"data").unwrap();

    let result = rt.trim(0).unwrap();
    assert_eq!(result.trimmed_count, 0);

    // Record still readable.
    assert!(rt.read(1).unwrap().is_some());
}

#[test]
fn trim_committed_records() {
    let (mut backend, geometry) = setup_pool(8, 64);

    backend.store_u64(HDR_RESERVE_TAIL, 4, MemOrder::Relaxed);
    backend.store_u64(HDR_COMMITTED_TAIL, 4, MemOrder::Relaxed);
    for slot in 0..4u32 {
        write_committed_record(&mut backend, &geometry, slot, b"data");
    }

    // Trim first 2 records.
    let result = trim(&mut backend, &geometry, 2).unwrap();
    assert_eq!(result.trimmed_count, 2);

    // Verify trimmed slots are ABANDONED.
    for slot in 0..2u32 {
        let state = backend.load_u8(geometry.record_offset(slot) + REC_STATE, MemOrder::Relaxed);
        assert_eq!(state, STATE_ABANDONED);
    }

    // Verify remaining slots are still COMMITTED.
    for slot in 2..4u32 {
        let state = backend.load_u8(geometry.record_offset(slot) + REC_STATE, MemOrder::Relaxed);
        assert_eq!(state, STATE_COMMITTED);
    }
}

#[test]
fn trim_beyond_committed_errors() {
    let (mut backend, geometry) = setup_pool(8, 64);

    backend.store_u64(HDR_COMMITTED_TAIL, 3, MemOrder::Relaxed);

    let result = trim(&mut backend, &geometry, 5);
    assert!(matches!(
        result,
        Err(FenceError::TrimBeyondCommitted { requested: 5, committed_tail: 3 })
    ));
}

#[test]
fn trim_skips_already_abandoned() {
    let (mut backend, geometry) = setup_pool(8, 64);

    backend.store_u64(HDR_RESERVE_TAIL, 3, MemOrder::Relaxed);
    backend.store_u64(HDR_COMMITTED_TAIL, 3, MemOrder::Relaxed);
    write_committed_record(&mut backend, &geometry, 0, b"a");
    // Slot 1 is already ABANDONED.
    backend.store_u8(geometry.record_offset(1) + REC_STATE, STATE_ABANDONED, MemOrder::Relaxed);
    write_committed_record(&mut backend, &geometry, 2, b"c");

    let result = trim(&mut backend, &geometry, 3).unwrap();
    // Only slots 0 and 2 were COMMITTED; slot 1 was already ABANDONED.
    assert_eq!(result.trimmed_count, 2);
}

#[test]
fn trim_leaves_unfinished_records_alone() {
    let (mut backend, geometry) = setup_pool(8, 64);
    backend.store_u64(HDR_COMMITTED_TAIL, 1, MemOrder::Relaxed);
    backend.store_u8(geometry.record_offset(0) + REC_STATE, STATE_WRITING, MemOrder::Relaxed);
    assert_eq!(trim(&mut backend, &geometry, 1).unwrap().trimmed_count, 0);
    let state = backend.load_u8(geometry.record_offset(0) + REC_STATE, MemOrder::Relaxed);
    assert_eq!(state, STATE_WRITING);
}

#[test]
fn trim_frees_records_for_read() {
    let mut rt = temp_pool(TempPoolBuilder::default().capacity(32));

    // Write 10 records.
    for i in 0..10 {
        rt.append(1, format!("msg-{i}").as_bytes()).unwrap();
    }

    // Trim first 5.
    let result = rt.trim(5).unwrap();
    assert_eq!(result.trimmed_count, 5);

    // Records 1-5 should be None (abandoned).
    for idx in 1..=5 {
        assert_eq!(rt.read(idx).unwrap(), None, "record {idx} should be trimmed");
    }

    // Records 6-10 should still be readable.
    for idx in 6..=10 {
        let rec = rt.read(idx).unwrap();
        assert!(rec.is_some(), "record {idx} should still exist");
    }
}

#[test]
fn trim_then_continue_writing() {
    let mut rt = temp_pool(TempPoolBuilder::default().capacity(16));

    // Fill partially.
    for _ in 0..8 {
        rt.append(1, b"data").unwrap();
    }

    // Trim first 4.
    rt.trim(4).unwrap();

    // Continue writing (slots 8-15 should work).
    for _ in 0..8 {
        rt.append(1, b"more").unwrap();
    }

    // Verify: 16 total slots used, first 4 trimmed.
    assert_eq!(rt.committed_tail(), 16);
    assert_eq!(rt.read(1).unwrap(), None); // trimmed
    assert!(rt.read(5).unwrap().is_some()); // still valid
    assert!(rt.read(16).unwrap().is_some()); // last write
}

#[test]
fn trim_idempotent() {
    let mut rt = temp_pool(TempPoolBuilder::default().capacity(16));

    for _ in 0..5 {
        rt.append(1, b"x").unwrap();
    }

    let r1 = rt.trim(3).unwrap();
    assert_eq!(r1.trimmed_count, 3);

    // Trim same range again: already abandoned, so 0 new trims.
    let r2 = rt.trim(3).unwrap();
    assert_eq!(r2.trimmed_count, 0);
}

#[test]
fn compaction_trim_beyond_committed_fails() {
    let mut rt = temp_pool(TempPoolBuilder::default());
    rt.append(1, b"one").unwrap();
    rt.append(1, b"two").unwrap();

    let result = rt.trim(10);
    assert!(result.is_err());
}

#[test]
fn read_range_skips_trimmed() {
    let mut rt = temp_pool(TempPoolBuilder::default().capacity(16));

    for i in 0..8 {
        rt.append(1, format!("r{i}").as_bytes()).unwrap();
    }

    // Trim records 1-3.
    rt.trim(3).unwrap();

    // read_range should skip trimmed records.
    let records = rt.read_range(1, 9).unwrap();
    assert_eq!(records.len(), 5); // Only records 4-8 returned.
    assert_eq!(records[0].index, 4);
}

use fence::backend::{MemOrder, MemoryBackend};
use fence::engine::{geometry_from_header, FenceRuntime, PoolConfig};
use fence::error::FenceError;
use fence::heap_backend::HeapBackend;
use fence::layout::{
    PoolGeometry, HDR_CAPACITY, HDR_COMMITTED_TAIL, HDR_EPOCH, HDR_MAGIC, HDR_MAX_HOSTS,
    HDR_RECORD_SIZE, HDR_RESERVE_TAIL, MAGIC, REC_CHECKSUM, REC_PAYLOAD, REC_STATE, STATE_WRITING,
};

fn config(capacity: u32, payload_size: u32, host_id: u16, create: bool) -> PoolConfig {
    PoolConfig {
        path: "unused".to_string(),
        capacity,
        payload_size,
        max_hosts: 4,
        host_id,
        create,
    }
}

fn create_runtime(capacity: u32, payload_size: u32) -> FenceRuntime<HeapBackend> {
    let geometry = PoolGeometry::new(capacity, payload_size, 4);
    let backend = HeapBackend::new(geometry.total_size as usize);
    FenceRuntime::open(config(capacity, payload_size, 0, true), backend).unwrap()
}

#[test]
fn create_pool_sets_magic() {
    let runtime = create_runtime(16, 64);
    let mut backend = runtime.into_backend();
    let magic = backend.load_u64(HDR_MAGIC, MemOrder::Relaxed);
    assert_eq!(magic, MAGIC);
}

#[test]
fn create_pool_writes_header() {
    let mut backend = create_runtime(16, 64).into_backend();
    assert_eq!(backend.load_u64(HDR_CAPACITY, MemOrder::Relaxed), 16);
    assert_eq!(backend.load_u64(HDR_RECORD_SIZE, MemOrder::Relaxed), 128);
    assert_eq!(backend.load_u64(HDR_MAX_HOSTS, MemOrder::Relaxed), 4);
    assert_eq!(backend.load_u64(HDR_COMMITTED_TAIL, MemOrder::Relaxed), 0);
    assert_eq!(backend.load_u64(HDR_RESERVE_TAIL, MemOrder::Relaxed), 0);
    assert_eq!(backend.load_u64(HDR_EPOCH, MemOrder::Relaxed), 1);
}

#[test]
fn append_single_record_roundtrip() {
    let mut runtime = create_runtime(16, 128);
    let index = runtime.append(1, b"hello, fence!").unwrap();
    assert_eq!(index, 1);

    let record = runtime.read(1).unwrap().unwrap();
    assert_eq!(record.index, 1);
    assert_eq!(record.term, 1);
    assert_eq!(record.writer_id, 0);
    assert_eq!(record.data, b"hello, fence!");
}

#[test]
fn append_multiple_records() {
    let mut runtime = create_runtime(16, 64);

    let idx1 = runtime.append(1, b"first").unwrap();
    let idx2 = runtime.append(1, b"second").unwrap();
    let idx3 = runtime.append(2, b"third").unwrap();

    assert_eq!(idx1, 1);
    assert_eq!(idx2, 2);
    assert_eq!(idx3, 3);

    let r1 = runtime.read(1).unwrap().unwrap();
    let r2 = runtime.read(2).unwrap().unwrap();
    let r3 = runtime.read(3).unwrap().unwrap();

    assert_eq!(r1.data, b"first");
    assert_eq!(r2.data, b"second");
    assert_eq!(r3.data, b"third");
    assert_eq!(r3.term, 2);
}

#[test]
fn append_pool_full() {
    let mut runtime = create_runtime(2, 64);

    runtime.append(1, b"one").unwrap();
    runtime.append(1, b"two").unwrap();
    let result = runtime.append(1, b"three");

    assert!(matches!(result, Err(FenceError::PoolFull { capacity: 2, .. })));
}

#[test]
fn full_pool_takes_reservation_back() {
    let mut runtime = create_runtime(1, 64);
    runtime.append(1, b"one").unwrap();
    for _ in 0..3 {
        let result = runtime.append(1, b"more");
        assert_eq!(result, Err(FenceError::PoolFull { capacity: 1, requested_slot: 1 }));
        assert_eq!(runtime.reserve_tail(), 1);
    }
    assert_eq!(runtime.stats().appends_failed, 3);
    assert_eq!(runtime.stats().appends_total, 1);
}

#[test]
fn append_payload_too_large() {
    let mut runtime = create_runtime(16, 32);
    let big_payload = vec![0u8; 64];
    let result = runtime.append(1, &big_payload);

    assert!(matches!(result, Err(FenceError::PayloadTooLarge { max: 32, got: 64 })));
}

#[test]
fn too_large_payload_counts_as_failed() {
    let mut runtime = create_runtime(16, 32);
    assert!(runtime.append(1, &[0u8; 33]).is_err());
    assert_eq!(runtime.stats().appends_failed, 1);
    assert_eq!(runtime.reserve_tail(), 0);
}

#[test]
fn read_out_of_bounds() {
    let mut runtime = create_runtime(16, 64);
    runtime.append(1, b"data").unwrap();

    let result = runtime.read(5);
    assert!(matches!(result, Err(FenceError::IndexOutOfBounds { .. })));
}

#[test]
fn read_index_zero_errors() {
    let mut runtime = create_runtime(16, 64);
    let result = runtime.read(0);
    assert!(matches!(result, Err(FenceError::IndexOutOfBounds { .. })));
}

#[test]
fn committed_tail_advances() {
    let mut runtime = create_runtime(16, 64);
    assert_eq!(runtime.committed_tail(), 0);

    runtime.append(1, b"a").unwrap();
    assert_eq!(runtime.committed_tail(), 1);

    runtime.append(1, b"b").unwrap();
    assert_eq!(runtime.committed_tail(), 2);
}

#[test]
fn read_range_works() {
    let mut runtime = create_runtime(16, 64);
    runtime.append(1, b"one").unwrap();
    runtime.append(1, b"two").unwrap();
    runtime.append(1, b"three").unwrap();

    let records = runtime.read_range(1, 4).unwrap();
    assert_eq!(records.len(), 3);
    assert_eq!(records[0].data, b"one");
    assert_eq!(records[1].data, b"two");
    assert_eq!(records[2].data, b"three");
}

#[test]
fn read_range_stops_at_error() {
    let mut runtime = create_runtime(16, 64);
    runtime.append(1, b"one").unwrap();
    let result = runtime.read_range(1, 4);
    assert_eq!(result, Err(FenceError::IndexOutOfBounds { index: 2, committed_tail: 1 }));
    // Only the record before the error was read.
    assert_eq!(runtime.stats().reads_total, 1);
    assert_eq!(runtime.read_range(7, 7), Ok(Vec::new()));
}

#[test]
fn trim_marks_records_abandoned() {
    let mut runtime = create_runtime(16, 64);
    runtime.append(1, b"a").unwrap();
    runtime.append(1, b"b").unwrap();
    runtime.append(1, b"c").unwrap();

    let result = runtime.trim(2).unwrap();
    assert_eq!(result.trimmed_count, 2);

    // Records 1 and 2 should now be None (abandoned).
    assert_eq!(runtime.read(1).unwrap(), None);
    assert_eq!(runtime.read(2).unwrap(), None);
    // Record 3 should still be readable.
    assert!(runtime.read(3).unwrap().is_some());
}

#[test]
fn engine_trim_beyond_committed_fails() {
    let mut runtime = create_runtime(16, 64);
    runtime.append(1, b"a").unwrap();

    let result = runtime.trim(5);
    assert!(matches!(result, Err(FenceError::TrimBeyondCommitted { .. })));
}

#[test]
fn recover_on_clean_pool() {
    let mut runtime = create_runtime(16, 64);
    runtime.append(1, b"a").unwrap();
    runtime.append(1, b"b").unwrap();

    let report = runtime.recover();
    assert_eq!(report.abandoned_count, 0);
    assert_eq!(report.committed_tail, 2);
}

#[test]
fn stats_after_operations() {
    let mut runtime = create_runtime(16, 64);
    runtime.append(1, b"hello").unwrap();
    runtime.append(1, b"world").unwrap();
    runtime.read(1).unwrap();

    let stats = runtime.stats();
    assert_eq!(stats.appends_total, 2);
    assert_eq!(stats.bytes_written, 10); // "hello" + "world"
    assert_eq!(stats.reads_total, 1);
}

#[test]
fn open_existing_pool() {
    // Create pool and write data.
    let backend = {
        let mut runtime = create_runtime(16, 64);
        runtime.append(1, b"persistent").unwrap();
        runtime.into_backend()
    };

    // Reopen and verify data persists.
    let mut runtime = FenceRuntime::open(config(16, 64, 1, false), backend).unwrap();
    let record = runtime.read(1).unwrap().unwrap();
    assert_eq!(record.data, b"persistent");
    assert_eq!(runtime.host_id(), 1);
}

#[test]
fn open_existing_pool_takes_dimensions_from_header() {
    let backend = {
        let mut runtime = create_runtime(16, 64);
        runtime.append(1, b"kept").unwrap();
        runtime.into_backend()
    };
    // The configuration asks for fewer and smaller slots than the pool has.
    let mut runtime = FenceRuntime::open(config(4, 32, 0, false), backend).unwrap();
    assert_eq!(runtime.geometry().capacity, 16);
    assert_eq!(runtime.geometry().payload_size, 64);
    assert_eq!(runtime.read(1).unwrap().unwrap().data, b"kept");
}

#[test]
fn open_invalid_magic_errors() {
    let backend = HeapBackend::from_bytes(vec![0u8; 4096]);
    let result = FenceRuntime::open(config(16, 64, 0, false), backend);
    assert!(matches!(result, Err(FenceError::InvalidMagic { .. })));
}

#[test]
fn open_passes_over_a_header_that_does_not_fit() {
    let damages = [(HDR_CAPACITY, 1000), (HDR_RECORD_SIZE, 97), (HDR_MAX_HOSTS, 0)];
    for (word, value) in damages {
        let mut runtime = create_runtime(16, 64);
        runtime.append(1, b"kept").unwrap();
        let mut backend = runtime.into_backend();
        backend.store_u64(word, value, MemOrder::Relaxed);
        let mut runtime = FenceRuntime::open(config(16, 64, 0, false), backend).unwrap();
        assert_eq!(*runtime.geometry(), PoolGeometry::new(16, 64, 4));
        assert_eq!(runtime.read(1).unwrap().unwrap().data, b"kept");
    }
    // A pool that states fewer hosts than this one is opened as configured.
    let mut backend = create_runtime(16, 64).into_backend();
    backend.store_u64(HDR_MAX_HOSTS, 2, MemOrder::Relaxed);
    let runtime = FenceRuntime::open(config(16, 64, 3, false), backend).unwrap();
    assert_eq!(runtime.geometry().max_hosts, 4);
}

#[test]
fn geometry_from_header_checks() {
    let g = geometry_from_header(16, 128, 4, 4096).unwrap();
    assert_eq!(g, PoolGeometry::new(16, 64, 4));
    assert_eq!(geometry_from_header(0, 128, 4, 4096), None);
    assert_eq!(geometry_from_header(16, 64, 4, 4096), None);
    assert_eq!(geometry_from_header(16, 127, 4, 4096), None);
    assert_eq!(geometry_from_header(16, 128, 0, 4096), None);
    assert_eq!(geometry_from_header(16, 128, 70000, 4096), None);
    assert_eq!(geometry_from_header(16, 128, 4, 2367), None);
    assert!(geometry_from_header(16, 128, 4, 2368).is_some());
    assert_eq!(geometry_from_header(u64::MAX, u64::MAX, u64::MAX, 4096), None);
}

#[test]
fn engine_empty_payload_roundtrip() {
    let mut runtime = create_runtime(16, 64);
    let idx = runtime.append(1, b"").unwrap();
    let record = runtime.read(idx).unwrap().unwrap();
    assert_eq!(record.data, b"");
}

#[test]
fn geometry_accessible() {
    let runtime = create_runtime(32, 128);
    assert_eq!(runtime.geometry().capacity, 32);
    assert_eq!(runtime.geometry().payload_size, 128);
    assert_eq!(runtime.geometry().max_hosts, 4);
}

#[test]
fn damaged_record_is_detected_and_counted() {
    let mut runtime = create_runtime(16, 64);
    runtime.append(1, b"precious").unwrap();
    let at = runtime.geometry().record_offset(0);
    let mut backend = runtime.into_backend();
    backend.store_u8(at + REC_PAYLOAD, b'P', MemOrder::Relaxed);

    let mut runtime = FenceRuntime::open(config(16, 64, 0, false), backend).unwrap();
    assert_eq!(runtime.read(1), Err(FenceError::ChecksumMismatch { index: 1 }));
    assert_eq!(runtime.stats().checksum_failures, 1);
    assert_eq!(runtime.stats().reads_total, 0);

    // Recovery abandons it, and counts that.
    let report = runtime.recover();
    assert_eq!(report.abandoned_count, 1);
    assert_eq!(runtime.read(1), Ok(None));
    assert_eq!(runtime.stats().recovery_runs, 1);
    assert_eq!(runtime.stats().abandoned_found, 1);
}

#[test]
fn wrong_stored_checksum_is_detected() {
    let mut runtime = create_runtime(16, 64);
    runtime.append(1, b"x").unwrap();
    let at = runtime.geometry().record_offset(0);
    let mut backend = runtime.into_backend();
    let crc = backend.load_u64(at + REC_CHECKSUM, MemOrder::Relaxed);
    backend.store_u64(at + REC_CHECKSUM, crc ^ 1, MemOrder::Relaxed);
    let mut runtime = FenceRuntime::open(config(16, 64, 0, false), backend).unwrap();
    assert_eq!(runtime.read(1), Err(FenceError::ChecksumMismatch { index: 1 }));
}

#[test]
fn unfinished_record_below_tail_reads_as_missing() {
    let mut runtime = create_runtime(16, 64);
    runtime.append(1, b"x").unwrap();
    let at = runtime.geometry().record_offset(0);
    let mut backend = runtime.into_backend();
    backend.store_u8(at + REC_STATE, STATE_WRITING, MemOrder::Relaxed);
    let mut runtime = FenceRuntime::open(config(16, 64, 0, false), backend).unwrap();
    assert_eq!(runtime.read(1), Ok(None));
    assert_eq!(runtime.stats().reads_total, 0);
}

/// A committed tail past the capacity, as a damaged header may have it.
fn with_tail(appends: usize, tail: u64) -> FenceRuntime<HeapBackend> {
    let mut runtime = create_runtime(16, 64);
    for _ in 0..appends {
        runtime.append(1, b"x").unwrap();
    }
    let mut backend = runtime.into_backend();
    backend.store_u64(HDR_COMMITTED_TAIL, tail, MemOrder::Relaxed);
    FenceRuntime::open(config(16, 64, 0, false), backend).unwrap()
}

#[test]
fn tail_past_the_capacity_makes_reads_go_behind_the_records() {
    // The slot behind the last one is the metrics of the first host: its state byte is the
    // low byte of the number of appends.
    assert_eq!(with_tail(1, 20).read(17), Ok(None));
    assert_eq!(with_tail(2, 20).read(17), Err(FenceError::ChecksumMismatch { index: 17 }));
    let past = FenceError::IndexOutOfBounds { index: 19, committed_tail: 20 };
    assert_eq!(with_tail(2, 20).read(19), Err(past));
    let beyond = FenceError::IndexOutOfBounds { index: 21, committed_tail: 20 };
    assert_eq!(with_tail(2, 20).read(21), Err(beyond));
    // Slot numbers have 32 bits.
    let mut runtime = with_tail(1, u64::MAX);
    assert_eq!(runtime.read((1 << 32) + 1).unwrap().unwrap().index, 1);
}

#[test]
fn tail_past_the_capacity_makes_trims_go_behind_the_records() {
    let mut runtime = with_tail(2, 20);
    assert_eq!(runtime.trim(17).unwrap().trimmed_count, 3);
    assert_eq!(runtime.stats().appends_total, 3);
    let refused = FenceError::TrimBeyondCommitted { requested: 19, committed_tail: 20 };
    assert_eq!(runtime.trim(19), Err(refused));
    // Slot numbers have 32 bits.
    let mut runtime = with_tail(1, u64::MAX);
    assert_eq!(runtime.trim(1 << 32).unwrap().trimmed_count, 0);
    assert_eq!(runtime.trim((1 << 32) + 1).unwrap().trimmed_count, 1);
    assert_eq!(runtime.read(1), Ok(None));
}

#[test]
fn range_read_counts_as_it_goes() {
    let mut runtime = create_runtime(16, 64);
    for _ in 0..3 {
        runtime.append(1, b"x").unwrap();
    }
    assert_eq!(runtime.read_range(1, 4).unwrap().len(), 3);
    assert_eq!(runtime.stats().reads_total, 3);
    assert!(runtime.read_range(2, 6).is_err());
    assert_eq!(runtime.stats().reads_total, 5);
}

use fence::backend::{MemOrder, MemoryBackend};
use fence::checksum;
use fence::heap_backend::HeapBackend;
use fence::layout::{
    PoolGeometry, HDR_CAPACITY, HDR_COMMITTED_TAIL, HDR_EPOCH, HDR_MAGIC, HDR_MAX_HOSTS,
    HDR_RECORD_SIZE, HDR_RESERVE_TAIL, MAGIC, RECORD_META_SIZE, REC_CHECKSUM, REC_DATA_LEN,
    REC_INDEX, REC_STATE, REC_TERM, STATE_ABANDONED, STATE_COMMITTED, STATE_FREE, STATE_WRITING,
};
use fence::recovery::{advance_committed_tail, recover, recovered_state, RecoveryReport};

fn setup_pool(capacity: u32, payload_size: u32, max_hosts: u16) -> (HeapBackend, PoolGeometry) {
    let geometry = PoolGeometry::new(capacity, payload_size, max_hosts);
    let mut backend = HeapBackend::new(geometry.total_size as usize);
    backend.store_u64(HDR_MAGIC, MAGIC, MemOrder::Relaxed);
    backend.store_u64(HDR_CAPACITY, capacity as u64, MemOrder::Relaxed);
    backend.store_u64(HDR_RECORD_SIZE, geometry.record_size as u64, MemOrder::Relaxed);
    backend.store_u64(HDR_MAX_HOSTS, max_hosts as u64, MemOrder::Relaxed);
    backend.store_u64(HDR_COMMITTED_TAIL, 0, MemOrder::Relaxed);
    backend.store_u64(HDR_RESERVE_TAIL, 0, MemOrder::Relaxed);
    backend.store_u64(HDR_EPOCH, 1, MemOrder::Relaxed);
    (backend, geometry)
}

/// Write a valid committed record at the given slot.
fn write_committed_record(
    backend: &mut HeapBackend,
    geometry: &PoolGeometry,
    slot: u32,
    term: u64,
    payload: &[u8],
) {
    let rec_offset = geometry.record_offset(slot);
    let index = slot as u64 + 1;
    backend.store_u64(rec_offset + REC_TERM, term, MemOrder::Relaxed);
    backend.store_u64(rec_offset + REC_INDEX, index, MemOrder::Relaxed);
    let data_len_bytes = (payload.len() as u32).to_le_bytes();
    backend.write(rec_offset + REC_DATA_LEN, &data_len_bytes);
    if !payload.is_empty() {
        backend.write(rec_offset + RECORD_META_SIZE, payload);
    }
    let crc = checksum::compute(term, index, payload);
    backend.store_u64(rec_offset + REC_CHECKSUM, crc, MemOrder::Relaxed);
    backend.store_u8(rec_offset + REC_STATE, STATE_COMMITTED, MemOrder::Release);
}

#[test]
fn empty_pool_recovery_is_noop() {
    let (mut backend, geometry) = setup_pool(16, 64, 2);
    let report = recover(&mut backend, &geometry);
    assert_eq!(report.abandoned_count, 0);
    assert_eq!(report.committed_tail, 0);
    assert_eq!(report.slots_scanned, 0);
}

#[test]
fn writing_state_becomes_abandoned() {
    let (mut backend, geometry) = setup_pool(16, 64, 2);

    // Simulate: reserve_tail = 2, slot 0 is WRITING, slot 1 is FREE.
    backend.store_u64(HDR_RESERVE_TAIL, 2, MemOrder::Relaxed);
    let rec0 = geometry.record_offset(0);
    backend.store_u8(rec0 + REC_STATE, STATE_WRITING, MemOrder::Relaxed);

    let report = recover(&mut backend, &geometry);
    assert_eq!(report.abandoned_count, 1);
    assert_eq!(report.slots_scanned, 2);

    // Verify slot 0 is now ABANDONED.
    let state = backend.load_u8(geometry.record_offset(0) + REC_STATE, MemOrder::Relaxed);
    assert_eq!(state, STATE_ABANDONED);
}

#[test]
fn committed_tail_advances_through_committed_slots() {
    let (mut backend, geometry) = setup_pool(16, 64, 2);

    backend.store_u64(HDR_RESERVE_TAIL, 3, MemOrder::Relaxed);
    write_committed_record(&mut backend, &geometry, 0, 1, b"slot0");
    write_committed_record(&mut backend, &geometry, 1, 1, b"slot1");
    write_committed_record(&mut backend, &geometry, 2, 1, b"slot2");

    let report = recover(&mut backend, &geometry);
    assert_eq!(report.abandoned_count, 0);
    assert_eq!(report.committed_tail, 3);
}

#[test]
fn committed_tail_stops_at_abandoned() {
    let (mut backend, geometry) = setup_pool(16, 64, 2);

    backend.store_u64(HDR_RESERVE_TAIL, 4, MemOrder::Relaxed);
    write_committed_record(&mut backend, &geometry, 0, 1, b"ok");
    // slot 1 is WRITING, will become ABANDONED
    backend.store_u8(geometry.record_offset(1) + REC_STATE, STATE_WRITING, MemOrder::Relaxed);
    write_committed_record(&mut backend, &geometry, 2, 1, b"ok2");
    write_committed_record(&mut backend, &geometry, 3, 1, b"ok3");

    let report = recover(&mut backend, &geometry);
    // Slot 1 was WRITING, so it is abandoned.
    assert_eq!(report.abandoned_count, 1);
    // committed_tail advances only through slot 0 (stops at abandoned slot 1)
    assert_eq!(report.committed_tail, 1);
}

#[test]
fn corrupted_checksum_becomes_abandoned() {
    let (mut backend, geometry) = setup_pool(16, 64, 2);

    backend.store_u64(HDR_RESERVE_TAIL, 1, MemOrder::Relaxed);
    write_committed_record(&mut backend, &geometry, 0, 1, b"data");
    // Corrupt the checksum.
    let rec0 = geometry.record_offset(0);
    backend.store_u64(rec0 + REC_CHECKSUM, 0xBADBADBAD, MemOrder::Relaxed);

    let report = recover(&mut backend, &geometry);
    assert_eq!(report.abandoned_count, 1);
    assert_eq!(report.committed_tail, 0); // Can't advance past corrupted slot 0.
}

#[test]
fn recovery_is_idempotent() {
    let (mut backend, geometry) = setup_pool(16, 64, 2);

    backend.store_u64(HDR_RESERVE_TAIL, 3, MemOrder::Relaxed);
    write_committed_record(&mut backend, &geometry, 0, 1, b"a");
    backend.store_u8(geometry.record_offset(1) + REC_STATE, STATE_WRITING, MemOrder::Relaxed);
    write_committed_record(&mut backend, &geometry, 2, 1, b"c");

    let report1 = recover(&mut backend, &geometry);
    let after1 = backend.as_bytes().to_vec();
    let report2 = recover(&mut backend, &geometry);

    // Second run should find nothing new to abandon.
    assert_eq!(report1.committed_tail, report2.committed_tail);
    assert_eq!(report2.abandoned_count, 0);
    assert_eq!(backend.as_bytes().to_vec(), after1);
}

#[test]
fn unknown_state_becomes_abandoned() {
    let (mut backend, geometry) = setup_pool(16, 64, 2);

    backend.store_u64(HDR_RESERVE_TAIL, 1, MemOrder::Relaxed);
    let rec0 = geometry.record_offset(0);
    backend.store_u8(rec0 + REC_STATE, 0xFF, MemOrder::Relaxed); // garbage state

    let report = recover(&mut backend, &geometry);
    assert_eq!(report.abandoned_count, 1);
}

#[test]
fn recovered_state_of_each_state() {
    assert_eq!(recovered_state(STATE_FREE, false), STATE_FREE);
    assert_eq!(recovered_state(STATE_WRITING, true), STATE_ABANDONED);
    assert_eq!(recovered_state(STATE_COMMITTED, true), STATE_COMMITTED);
    assert_eq!(recovered_state(STATE_COMMITTED, false), STATE_ABANDONED);
    assert_eq!(recovered_state(STATE_ABANDONED, false), STATE_ABANDONED);
    assert_eq!(recovered_state(0xFF, true), STATE_ABANDONED);
}

#[test]
fn scan_stops_at_capacity() {
    let (mut backend, geometry) = setup_pool(4, 64, 2);
    backend.store_u64(HDR_RESERVE_TAIL, 9, MemOrder::Relaxed);
    let report = recover(&mut backend, &geometry);
    assert_eq!(
        report,
        RecoveryReport { abandoned_count: 0, committed_tail: 0, slots_scanned: 4 }
    );
}

#[test]
fn advance_moves_past_committed_slots_only() {
    let (mut backend, geometry) = setup_pool(4, 64, 2);
    assert_eq!(advance_committed_tail(&mut backend, &geometry), 0);
    write_committed_record(&mut backend, &geometry, 0, 1, b"a");
    write_committed_record(&mut backend, &geometry, 2, 1, b"c");
    assert_eq!(advance_committed_tail(&mut backend, &geometry), 1);
    write_committed_record(&mut backend, &geometry, 1, 1, b"b");
    write_committed_record(&mut backend, &geometry, 3, 1, b"d");
    assert_eq!(advance_committed_tail(&mut backend, &geometry), 4);
    assert_eq!(backend.load_u64(HDR_COMMITTED_TAIL, MemOrder::Relaxed), 4);
}

#[test]
fn default_report_is_zero() {
    assert_eq!(
        RecoveryReport::default(),
        RecoveryReport { abandoned_count: 0, committed_tail: 0, slots_scanned: 0 }
    );
}

use fence::backend::{MemOrder, MemoryBackend};
use fence::heap_backend::HeapBackend;
use fence::layout::PoolGeometry;
use fence::metrics::{
    increment_abandoned_found, increment_appends, increment_appends_failed,
    increment_bytes_written, increment_checksum_failures, increment_reads,
    increment_recovery_runs, read_stats, set_abandoned_found, PoolStats,
};
use fence::pool::METRICS_APPENDS_TOTAL;

fn setup() -> (HeapBackend, PoolGeometry) {
    let geometry = PoolGeometry::new(16, 64, 4);
    let backend = HeapBackend::new(geometry.total_size as usize);
    (backend, geometry)
}

#[test]
fn initial_stats_are_zero() {
    let (mut backend, geometry) = setup();
    let stats = read_stats(&mut backend, &geometry);
    assert_eq!(stats, PoolStats::default());
}

#[test]
fn increment_appends_counted() {
    let (mut backend, geometry) = setup();
    increment_appends(&mut backend, &geometry, 0);
    increment_appends(&mut backend, &geometry, 0);
    increment_appends(&mut backend, &geometry, 1);
    let stats = read_stats(&mut backend, &geometry);
    assert_eq!(stats.appends_total, 3);
}

#[test]
fn increment_bytes_written_accumulated() {
    let (mut backend, geometry) = setup();
    increment_bytes_written(&mut backend, &geometry, 0, 100);
    increment_bytes_written(&mut backend, &geometry, 2, 200);
    let stats = read_stats(&mut backend, &geometry);
    assert_eq!(stats.bytes_written, 300);
}

#[test]
fn all_counters_independent() {
    let (mut backend, geometry) = setup();
    increment_appends(&mut backend, &geometry, 0);
    increment_appends_failed(&mut backend, &geometry, 0);
    increment_bytes_written(&mut backend, &geometry, 0, 50);
    increment_reads(&mut backend, &geometry, 0);
    increment_checksum_failures(&mut backend, &geometry, 0);
    increment_recovery_runs(&mut backend, &geometry, 0);
    increment_abandoned_found(&mut backend, &geometry, 0, 3);
    let stats = read_stats(&mut backend, &geometry);
    assert_eq!(stats.appends_total, 1);
    assert_eq!(stats.appends_failed, 1);
    assert_eq!(stats.bytes_written, 50);
    assert_eq!(stats.reads_total, 1);
    assert_eq!(stats.checksum_failures, 1);
    assert_eq!(stats.recovery_runs, 1);
    assert_eq!(stats.abandoned_found, 3);
}

#[test]
fn metrics_per_host_isolation() {
    let (mut backend, geometry) = setup();
    increment_appends(&mut backend, &geometry, 0);
    increment_appends(&mut backend, &geometry, 0);
    increment_appends(&mut backend, &geometry, 3);
    // Verify host 0's block directly
    let host0_base = geometry.metrics_offset(0);
    let host0_appends = backend.load_u64(host0_base + METRICS_APPENDS_TOTAL, MemOrder::Relaxed);
    assert_eq!(host0_appends, 2);

    let host3_base = geometry.metrics_offset(3);
    let host3_appends = backend.load_u64(host3_base + METRICS_APPENDS_TOTAL, MemOrder::Relaxed);
    assert_eq!(host3_appends, 1);
}

#[test]
fn sums_wrap_around() {
    let (mut backend, geometry) = setup();
    increment_bytes_written(&mut backend, &geometry, 0, u64::MAX);
    increment_bytes_written(&mut backend, &geometry, 1, 3);
    assert_eq!(read_stats(&mut backend, &geometry).bytes_written, 2);
}

#[test]
fn abandoned_found_is_set_not_added() {
    let (mut backend, geometry) = setup();
    set_abandoned_found(&mut backend, &geometry, 0, 5);
    set_abandoned_found(&mut backend, &geometry, 1, 1);
    assert_eq!(read_stats(&mut backend, &geometry).abandoned_found, 6);
    set_abandoned_found(&mut backend, &geometry, 0, 0);
    assert_eq!(read_stats(&mut backend, &geometry).abandoned_found, 1);
}

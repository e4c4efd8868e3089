use fence::layout::PoolGeometry;
use fence::metrics::PoolStats;
use fence::recovery::RecoveryReport;
use fence::report::{init_text, recovery_text, status_text};

#[test]
fn status_lines() {
    let stats = PoolStats {
        appends_total: 1,
        appends_failed: 2,
        bytes_written: 3000,
        reads_total: 4,
        checksum_failures: 5,
        recovery_runs: 6,
        abandoned_found: 7,
    };
    let expected = [
        "pool: /tmp/pool",
        "  committed_tail: 8",
        "  reserve_tail:   9",
        "  capacity:       10",
        "  metrics:",
        "    appends_total:      1",
        "    appends_failed:     2",
        "    bytes_written:      3000",
        "    reads_total:        4",
        "    checksum_failures:  5",
        "    recovery_runs:      6",
        "    abandoned_found:    7",
    ];
    assert_eq!(status_text("/tmp/pool", 8, 9, 10, &stats), expected.join("\n"));
}

#[test]
fn init_lines() {
    let expected = [
        "pool initialized: /tmp/pool",
        "  capacity:     1024",
        "  payload_size: 192",
        "  max_hosts:    4",
        "  record_size:  256",
        "  total_size:   262464 bytes",
    ];
    assert_eq!(init_text("/tmp/pool", &PoolGeometry::new(1024, 192, 4)), expected.join("\n"));
}

#[test]
fn recovery_lines() {
    let report = RecoveryReport { abandoned_count: 1, committed_tail: 22, slots_scanned: 333 };
    let expected =
        ["recovery complete:", "  slots_scanned:   333", "  abandoned_count: 1", "  committed_tail:  22"];
    assert_eq!(recovery_text(&report), expected.join("\n"));
}

//! What the daemon prints.
use crate::layout::PoolGeometry;
use crate::metrics::PoolStats;
use crate::recovery::RecoveryReport;
use crate::text;
use vstd::prelude::*;
use vstd::string::*;

verus! {

/// The status of a pool, line by line.
pub open spec fn status_message(
    path: Seq<char>,
    committed_tail: u64,
    reserve_tail: u64,
    capacity: u32,
    stats: PoolStats,
) -> Seq<char> {
    "pool: "@ + path + "\n  committed_tail: "@ + text::decimal(committed_tail as nat)
        + "\n  reserve_tail:   "@ + text::decimal(reserve_tail as nat) + "\n  capacity:       "@
        + text::decimal(capacity as nat) + "\n  metrics:\n    appends_total:      "@
        + text::decimal(stats.appends_total as nat) + "\n    appends_failed:     "@
        + text::decimal(stats.appends_failed as nat) + "\n    bytes_written:      "@
        + text::decimal(stats.bytes_written as nat) + "\n    reads_total:        "@
        + text::decimal(stats.reads_total as nat) + "\n    checksum_failures:  "@
        + text::decimal(stats.checksum_failures as nat) + "\n    recovery_runs:      "@
        + text::decimal(stats.recovery_runs as nat) + "\n    abandoned_found:    "@
        + text::decimal(stats.abandoned_found as nat)
}

/// Renders the status of a pool.
pub fn status_text(
    path: &str,
    committed_tail: u64,
    reserve_tail: u64,
    capacity: u32,
    stats: &PoolStats,
) -> (s: String)
    ensures
        s@ == status_message(path@, committed_tail, reserve_tail, capacity, *stats),
{
    let mut s: String = String::new();
    s.append("pool: ");
    s.append(path);
    assert(s@ =~= "pool: "@ + path@);
    s.append("\n  committed_tail: ");
    text::push_decimal(&mut s, committed_tail);
    s.append("\n  reserve_tail:   ");
    text::push_decimal(&mut s, reserve_tail);
    s.append("\n  capacity:       ");
    text::push_decimal(&mut s, capacity as u64);
    s.append("\n  metrics:\n    appends_total:      ");
    text::push_decimal(&mut s, stats.appends_total);
    s.append("\n    appends_failed:     ");
    text::push_decimal(&mut s, stats.appends_failed);
    s.append("\n    bytes_written:      ");
    text::push_decimal(&mut s, stats.bytes_written);
    s.append("\n    reads_total:        ");
    text::push_decimal(&mut s, stats.reads_total);
    s.append("\n    checksum_failures:  ");
    text::push_decimal(&mut s, stats.checksum_failures);
    s.append("\n    recovery_runs:      ");
    text::push_decimal(&mut s, stats.recovery_runs);
    s.append("\n    abandoned_found:    ");
    text::push_decimal(&mut s, stats.abandoned_found);
    s
}

/// What is said of a pool that was initialized, line by line.
pub open spec fn init_message(path: Seq<char>, g: PoolGeometry) -> Seq<char> {
    "pool initialized: "@ + path + "\n  capacity:     "@ + text::decimal(g.capacity as nat)
        + "\n  payload_size: "@ + text::decimal(g.payload_size as nat) + "\n  max_hosts:    "@
        + text::decimal(g.max_hosts as nat) + "\n  record_size:  "@ + text::decimal(
        g.record_size as nat,
    ) + "\n  total_size:   "@ + text::decimal(g.total_size as nat) + " bytes"@
}

/// Renders what is said of a pool that was initialized.
pub fn init_text(path: &str, geometry: &PoolGeometry) -> (s: String)
    ensures
        s@ == init_message(path@, *geometry),
{
    let mut s: String = String::new();
    s.append("pool initialized: ");
    s.append(path);
    assert(s@ =~= "pool initialized: "@ + path@);
    s.append("\n  capacity:     ");
    text::push_decimal(&mut s, geometry.capacity as u64);
    s.append("\n  payload_size: ");
    text::push_decimal(&mut s, geometry.payload_size as u64);
    s.append("\n  max_hosts:    ");
    text::push_decimal(&mut s, geometry.max_hosts as u64);
    s.append("\n  record_size:  ");
    text::push_decimal(&mut s, geometry.record_size as u64);
    s.append("\n  total_size:   ");
    text::push_decimal(&mut s, geometry.total_size);
    s.append(" bytes");
    s
}

/// What is said of a recovery run, line by line.
pub open spec fn recovery_message(report: RecoveryReport) -> Seq<char> {
    "recovery complete:\n  slots_scanned:   "@ + text::decimal(report.slots_scanned as nat)
        + "\n  abandoned_count: "@ + text::decimal(report.abandoned_count as nat)
        + "\n  committed_tail:  "@ + text::decimal(report.committed_tail as nat)
}

/// Renders what is said of a recovery run.
pub fn recovery_text(report: &RecoveryReport) -> (s: String)
    ensures
        s@ == recovery_message(*report),
{
    let mut s: String = String::new();
    s.append("recovery complete:\n  slots_scanned:   ");
    assert(s@ =~= "recovery complete:\n  slots_scanned:   "@);
    text::push_decimal(&mut s, report.slots_scanned);
    s.append("\n  abandoned_count: ");
    text::push_decimal(&mut s, report.abandoned_count);
    s.append("\n  committed_tail:  ");
    text::push_decimal(&mut s, report.committed_tail);
    s
}

} // verus!

//! Per-host metrics.
//!
//! Each host keeps its counters in a 64-byte block of its own in the pool. All updates are
//! relaxed: metrics are best effort.
use crate::backend;
use crate::backend::{Access, MemOrder, MemoryBackend, MemoryView};
use crate::layout::PoolGeometry;
use crate::memory as mem;
use crate::pool;
use crate::pool::{
    METRICS_ABANDONED_FOUND, METRICS_APPENDS_FAILED, METRICS_APPENDS_TOTAL, METRICS_BYTES_WRITTEN,
    METRICS_CHECKSUM_FAILURES, METRICS_READS_TOTAL, METRICS_RECOVERY_RUNS,
};
use crate::protocol;
use crate::protocol::{Call, Pc};
use vstd::prelude::*;

verus! {

/// Pool statistics: each counter summed over all hosts.
#[derive(Debug, Clone, Copy, PartialEq, Eq, Structural)]
pub struct PoolStats {
    pub appends_total: u64,
    pub appends_failed: u64,
    pub bytes_written: u64,
    pub reads_total: u64,
    pub checksum_failures: u64,
    pub recovery_runs: u64,
    /// Of each host, what its last recovery run found.
    pub abandoned_found: u64,
}

impl Default for PoolStats {
    fn default() -> (stats: Self)
        ensures
            stats == (PoolStats {
                appends_total: 0,
                appends_failed: 0,
                bytes_written: 0,
                reads_total: 0,
                checksum_failures: 0,
                recovery_runs: 0,
                abandoned_found: 0,
            }),
    {
        PoolStats {
            appends_total: 0,
            appends_failed: 0,
            bytes_written: 0,
            reads_total: 0,
            checksum_failures: 0,
            recovery_runs: 0,
            abandoned_found: 0,
        }
    }
}

/// From `pre` to `post`, one access was made: it added `n` to a counter of `host`.
pub open spec fn adds(
    g: PoolGeometry,
    host: u16,
    counter: usize,
    n: u64,
    pre: MemoryView,
    post: MemoryView,
) -> bool {
    &&& backend::performs(pre, post, post.trace.last())
    &&& protocol::counts(g, host, counter, n, post.trace.last())
    &&& pre.exclusive ==> post.bytes == pool::counted(g, pre.bytes, host, counter, n)
}

/// Adds `n` to a counter of `host_id`.
fn add<B: MemoryBackend>(
    backend: &mut B,
    geometry: &PoolGeometry,
    host_id: u16,
    counter: usize,
    n: u64,
)
    requires
        geometry.fits(old(backend).view().bytes.len()),
        host_id < geometry.max_hosts,
        counter % 8 == 0,
        counter < 64,
    ensures
        adds(*geometry, host_id, counter, n, old(backend).view(), final(backend).view()),
{
    let base: usize = geometry.host_offset(host_id);
    backend.fetch_add_u64(base + counter, n, MemOrder::Relaxed);
}

/// Counts a successful append of `host_id`.
pub fn increment_appends<B: MemoryBackend>(backend: &mut B, geometry: &PoolGeometry, host_id: u16)
    requires
        geometry.fits(old(backend).view().bytes.len()),
        host_id < geometry.max_hosts,
    ensures
        adds(
            *geometry,
            host_id,
            METRICS_APPENDS_TOTAL,
            1,
            old(backend).view(),
            final(backend).view(),
        ),
{
    self::add(backend, geometry, host_id, METRICS_APPENDS_TOTAL, 1);
}

/// Counts a failed append of `host_id`.
pub fn increment_appends_failed<B: MemoryBackend>(
    backend: &mut B,
    geometry: &PoolGeometry,
    host_id: u16,
)
    requires
        geometry.fits(old(backend).view().bytes.len()),
        host_id < geometry.max_hosts,
    ensures
        adds(
            *geometry,
            host_id,
            METRICS_APPENDS_FAILED,
            1,
            old(backend).view(),
            final(backend).view(),
        ),
{
    self::add(backend, geometry, host_id, METRICS_APPENDS_FAILED, 1);
}

/// Counts `n` payload bytes written by `host_id`.
pub fn increment_bytes_written<B: MemoryBackend>(
    backend: &mut B,
    geometry: &PoolGeometry,
    host_id: u16,
    n: u64,
)
    requires
        geometry.fits(old(backend).view().bytes.len()),
        host_id < geometry.max_hosts,
    ensures
        adds(
            *geometry,
            host_id,
            METRICS_BYTES_WRITTEN,
            n,
            old(backend).view(),
            final(backend).view(),
        ),
{
    self::add(backend, geometry, host_id, METRICS_BYTES_WRITTEN, n);
}

/// Counts a successful read by `host_id`.
pub fn increment_reads<B: MemoryBackend>(backend: &mut B, geometry: &PoolGeometry, host_id: u16)
    requires
        geometry.fits(old(backend).view().bytes.len()),
        host_id < geometry.max_hosts,
    ensures
        adds(
            *geometry,
            host_id,
            METRICS_READS_TOTAL,
            1,
            old(backend).view(),
            final(backend).view(),
        ),
{
    self::add(backend, geometry, host_id, METRICS_READS_TOTAL, 1);
}

/// Counts a read by `host_id` that failed checksum validation.
pub fn increment_checksum_failures<B: MemoryBackend>(
    backend: &mut B,
    geometry: &PoolGeometry,
    host_id: u16,
)
    requires
        geometry.fits(old(backend).view().bytes.len()),
        host_id < geometry.max_hosts,
    ensures
        adds(
            *geometry,
            host_id,
            METRICS_CHECKSUM_FAILURES,
            1,
            old(backend).view(),
            final(backend).view(),
        ),
{
    self::add(backend, geometry, host_id, METRICS_CHECKSUM_FAILURES, 1);
}

/// Counts a recovery run by `host_id`.
pub fn increment_recovery_runs<B: MemoryBackend>(
    backend: &mut B,
    geometry: &PoolGeometry,
    host_id: u16,
)
    requires
        geometry.fits(old(backend).view().bytes.len()),
        host_id < geometry.max_hosts,
    ensures
        adds(
            *geometry,
            host_id,
            METRICS_RECOVERY_RUNS,
            1,
            old(backend).view(),
            final(backend).view(),
        ),
{
    self::add(backend, geometry, host_id, METRICS_RECOVERY_RUNS, 1);
}

/// Adds `n` to the abandoned records that `host_id` has on record.
pub fn increment_abandoned_found<B: MemoryBackend>(
    backend: &mut B,
    geometry: &PoolGeometry,
    host_id: u16,
    n: u64,
)
    requires
        geometry.fits(old(backend).view().bytes.len()),
        host_id < geometry.max_hosts,
    ensures
        adds(
            *geometry,
            host_id,
            METRICS_ABANDONED_FOUND,
            n,
            old(backend).view(),
            final(backend).view(),
        ),
{
    self::add(backend, geometry, host_id, METRICS_ABANDONED_FOUND, n);
}

/// Notes that the latest recovery run of `host_id` found `n` abandoned records, in place of
/// what an earlier run found.
pub fn set_abandoned_found<B: MemoryBackend>(
    backend: &mut B,
    geometry: &PoolGeometry,
    host_id: u16,
    n: u64,
)
    requires
        geometry.fits(old(backend).view().bytes.len()),
        host_id < geometry.max_hosts,
    ensures
        backend::performs(
            old(backend).view(),
            final(backend).view(),
            protocol::note_abandoned_access(*geometry, host_id, n),
        ),
        old(backend).view().exclusive ==> final(backend).view().bytes == pool::noted(
            *geometry,
            old(backend).view().bytes,
            host_id,
            METRICS_ABANDONED_FOUND,
            n,
        ),
{
    let base: usize = geometry.host_offset(host_id);
    backend.store_u64(base + METRICS_ABANDONED_FOUND, n, MemOrder::Relaxed);
}

/// The statistics of a pool: each counter summed, modulo 2^64, over the first `hosts` hosts.
pub open spec fn stats_of(g: PoolGeometry, m: Seq<u8>, hosts: int) -> PoolStats {
    PoolStats {
        appends_total: pool::counter_sum(g, m, METRICS_APPENDS_TOTAL, hosts),
        appends_failed: pool::counter_sum(g, m, METRICS_APPENDS_FAILED, hosts),
        bytes_written: pool::counter_sum(g, m, METRICS_BYTES_WRITTEN, hosts),
        reads_total: pool::counter_sum(g, m, METRICS_READS_TOTAL, hosts),
        checksum_failures: pool::counter_sum(g, m, METRICS_CHECKSUM_FAILURES, hosts),
        recovery_runs: pool::counter_sum(g, m, METRICS_RECOVERY_RUNS, hosts),
        abandoned_found: pool::counter_sum(g, m, METRICS_ABANDONED_FOUND, hosts),
    }
}

/// The counters of one host.
pub open spec fn host_stats(g: PoolGeometry, m: Seq<u8>, host: u16) -> PoolStats {
    PoolStats {
        appends_total: pool::counter(g, m, host, METRICS_APPENDS_TOTAL),
        appends_failed: pool::counter(g, m, host, METRICS_APPENDS_FAILED),
        bytes_written: pool::counter(g, m, host, METRICS_BYTES_WRITTEN),
        reads_total: pool::counter(g, m, host, METRICS_READS_TOTAL),
        checksum_failures: pool::counter(g, m, host, METRICS_CHECKSUM_FAILURES),
        recovery_runs: pool::counter(g, m, host, METRICS_RECOVERY_RUNS),
        abandoned_found: pool::counter(g, m, host, METRICS_ABANDONED_FOUND),
    }
}

/// The access that loads a counter of `host`.
pub open spec fn counter_load(g: PoolGeometry, host: int, counter: usize, value: u64) -> Access {
    Access::LoadU64 {
        offset: g.metrics_at(host) + counter,
        order: MemOrder::Relaxed,
        value,
    }
}

/// The accesses that load the counters of `host`, with what they load.
pub open spec fn host_loads(g: PoolGeometry, host: int, loaded: PoolStats) -> Seq<Access> {
    seq![
        counter_load(g, host, METRICS_APPENDS_TOTAL, loaded.appends_total),
        counter_load(g, host, METRICS_APPENDS_FAILED, loaded.appends_failed),
        counter_load(g, host, METRICS_BYTES_WRITTEN, loaded.bytes_written),
        counter_load(g, host, METRICS_READS_TOTAL, loaded.reads_total),
        counter_load(g, host, METRICS_CHECKSUM_FAILURES, loaded.checksum_failures),
        counter_load(g, host, METRICS_RECOVERY_RUNS, loaded.recovery_runs),
        counter_load(g, host, METRICS_ABANDONED_FOUND, loaded.abandoned_found),
    ]
}

/// The accesses that load the counters of the first hosts in turn, with what they load.
pub open spec fn stats_loads(g: PoolGeometry, loaded: Seq<PoolStats>) -> Seq<Access>
    decreases loaded.len(),
{
    if loaded.len() == 0 {
        Seq::empty()
    } else {
        stats_loads(g, loaded.drop_last()) + host_loads(g, loaded.len() - 1, loaded.last())
    }
}

/// The sum, counter by counter and modulo 2^64, of what was loaded of the hosts.
pub open spec fn total(loaded: Seq<PoolStats>) -> PoolStats
    decreases loaded.len(),
{
    if loaded.len() == 0 {
        PoolStats {
            appends_total: 0,
            appends_failed: 0,
            bytes_written: 0,
            reads_total: 0,
            checksum_failures: 0,
            recovery_runs: 0,
            abandoned_found: 0,
        }
    } else {
        let sum = total(loaded.drop_last());
        let host = loaded.last();
        PoolStats {
            appends_total: mem::wrapped_sum(sum.appends_total, host.appends_total),
            appends_failed: mem::wrapped_sum(sum.appends_failed, host.appends_failed),
            bytes_written: mem::wrapped_sum(sum.bytes_written, host.bytes_written),
            reads_total: mem::wrapped_sum(sum.reads_total, host.reads_total),
            checksum_failures: mem::wrapped_sum(sum.checksum_failures, host.checksum_failures),
            recovery_runs: mem::wrapped_sum(sum.recovery_runs, host.recovery_runs),
            abandoned_found: mem::wrapped_sum(sum.abandoned_found, host.abandoned_found),
        }
    }
}

/// Between `before` and `after` the counters of all hosts were loaded, each once and in
/// turn, and `stats` is the sum of what was loaded.
pub open spec fn sums_up(
    g: PoolGeometry,
    before: Seq<Access>,
    after: Seq<Access>,
    stats: PoolStats,
) -> bool {
    exists|loaded: Seq<PoolStats>|
        loaded.len() == g.max_hosts && after == before + #[trigger] stats_loads(g, loaded) && stats
            == total(loaded)
}

/// Loading counters only looks at the pool.
pub proof fn lemma_stats_loads(g: PoolGeometry, loaded: Seq<PoolStats>)
    ensures
        forall|i: int|
            0 <= i < stats_loads(g, loaded).len() ==> (#[trigger] stats_loads(
                g,
                loaded,
            )[i]).is_load(),
    decreases loaded.len(),
{
    if loaded.len() > 0 {
        lemma_stats_loads(g, loaded.drop_last());
        let before = stats_loads(g, loaded.drop_last());
        let all = stats_loads(g, loaded);
        assert forall|i: int| 0 <= i < all.len() implies (#[trigger] all[i]).is_load() by {
            if i < before.len() {
                assert(all[i] == before[i]);
            }
        }
    }
}

/// Loads the counters of one host.
fn read_host<B: MemoryBackend>(backend: &mut B, geometry: &PoolGeometry, host_id: u16) -> (stats:
    PoolStats)
    requires
        geometry.fits(old(backend).view().bytes.len()),
        host_id < geometry.max_hosts,
    ensures
        final(backend).view().bytes.len() == old(backend).view().bytes.len(),
        final(backend).view().exclusive == old(backend).view().exclusive,
        final(backend).view().trace == old(backend).view().trace + host_loads(
            *geometry,
            host_id as int,
            stats,
        ),
        old(backend).view().exclusive ==> final(backend).view().bytes == old(backend).view().bytes
            && stats == host_stats(*geometry, old(backend).view().bytes, host_id),
{
    let ghost v0 = backend.view();
    let base: usize = geometry.host_offset(host_id);
    let order = MemOrder::Relaxed;
    let stats = PoolStats {
        appends_total: backend.load_u64(base + METRICS_APPENDS_TOTAL, order),
        appends_failed: backend.load_u64(base + METRICS_APPENDS_FAILED, order),
        bytes_written: backend.load_u64(base + METRICS_BYTES_WRITTEN, order),
        reads_total: backend.load_u64(base + METRICS_READS_TOTAL, order),
        checksum_failures: backend.load_u64(base + METRICS_CHECKSUM_FAILURES, order),
        recovery_runs: backend.load_u64(base + METRICS_RECOVERY_RUNS, order),
        abandoned_found: backend.load_u64(base + METRICS_ABANDONED_FOUND, order),
    };
    assert(backend.view().trace =~= v0.trace + host_loads(*geometry, host_id as int, stats));
    stats
}

/// Sums the counters of all hosts.
///
/// Only looks at the pool. A sum that exceeds 64 bits wraps, as the counters do.
pub fn read_stats<B: MemoryBackend>(backend: &mut B, geometry: &PoolGeometry) -> (stats: PoolStats)
    requires
        geometry.fits(old(backend).view().bytes.len()),
    ensures
        final(backend).view().bytes.len() == old(backend).view().bytes.len(),
        final(backend).view().exclusive == old(backend).view().exclusive,
        sums_up(*geometry, old(backend).view().trace, final(backend).view().trace, stats),
        protocol::reaches(
            *geometry,
            Call::Observe,
            old(backend).view().trace,
            final(backend).view().trace,
            Pc::Start,
            Pc::Start,
        ),
        old(backend).view().exclusive ==> {
            &&& final(backend).view().bytes == old(backend).view().bytes
            &&& stats == stats_of(*geometry, old(backend).view().bytes, geometry.max_hosts as int)
        },
{
    let ghost v0 = backend.view();
    let ghost mut loaded: Seq<PoolStats> = Seq::empty();
    let mut stats: PoolStats = PoolStats::default();
    let mut host_id: u16 = 0;
    assert(v0.trace + stats_loads(*geometry, loaded) =~= v0.trace);
    while host_id < geometry.max_hosts
        invariant
            host_id <= geometry.max_hosts,
            geometry.fits(backend.view().bytes.len()),
            backend.view().bytes.len() == v0.bytes.len(),
            backend.view().exclusive == v0.exclusive,
            loaded.len() == host_id,
            stats == total(loaded),
            backend.view().trace == v0.trace + stats_loads(*geometry, loaded),
            v0.exclusive ==> backend.view().bytes == v0.bytes && stats == stats_of(
                *geometry,
                v0.bytes,
                host_id as int,
            ),
        decreases geometry.max_hosts - host_id,
    {
        let host: PoolStats = read_host(backend, geometry, host_id);
        proof {
            let longer = loaded.push(host);
            assert(longer.drop_last() =~= loaded);
            assert(backend.view().trace =~= v0.trace + stats_loads(*geometry, longer));
            loaded = longer;
        }
        stats =
        PoolStats {
            appends_total: stats.appends_total.wrapping_add(host.appends_total),
            appends_failed: stats.appends_failed.wrapping_add(host.appends_failed),
            bytes_written: stats.bytes_written.wrapping_add(host.bytes_written),
            reads_total: stats.reads_total.wrapping_add(host.reads_total),
            checksum_failures: stats.checksum_failures.wrapping_add(host.checksum_failures),
            recovery_runs: stats.recovery_runs.wrapping_add(host.recovery_runs),
            abandoned_found: stats.abandoned_found.wrapping_add(host.abandoned_found),
        };
        host_id = host_id + 1;
    }
    proof {
        lemma_stats_loads(*geometry, loaded);
        protocol::lemma_reaches_here(*geometry, Call::Observe, v0.trace, Pc::Start);
        protocol::lemma_observes(
            *geometry,
            v0.trace,
            v0.trace,
            stats_loads(*geometry, loaded),
        );
    }
    stats
}

} // verus!

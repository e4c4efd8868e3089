//! What trims, recovery runs and statistics count, on a pool that one host has to itself.
use crate::compaction;
use crate::compaction::TrimResult;
use crate::engine;
use crate::error::FenceError;
use crate::layout;
use crate::layout::{
    PoolGeometry, HEADER_SIZE, STATE_ABANDONED, STATE_COMMITTED, STATE_FREE, STATE_WRITING,
};
use crate::laws;
use crate::memory as mem;
use crate::metrics;
use crate::metrics::PoolStats;
use crate::pool;
use crate::pool::{
    METRICS_ABANDONED_FOUND, METRICS_APPENDS_FAILED, METRICS_APPENDS_TOTAL, METRICS_BYTES_WRITTEN,
    METRICS_CHECKSUM_FAILURES, METRICS_READS_TOTAL, METRICS_RECOVERY_RUNS,
};
use crate::reading_laws;
use crate::recovery;
use crate::startup;
use vstd::prelude::*;

verus! {

/// The slots below `n` that were not abandoned in `before` and are in `after`.
pub open spec fn newly_abandoned(g: PoolGeometry, before: Seq<u8>, after: Seq<u8>, n: int) -> Set<
    int,
> {
    Set::new(
        |s: int|
            0 <= s < n && pool::state_of(g, before, s) != STATE_ABANDONED && pool::state_of(
                g,
                after,
                s,
            ) == STATE_ABANDONED,
    )
}

/// The number of changed states is the size of the set of slots whose state changes.
proof fn lemma_changed_set(
    g: PoolGeometry,
    m: Seq<u8>,
    n: int,
    f: spec_fn(int) -> u8,
    changed: Set<int>,
)
    requires
        forall|s: int| #[trigger]
            changed.contains(s) <==> 0 <= s < n && f(s) != pool::state_of(g, m, s),
    ensures
        changed.finite(),
        changed.len() == pool::states_changed(g, m, n, f),
    decreases n,
{
    if n <= 0 {
        assert(changed =~= Set::empty());
    } else {
        let fewer = changed.remove(n - 1);
        lemma_changed_set(g, m, n - 1, f, fewer);
        if changed.contains(n - 1) {
            assert(changed =~= fewer.insert(n - 1));
        } else {
            assert(changed =~= fewer);
        }
    }
}

/// A trim that is allowed returns how many records it abandoned: the size of the set of the
/// slots below `up_to` that were committed before and are abandoned after. If all of them
/// were committed, these are all. It is refused exactly if it goes past the committed tail.
pub proof fn law_trim_count_exact(g: PoolGeometry, m: Seq<u8>, up_to: u64)
    requires
        g.fits(m.len()),
        pool::committed_tail(m) <= g.capacity || up_to <= g.capacity,
    ensures
        ({
            let after = pool::trimmed(g, m, up_to);
            let tail = mem::u64_at(m, 32);
            let gone = Set::new(
                |s: int|
                    0 <= s < up_to && pool::state_of(g, m, s) == STATE_COMMITTED && pool::state_of(
                        g,
                        after,
                        s,
                    ) == STATE_ABANDONED,
            );
            &&& up_to > tail ==> after == m && pool::trim_result(g, m, up_to) == Err::<
                u64,
                FenceError,
            >(FenceError::TrimBeyondCommitted { requested: up_to, committed_tail: tail })
            &&& up_to <= tail ==> {
                &&& gone.finite()
                &&& pool::trim_result(g, m, up_to) matches Ok(n) && n == gone.len()
                &&& forall|s: int|
                    0 <= s < up_to && #[trigger] pool::state_of(g, m, s) == STATE_COMMITTED
                        ==> gone.contains(s)
            }
            &&& up_to <= tail && (forall|s: int|
                0 <= s < up_to ==> #[trigger] pool::state_of(g, m, s) == STATE_COMMITTED)
                ==> pool::trim_result(g, m, up_to) == Ok::<u64, FenceError>(up_to)
        }),
{
    let after = pool::trimmed(g, m, up_to);
    let gone = Set::new(
        |s: int|
            0 <= s < up_to && pool::state_of(g, m, s) == STATE_COMMITTED && pool::state_of(
                g,
                after,
                s,
            ) == STATE_ABANDONED,
    );
    if up_to <= pool::committed_tail(m) {
        layout::law_layout(g);
        if up_to > 0 {
            pool::lemma_slot_named(g, up_to);
        }
        laws::lemma_trimmed(g, m, up_to);
        let f = pool::trimmed_states(g, m);
        assert forall|s: int| #[trigger] gone.contains(s) <==> 0 <= s < up_to && f(s)
            != pool::state_of(g, m, s) by {
            if 0 <= s < up_to {
                let state = pool::state_of(g, after, s);
            }
        }
        lemma_changed_set(g, m, up_to as int, f, gone);
        laws::lemma_states_changed_bound(g, m, up_to as int, f);
        if forall|s: int|
            0 <= s < up_to ==> #[trigger] pool::state_of(g, m, s) == STATE_COMMITTED {
            vstd::set_lib::lemma_int_range(0, up_to as int);
            assert forall|s: int| 0 <= s < up_to implies gone.contains(s) by {
                let state = pool::state_of(g, after, s);
                assert(pool::state_of(g, m, s) == STATE_COMMITTED);
            }
            assert(gone =~= vstd::set_lib::set_int_range(0, up_to as int));
        }
    }
}

/// Trims add up: trimming to one index and then to a later one abandons as many records as
/// trimming to the later one at once, and leaves the same pool.
pub proof fn law_trims_add_up(g: PoolGeometry, m: Seq<u8>, first: u64, second: u64)
    requires
        g.fits(m.len()),
        first <= second <= pool::committed_tail(m),
        second <= g.capacity,
    ensures
        ({
            let once = pool::trimmed(g, m, first);
            &&& pool::trim_result(g, m, first) matches Ok(a)
            &&& pool::trim_result(g, once, second) matches Ok(b)
            &&& pool::trim_result(g, m, second) matches Ok(both)
            &&& both == a + b
            &&& pool::trimmed(g, once, second) == pool::trimmed(g, m, second)
        }),
{
    layout::law_layout(g);
    if first > 0 {
        pool::lemma_slot_named(g, first);
    }
    if second > 0 {
        pool::lemma_slot_named(g, second);
    }
    laws::lemma_trimmed(g, m, first);
    let once = pool::trimmed(g, m, first);
    laws::lemma_trimmed(g, once, second);
    laws::lemma_trimmed(g, m, second);
    let f = pool::trimmed_states(g, m);
    let h = pool::trimmed_states(g, once);
    lemma_split_count(g, m, once, first as int, second as int);
    laws::lemma_states_changed_bound(g, m, first as int, f);
    laws::lemma_states_changed_bound(g, m, second as int, f);
    laws::lemma_states_changed_bound(g, once, second as int, h);
    let twice = pool::trimmed(g, once, second);
    let whole = pool::trimmed(g, m, second);
    lemma_split_states(g, m, once, first as int, second as int);
    assert(twice == whole);
}

/// The records that a trim finds once the first `first` slots are trimmed.
proof fn lemma_split_count(g: PoolGeometry, m: Seq<u8>, once: Seq<u8>, first: int, n: int)
    requires
        0 <= n <= g.capacity,
        0 <= first <= g.capacity,
        forall|s: int|
            0 <= s < g.capacity ==> #[trigger] pool::state_of(g, once, s) == (if s < first
                && pool::state_of(g, m, s) == STATE_COMMITTED {
                STATE_ABANDONED
            } else {
                pool::state_of(g, m, s)
            }),
    ensures
        pool::states_changed(g, m, n, pool::trimmed_states(g, m)) == pool::states_changed(
            g,
            once,
            n,
            pool::trimmed_states(g, once),
        ) + pool::states_changed(
            g,
            m,
            if first < n {
                first
            } else {
                n
            },
            pool::trimmed_states(g, m),
        ),
    decreases n,
{
    if n > 0 {
        lemma_split_count(g, m, once, first, n - 1);
        let state = pool::state_of(g, once, n - 1);
    }
}

/// The states of a pool that is trimmed in two steps.
proof fn lemma_split_states(g: PoolGeometry, m: Seq<u8>, once: Seq<u8>, first: int, n: int)
    requires
        g.fits(m.len()),
        0 <= first <= n <= g.capacity,
        once == pool::with_states(g, m, first, pool::trimmed_states(g, m)),
    ensures
        pool::with_states(g, once, n, pool::trimmed_states(g, once)) == pool::with_states(
            g,
            m,
            n,
            pool::trimmed_states(g, m),
        ),
    decreases n,
{
    layout::law_layout(g);
    let f = pool::trimmed_states(g, m);
    let h = pool::trimmed_states(g, once);
    pool::lemma_with_states(g, m, first, f);
    if n > first {
        lemma_split_states(g, m, once, first, n - 1);
        let state = pool::state_of(g, once, n - 1);
    } else {
        assert forall|s: int| 0 <= s < first implies #[trigger] pool::state_of(g, once, s) == h(
            s,
        ) by {
            assert(pool::state_of(g, once, s) == f(s));
        }
        laws::lemma_states_settled(g, once, first, h);
    }
}

/// Recovery changes the states of damaged and unfinished records alone: among the slots that
/// were claimed, one that was being written, that is damaged or whose state is unknown
/// becomes abandoned; free ones, intact records and abandoned ones stay, and so does every
/// slot that was not claimed. Apart from states and the committed tail, no byte changes.
pub proof fn law_recovery_abandons_exactly(g: PoolGeometry, m: Seq<u8>, slot: int)
    requires
        g.fits(m.len()),
        0 <= slot < g.capacity,
    ensures
        ({
            let after = pool::recovered(g, m);
            let state = pool::state_of(g, m, slot);
            let claimed = slot < pool::reserve_tail(m);
            let intact = pool::fields_of(g, m, slot).intact();
            let at = g.record_at(slot);
            &&& !claimed ==> pool::state_of(g, after, slot) == state
            &&& state == STATE_FREE || state == STATE_ABANDONED ==> pool::state_of(g, after, slot)
                == state
            &&& state == STATE_COMMITTED && intact ==> pool::state_of(g, after, slot) == state
            &&& state == STATE_COMMITTED && claimed && !intact ==> pool::state_of(g, after, slot)
                == STATE_ABANDONED
            &&& state == STATE_WRITING && claimed ==> pool::state_of(g, after, slot)
                == STATE_ABANDONED
            &&& state > 3 && claimed ==> pool::state_of(g, after, slot) == STATE_ABANDONED
            &&& mem::agree(after, m, at + 1, at + g.record_size)
            &&& mem::agree(after, m, 0, 32)
            &&& mem::agree(after, m, 40, 64)
            &&& mem::agree(after, m, g.record_at(g.capacity as int), m.len() as int)
        }),
{
    layout::law_layout(g);
    laws::lemma_recovered(g, m);
    let after = pool::recovered(g, m);
    let mended = pool::mended(g, m);
    let limit = pool::scan_limit(g, pool::reserve_tail(m)) as int;
    pool::lemma_with_states(g, m, limit, pool::recovered_states(g, m));
    let at = g.record_at(slot);
    assert(mem::agree(mended, m, g.record_at(slot) + 1, g.record_at(slot) + g.record_size));
    laws::lemma_swept(g, mended);
    assert(HEADER_SIZE <= g.record_at(slot));
    assert(g.record_at(slot) + g.record_size <= g.record_at(g.capacity as int));
    assert(pool::state_of(g, after, slot) == (if slot < limit {
        pool::recovered_state(pool::state_of(g, m, slot), pool::fields_of(g, m, slot).intact())
    } else {
        pool::state_of(g, m, slot)
    }));
}

/// A recovery run reports how many records it abandoned (the size of the set of slots that
/// were not abandoned before and are after), how many slots were claimed, and where the
/// committed tail stands after it.
pub proof fn law_recovery_report_exact(g: PoolGeometry, m: Seq<u8>)
    requires
        g.fits(m.len()),
    ensures
        ({
            let after = pool::recovered(g, m);
            let report = recovery::recovery_report(g, m);
            let gone = newly_abandoned(g, m, after, g.capacity as int);
            let claimed = mem::u64_at(m, 40);
            &&& gone.finite()
            &&& report.abandoned_count == gone.len()
            &&& report.slots_scanned == (if claimed <= g.capacity {
                claimed
            } else {
                g.capacity as u64
            })
            &&& report.committed_tail == mem::u64_at(after, 32)
            &&& mem::u64_at(after, 40) == claimed
        }),
{
    laws::lemma_recovered(g, m);
    let after = pool::recovered(g, m);
    let gone = newly_abandoned(g, m, after, g.capacity as int);
    let limit = pool::scan_limit(g, pool::reserve_tail(m)) as int;
    let f = pool::recovered_states(g, m);
    assert forall|s: int| #[trigger] gone.contains(s) <==> 0 <= s < limit && f(s)
        != pool::state_of(g, m, s) by {
        if 0 <= s < g.capacity {
            let state = pool::state_of(g, after, s);
        }
    }
    lemma_changed_set(g, m, limit, f, gone);
    laws::lemma_states_changed_bound(g, m, limit, f);
}

/// Statistics with others added, counter by counter.
pub open spec fn raised(stats: PoolStats, more: PoolStats) -> PoolStats {
    PoolStats {
        appends_total: mem::wrapped_sum(stats.appends_total, more.appends_total),
        appends_failed: mem::wrapped_sum(stats.appends_failed, more.appends_failed),
        bytes_written: mem::wrapped_sum(stats.bytes_written, more.bytes_written),
        reads_total: mem::wrapped_sum(stats.reads_total, more.reads_total),
        checksum_failures: mem::wrapped_sum(stats.checksum_failures, more.checksum_failures),
        recovery_runs: mem::wrapped_sum(stats.recovery_runs, more.recovery_runs),
        abandoned_found: mem::wrapped_sum(stats.abandoned_found, more.abandoned_found),
    }
}

/// Statistics of a pool in which nothing was counted.
pub open spec fn no_stats() -> PoolStats {
    PoolStats {
        appends_total: 0,
        appends_failed: 0,
        bytes_written: 0,
        reads_total: 0,
        checksum_failures: 0,
        recovery_runs: 0,
        abandoned_found: 0,
    }
}

/// A sum over hosts grows by what the counter of one of them grows by.
proof fn lemma_sum_grows(
    g: PoolGeometry,
    m: Seq<u8>,
    after: Seq<u8>,
    host: u16,
    counter: usize,
    n: u64,
    hosts: int,
)
    requires
        0 <= hosts <= g.max_hosts,
        forall|h: u16|
            h < g.max_hosts ==> #[trigger] pool::counter(g, after, h, counter) == (if h == host {
                mem::wrapped_sum(pool::counter(g, m, h, counter), n)
            } else {
                pool::counter(g, m, h, counter)
            }),
    ensures
        pool::counter_sum(g, after, counter, hosts) == (if host < hosts {
            mem::wrapped_sum(pool::counter_sum(g, m, counter, hosts), n)
        } else {
            pool::counter_sum(g, m, counter, hosts)
        }),
    decreases hosts,
{
    if hosts > 0 {
        lemma_sum_grows(g, m, after, host, counter, n, hosts - 1);
        let h = (hosts - 1) as u16;
        assert(h == hosts - 1);
        let value = pool::counter(g, after, h, counter);
    }
}

/// Statistics of a pool in which one host counted `more`.
proof fn lemma_stats_raised(
    g: PoolGeometry,
    m: Seq<u8>,
    after: Seq<u8>,
    host: u16,
    more: PoolStats,
)
    requires
        host < g.max_hosts,
        forall|h: u16|
            h < g.max_hosts ==> #[trigger] metrics::host_stats(g, after, h) == (if h == host {
                raised(metrics::host_stats(g, m, h), more)
            } else {
                metrics::host_stats(g, m, h)
            }),
    ensures
        metrics::stats_of(g, after, g.max_hosts as int) == raised(
            metrics::stats_of(g, m, g.max_hosts as int),
            more,
        ),
{
    let hosts = g.max_hosts as int;
    assert forall|h: u16| h < g.max_hosts implies #[trigger] pool::counter(
        g,
        after,
        h,
        METRICS_APPENDS_TOTAL,
    ) == (if h == host {
        mem::wrapped_sum(pool::counter(g, m, h, METRICS_APPENDS_TOTAL), more.appends_total)
    } else {
        pool::counter(g, m, h, METRICS_APPENDS_TOTAL)
    }) by {
        let stats = metrics::host_stats(g, after, h);
    }
    assert forall|h: u16| h < g.max_hosts implies #[trigger] pool::counter(
        g,
        after,
        h,
        METRICS_APPENDS_FAILED,
    ) == (if h == host {
        mem::wrapped_sum(pool::counter(g, m, h, METRICS_APPENDS_FAILED), more.appends_failed)
    } else {
        pool::counter(g, m, h, METRICS_APPENDS_FAILED)
    }) by {
        let stats = metrics::host_stats(g, after, h);
    }
    assert forall|h: u16| h < g.max_hosts implies #[trigger] pool::counter(
        g,
        after,
        h,
        METRICS_BYTES_WRITTEN,
    ) == (if h == host {
        mem::wrapped_sum(pool::counter(g, m, h, METRICS_BYTES_WRITTEN), more.bytes_written)
    } else {
        pool::counter(g, m, h, METRICS_BYTES_WRITTEN)
    }) by {
        let stats = metrics::host_stats(g, after, h);
    }
    assert forall|h: u16| h < g.max_hosts implies #[trigger] pool::counter(
        g,
        after,
        h,
        METRICS_READS_TOTAL,
    ) == (if h == host {
        mem::wrapped_sum(pool::counter(g, m, h, METRICS_READS_TOTAL), more.reads_total)
    } else {
        pool::counter(g, m, h, METRICS_READS_TOTAL)
    }) by {
        let stats = metrics::host_stats(g, after, h);
    }
    assert forall|h: u16| h < g.max_hosts implies #[trigger] pool::counter(
        g,
        after,
        h,
        METRICS_CHECKSUM_FAILURES,
    ) == (if h == host {
        mem::wrapped_sum(
            pool::counter(g, m, h, METRICS_CHECKSUM_FAILURES),
            more.checksum_failures,
        )
    } else {
        pool::counter(g, m, h, METRICS_CHECKSUM_FAILURES)
    }) by {
        let stats = metrics::host_stats(g, after, h);
    }
    assert forall|h: u16| h < g.max_hosts implies #[trigger] pool::counter(
        g,
        after,
        h,
        METRICS_RECOVERY_RUNS,
    ) == (if h == host {
        mem::wrapped_sum(pool::counter(g, m, h, METRICS_RECOVERY_RUNS), more.recovery_runs)
    } else {
        pool::counter(g, m, h, METRICS_RECOVERY_RUNS)
    }) by {
        let stats = metrics::host_stats(g, after, h);
    }
    assert forall|h: u16| h < g.max_hosts implies #[trigger] pool::counter(
        g,
        after,
        h,
        METRICS_ABANDONED_FOUND,
    ) == (if h == host {
        mem::wrapped_sum(pool::counter(g, m, h, METRICS_ABANDONED_FOUND), more.abandoned_found)
    } else {
        pool::counter(g, m, h, METRICS_ABANDONED_FOUND)
    }) by {
        let stats = metrics::host_stats(g, after, h);
    }
    lemma_sum_grows(g, m, after, host, METRICS_APPENDS_TOTAL, more.appends_total, hosts);
    lemma_sum_grows(g, m, after, host, METRICS_APPENDS_FAILED, more.appends_failed, hosts);
    lemma_sum_grows(g, m, after, host, METRICS_BYTES_WRITTEN, more.bytes_written, hosts);
    lemma_sum_grows(g, m, after, host, METRICS_READS_TOTAL, more.reads_total, hosts);
    lemma_sum_grows(g, m, after, host, METRICS_CHECKSUM_FAILURES, more.checksum_failures, hosts);
    lemma_sum_grows(g, m, after, host, METRICS_RECOVERY_RUNS, more.recovery_runs, hosts);
    lemma_sum_grows(g, m, after, host, METRICS_ABANDONED_FOUND, more.abandoned_found, hosts);
}

/// Whatever any host counts shows in the pool's statistics: the counter that it is, and no
/// other, grows by as much.
pub proof fn law_stats_grow(g: PoolGeometry, m: Seq<u8>, host: u16, counter: usize, n: u64)
    requires
        g.fits(m.len()),
        host < g.max_hosts,
        counter % 8 == 0,
        counter < 64,
    ensures
        metrics::stats_of(g, pool::counted(g, m, host, counter, n), g.max_hosts as int) == raised(
            metrics::stats_of(g, m, g.max_hosts as int),
            PoolStats {
                appends_total: if counter == 0 { n } else { 0 },
                appends_failed: if counter == 8 { n } else { 0 },
                bytes_written: if counter == 16 { n } else { 0 },
                reads_total: if counter == 24 { n } else { 0 },
                checksum_failures: if counter == 32 { n } else { 0 },
                recovery_runs: if counter == 40 { n } else { 0 },
                abandoned_found: if counter == 48 { n } else { 0 },
            },
        ),
{
    let after = pool::counted(g, m, host, counter, n);
    let more = PoolStats {
        appends_total: if counter == 0 { n } else { 0 },
        appends_failed: if counter == 8 { n } else { 0 },
        bytes_written: if counter == 16 { n } else { 0 },
        reads_total: if counter == 24 { n } else { 0 },
        checksum_failures: if counter == 32 { n } else { 0 },
        recovery_runs: if counter == 40 { n } else { 0 },
        abandoned_found: if counter == 48 { n } else { 0 },
    };
    assert forall|h: u16| h < g.max_hosts implies #[trigger] metrics::host_stats(g, after, h) == (
    if h == host {
        raised(metrics::host_stats(g, m, h), more)
    } else {
        metrics::host_stats(g, m, h)
    }) by {
        laws::law_counters_independent(g, m, host, counter, n, h, METRICS_APPENDS_TOTAL);
        laws::law_counters_independent(g, m, host, counter, n, h, METRICS_APPENDS_FAILED);
        laws::law_counters_independent(g, m, host, counter, n, h, METRICS_BYTES_WRITTEN);
        laws::law_counters_independent(g, m, host, counter, n, h, METRICS_READS_TOTAL);
        laws::law_counters_independent(g, m, host, counter, n, h, METRICS_CHECKSUM_FAILURES);
        laws::law_counters_independent(g, m, host, counter, n, h, METRICS_RECOVERY_RUNS);
        laws::law_counters_independent(g, m, host, counter, n, h, METRICS_ABANDONED_FOUND);
    }
    lemma_stats_raised(g, m, after, host, more);
}

/// An append by any host shows in the pool's statistics: an accepted one as one append more
/// and so many bytes more, a refused one as one failure more; nothing else changes.
pub proof fn law_append_in_stats(
    g: PoolGeometry,
    m: Seq<u8>,
    host: u16,
    term: u64,
    data: Seq<u8>,
)
    requires
        g.fits(m.len()),
        host < g.max_hosts,
    ensures
        ({
            let accepted = pool::append_result(g, m, data.len()) is Ok;
            let hosts = g.max_hosts as int;
            metrics::stats_of(g, pool::appended(g, m, host, term, data), hosts) == raised(
                metrics::stats_of(g, m, hosts),
                if accepted {
                    PoolStats {
                        appends_total: 1,
                        bytes_written: data.len() as u64,
                        ..no_stats()
                    }
                } else {
                    PoolStats { appends_failed: 1, ..no_stats() }
                },
            )
        }),
{
    let after = pool::appended(g, m, host, term, data);
    let accepted = pool::append_result(g, m, data.len()) is Ok;
    let more = if accepted {
        PoolStats { appends_total: 1, bytes_written: data.len() as u64, ..no_stats() }
    } else {
        PoolStats { appends_failed: 1, ..no_stats() }
    };
    assert forall|h: u16| h < g.max_hosts implies #[trigger] metrics::host_stats(g, after, h) == (
    if h == host {
        raised(metrics::host_stats(g, m, h), more)
    } else {
        metrics::host_stats(g, m, h)
    }) by {
        laws::law_append_counted(g, m, host, term, data, h, METRICS_APPENDS_TOTAL);
        laws::law_append_counted(g, m, host, term, data, h, METRICS_APPENDS_FAILED);
        laws::law_append_counted(g, m, host, term, data, h, METRICS_BYTES_WRITTEN);
        laws::law_append_counted(g, m, host, term, data, h, METRICS_READS_TOTAL);
        laws::law_append_counted(g, m, host, term, data, h, METRICS_CHECKSUM_FAILURES);
        laws::law_append_counted(g, m, host, term, data, h, METRICS_RECOVERY_RUNS);
        laws::law_append_counted(g, m, host, term, data, h, METRICS_ABANDONED_FOUND);
    }
    lemma_stats_raised(g, m, after, host, more);
}

/// A read by any host shows in the pool's statistics: as one read more if it returned a
/// record, as one checksum failure more if it found damage; otherwise not at all.
pub proof fn law_read_in_stats(g: PoolGeometry, m: Seq<u8>, host: u16, index: u64)
    requires
        g.fits(m.len()),
        host < g.max_hosts,
    ensures
        ({
            let result = pool::read_result(g, m, index);
            let hosts = g.max_hosts as int;
            metrics::stats_of(g, pool::after_read(g, m, host, index), hosts) == raised(
                metrics::stats_of(g, m, hosts),
                match result {
                    Ok(Some(_)) => PoolStats { reads_total: 1, ..no_stats() },
                    Err(FenceError::ChecksumMismatch { .. }) => PoolStats {
                        checksum_failures: 1,
                        ..no_stats()
                    },
                    _ => no_stats(),
                },
            )
        }),
{
    let after = pool::after_read(g, m, host, index);
    let more = match pool::read_result(g, m, index) {
        Ok(Some(_)) => PoolStats { reads_total: 1, ..no_stats() },
        Err(FenceError::ChecksumMismatch { .. }) => PoolStats { checksum_failures: 1, ..no_stats() },
        _ => no_stats(),
    };
    assert forall|h: u16| h < g.max_hosts implies #[trigger] metrics::host_stats(g, after, h) == (
    if h == host {
        raised(metrics::host_stats(g, m, h), more)
    } else {
        metrics::host_stats(g, m, h)
    }) by {
        reading_laws::law_read_counted(g, m, host, index, h, METRICS_APPENDS_TOTAL);
        reading_laws::law_read_counted(g, m, host, index, h, METRICS_APPENDS_FAILED);
        reading_laws::law_read_counted(g, m, host, index, h, METRICS_BYTES_WRITTEN);
        reading_laws::law_read_counted(g, m, host, index, h, METRICS_READS_TOTAL);
        reading_laws::law_read_counted(g, m, host, index, h, METRICS_CHECKSUM_FAILURES);
        reading_laws::law_read_counted(g, m, host, index, h, METRICS_RECOVERY_RUNS);
        reading_laws::law_read_counted(g, m, host, index, h, METRICS_ABANDONED_FOUND);
    }
    lemma_stats_raised(g, m, after, host, more);
}

/// A recovery run that any host counts shows in the pool's statistics as one run more; what
/// the host's last run found gives way to what this one found. A trim does not show.
pub proof fn law_recovery_in_stats(g: PoolGeometry, m: Seq<u8>, host: u16, up_to: u64)
    requires
        g.fits(m.len()),
        host < g.max_hosts,
        up_to <= g.capacity,
    ensures
        ({
            let hosts = g.max_hosts as int;
            let before = metrics::stats_of(g, m, hosts);
            let after = metrics::stats_of(g, engine::recovered_and_counted(g, m, host), hosts);
            let found = recovery::recovery_report(g, m).abandoned_count;
            &&& after == (PoolStats {
                recovery_runs: mem::wrapped_sum(before.recovery_runs, 1),
                abandoned_found: after.abandoned_found,
                ..before
            })
            &&& mem::wrapped_sum(
                after.abandoned_found,
                pool::counter(g, m, host, METRICS_ABANDONED_FOUND),
            ) == mem::wrapped_sum(before.abandoned_found, found)
            &&& metrics::stats_of(g, pool::trimmed(g, m, up_to), hosts) == before
        }),
{
    let hosts = g.max_hosts as int;
    let after = engine::recovered_and_counted(g, m, host);
    let old = pool::counter(g, m, host, METRICS_ABANDONED_FOUND);
    let found = recovery::recovery_report(g, m).abandoned_count;
    let change = if found >= old {
        (found - old) as u64
    } else {
        (found - old + 0x1_0000_0000_0000_0000) as u64
    };
    let more = PoolStats { recovery_runs: 1, abandoned_found: change, ..no_stats() };
    assert forall|h: u16| h < g.max_hosts implies #[trigger] metrics::host_stats(g, after, h) == (
    if h == host {
        raised(metrics::host_stats(g, m, h), more)
    } else {
        metrics::host_stats(g, m, h)
    }) by {
        laws::law_recovery_counted(g, m, host, h, METRICS_APPENDS_TOTAL);
        laws::law_recovery_counted(g, m, host, h, METRICS_APPENDS_FAILED);
        laws::law_recovery_counted(g, m, host, h, METRICS_BYTES_WRITTEN);
        laws::law_recovery_counted(g, m, host, h, METRICS_READS_TOTAL);
        laws::law_recovery_counted(g, m, host, h, METRICS_CHECKSUM_FAILURES);
        laws::law_recovery_counted(g, m, host, h, METRICS_RECOVERY_RUNS);
        laws::law_recovery_counted(g, m, host, h, METRICS_ABANDONED_FOUND);
    }
    lemma_stats_raised(g, m, after, host, more);
    let trimmed = pool::trimmed(g, m, up_to);
    assert forall|h: u16| h < g.max_hosts implies #[trigger] metrics::host_stats(g, trimmed, h)
        == (if h == host {
        raised(metrics::host_stats(g, m, h), no_stats())
    } else {
        metrics::host_stats(g, m, h)
    }) by {
        laws::law_uncounted(g, m, h, METRICS_APPENDS_TOTAL, up_to);
        laws::law_uncounted(g, m, h, METRICS_APPENDS_FAILED, up_to);
        laws::law_uncounted(g, m, h, METRICS_BYTES_WRITTEN, up_to);
        laws::law_uncounted(g, m, h, METRICS_READS_TOTAL, up_to);
        laws::law_uncounted(g, m, h, METRICS_CHECKSUM_FAILURES, up_to);
        laws::law_uncounted(g, m, h, METRICS_RECOVERY_RUNS, up_to);
        laws::law_uncounted(g, m, h, METRICS_ABANDONED_FOUND, up_to);
    }
    lemma_stats_raised(g, m, trimmed, host, no_stats());
}

/// A fresh pool has no counts.
pub proof fn law_fresh_stats(g: PoolGeometry, m: Seq<u8>)
    requires
        g.fits(m.len()),
    ensures
        metrics::stats_of(
            g,
            engine::with_header(g, startup::zeroed(g, m)),
            g.max_hosts as int,
        ) == no_stats(),
{
    let fresh = engine::with_header(g, startup::zeroed(g, m));
    let hosts = g.max_hosts as int;
    lemma_no_sum(g, m, METRICS_APPENDS_TOTAL, hosts);
    lemma_no_sum(g, m, METRICS_APPENDS_FAILED, hosts);
    lemma_no_sum(g, m, METRICS_BYTES_WRITTEN, hosts);
    lemma_no_sum(g, m, METRICS_READS_TOTAL, hosts);
    lemma_no_sum(g, m, METRICS_CHECKSUM_FAILURES, hosts);
    lemma_no_sum(g, m, METRICS_RECOVERY_RUNS, hosts);
    lemma_no_sum(g, m, METRICS_ABANDONED_FOUND, hosts);
}

proof fn lemma_no_sum(g: PoolGeometry, m: Seq<u8>, counter: usize, hosts: int)
    requires
        g.fits(m.len()),
        counter <= 56,
        0 <= hosts <= g.max_hosts,
    ensures
        pool::counter_sum(
            g,
            engine::with_header(g, startup::zeroed(g, m)),
            counter,
            hosts,
        ) == 0,
    decreases hosts,
{
    if hosts > 0 {
        lemma_no_sum(g, m, counter, hosts - 1);
        startup::law_zeroed_pool_is_empty(g, m, (hosts - 1) as u16, counter);
    }
}

/// What is loaded of all hosts adds up: whatever is added to the counters of any one of them
/// is added to the total.
pub proof fn law_total_grows(loaded: Seq<PoolStats>, host: int, more: PoolStats)
    requires
        0 <= host < loaded.len(),
    ensures
        metrics::total(loaded.update(host, raised(loaded[host], more))) == raised(
            metrics::total(loaded),
            more,
        ),
        metrics::total(Seq::<PoolStats>::empty()) == no_stats(),
    decreases loaded.len(),
{
    let changed = loaded.update(host, raised(loaded[host], more));
    if host < loaded.len() - 1 {
        law_total_grows(loaded.drop_last(), host, more);
        assert(changed.drop_last() =~= loaded.drop_last().update(
            host,
            raised(loaded.drop_last()[host], more),
        ));
    } else {
        assert(changed.drop_last() =~= loaded.drop_last());
    }
}

/// What is loaded of all hosts, where nobody writes in between, adds up to the statistics of
/// the pool.
pub proof fn law_total_is_stats(g: PoolGeometry, m: Seq<u8>, loaded: Seq<PoolStats>)
    requires
        loaded.len() <= g.max_hosts,
        forall|h: u16|
            h < loaded.len() ==> loaded[h as int] == #[trigger] metrics::host_stats(g, m, h),
    ensures
        metrics::total(loaded) == metrics::stats_of(g, m, loaded.len() as int),
    decreases loaded.len(),
{
    if loaded.len() > 0 {
        let less = loaded.drop_last();
        assert forall|h: u16| h < less.len() implies less[h as int] == #[trigger] metrics::host_stats(
            g,
            m,
            h,
        ) by {
            assert(loaded[h as int] == metrics::host_stats(g, m, h));
        }
        law_total_is_stats(g, m, less);
        let h = (loaded.len() - 1) as u16;
        assert(loaded[h as int] == metrics::host_stats(g, m, h));
    }
}

/// Where the counters of a host lie: one word each, in a block of their own behind the
/// records.
pub proof fn law_counter_places(g: PoolGeometry, m: Seq<u8>, host: u16)
    requires
        g.wf(),
    ensures
        ({
            let at = 64 + g.capacity * (64 + g.payload_size) + 64 * host;
            metrics::host_stats(g, m, host) == (PoolStats {
                appends_total: mem::u64_at(m, at),
                appends_failed: mem::u64_at(m, at + 8),
                bytes_written: mem::u64_at(m, at + 16),
                reads_total: mem::u64_at(m, at + 24),
                checksum_failures: mem::u64_at(m, at + 32),
                recovery_runs: mem::u64_at(m, at + 40),
                abandoned_found: mem::u64_at(m, at + 48),
            })
        }),
{
    layout::law_places(g, 0, host as int);
}

/// What contracts say of a trim is said of the count that the caller gets.
pub proof fn law_trim_shown(trim: TrimResult, error: FenceError)
    ensures
        compaction::trimmed_count(Ok(trim)) == Ok::<u64, FenceError>(trim.trimmed_count),
        compaction::trimmed_count(Err(error)) == Err::<u64, FenceError>(error),
{
}

} // verus!

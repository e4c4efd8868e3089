//! What holds of the log as a whole, on a pool that one host has to itself.
use crate::engine;
use crate::error::FenceError;
use crate::layout;
use crate::layout::{
    PoolGeometry, HDR_CAPACITY, HDR_COMMITTED_TAIL, HDR_EPOCH, HDR_MAGIC, HDR_MAX_HOSTS,
    HDR_RECORD_SIZE, HDR_RESERVE_TAIL, HEADER_SIZE, MAGIC, REC_CHECKSUM, REC_DATA_LEN, REC_INDEX,
    REC_PAYLOAD, REC_TERM, REC_WRITER_ID, STATE_ABANDONED, STATE_COMMITTED, STATE_FREE,
};
use crate::memory as mem;
use crate::pool;
use crate::recovery;
use vstd::bytes::*;
use vstd::prelude::*;

verus! {

/// Moving the committed tail on changes that word of the header and nothing else.
pub(crate) proof fn lemma_swept(g: PoolGeometry, m: Seq<u8>)
    requires
        g.fits(m.len()),
    ensures
        pool::swept(g, m).len() == m.len(),
        pool::committed_tail(pool::swept(g, m)) == pool::swept_tail(g, m),
        pool::swept_tail(g, m) == pool::sweep(g, m, pool::committed_tail(m) as int),
        mem::agree(pool::swept(g, m), m, 0, HDR_COMMITTED_TAIL as int),
        mem::agree(pool::swept(g, m), m, HDR_COMMITTED_TAIL + 8, m.len() as int),
{
    lemma_auto_spec_u64_to_from_le_bytes();
    mem::lemma_put_then_u64(m, HDR_COMMITTED_TAIL as int, pool::swept_tail(g, m));
    pool::lemma_sweep_range(g, m, pool::committed_tail(m) as int);
}

/// Filling a slot leaves a complete record there and changes nothing else.
pub(crate) proof fn lemma_filled_slot(
    g: PoolGeometry,
    m: Seq<u8>,
    slot: u64,
    host: u16,
    term: u64,
    data: Seq<u8>,
)
    requires
        g.fits(m.len()),
        slot < g.capacity,
        data.len() <= g.payload_size,
    ensures
        ({
            let after = pool::filled(g, m, slot, host, term, data);
            let at = g.record_at(slot as int);
            &&& after.len() == m.len()
            &&& pool::state_of(g, after, slot as int) == STATE_COMMITTED
            &&& pool::fields_of(g, after, slot as int) == pool::appended_fields(
                slot,
                host,
                term,
                data,
            )
            &&& mem::agree(after, m, 0, at)
            &&& mem::agree(after, m, at + g.record_size, m.len() as int)
        }),
{
    layout::law_layout(g);
    lemma_auto_spec_u64_to_from_le_bytes();
    lemma_auto_spec_u32_to_from_le_bytes();
    let at = g.record_at(slot as int);
    let f = pool::appended_fields(slot, host, term, data);
    let after = pool::filled(g, m, slot, host, term, data);
    assert(after.subrange(at + REC_TERM, at + REC_TERM + 8) =~= spec_u64_to_le_bytes(f.term));
    assert(after.subrange(at + REC_INDEX, at + REC_INDEX + 8) =~= spec_u64_to_le_bytes(f.index));
    assert(after.subrange(at + REC_WRITER_ID, at + REC_WRITER_ID + 8) =~= spec_u64_to_le_bytes(
        f.writer_id,
    ));
    assert(after.subrange(at + REC_DATA_LEN, at + REC_DATA_LEN + 4) =~= spec_u32_to_le_bytes(
        f.data_len,
    ));
    assert(after.subrange(at + REC_CHECKSUM, at + REC_CHECKSUM + 8) =~= spec_u64_to_le_bytes(
        f.checksum,
    ));
    assert(mem::bytes_at(after, at + REC_PAYLOAD, data.len() as int) =~= data);
    assert(pool::fields_of(g, after, slot as int) =~= f);
}

/// What an append that is accepted makes of the pool, part by part.
pub proof fn lemma_appended(g: PoolGeometry, m: Seq<u8>, host: u16, term: u64, data: Seq<u8>)
    requires
        g.fits(m.len()),
        host < g.max_hosts,
        pool::append_result(g, m, data.len()) is Ok,
    ensures
        ({
            let after = pool::appended(g, m, host, term, data);
            let slot = pool::reserve_tail(m);
            let at = g.record_at(slot as int);
            &&& after.len() == m.len()
            &&& pool::reserve_tail(after) == slot + 1
            &&& pool::state_of(g, after, slot as int) == STATE_COMMITTED
            &&& pool::fields_of(g, after, slot as int) == pool::appended_fields(
                slot,
                host,
                term,
                data,
            )
            &&& forall|s: int|
                0 <= s < g.capacity && s != slot ==> #[trigger] pool::state_of(g, after, s)
                    == pool::state_of(g, m, s)
            &&& forall|s: int|
                0 <= s < g.capacity && s != slot ==> #[trigger] pool::fields_of(g, after, s)
                    == pool::fields_of(g, m, s)
            &&& pool::committed_tail(after) == pool::sweep(
                g,
                after,
                pool::committed_tail(m) as int,
            )
            &&& mem::agree(after, m, 0, HDR_COMMITTED_TAIL as int)
            &&& mem::agree(after, m, HDR_EPOCH as int, at)
            &&& mem::agree(after, m, at + g.record_size, g.record_at(g.capacity as int))
        }),
{
    layout::law_layout(g);
    lemma_auto_spec_u64_to_from_le_bytes();
    let slot = pool::reserve_tail(m);
    let at = g.record_at(slot as int);
    let end = g.record_at(g.capacity as int);
    assert(at + g.record_size <= end);
    let m1 = mem::put_u64(m, HDR_RESERVE_TAIL as int, (slot + 1) as u64);
    mem::lemma_put_then_u64(m, HDR_RESERVE_TAIL as int, (slot + 1) as u64);
    let m2 = pool::filled(g, m1, slot, host, term, data);
    lemma_filled_slot(g, m1, slot, host, term, data);
    let m3 = pool::swept(g, m2);
    lemma_swept(g, m2);
    let m4 = pool::counted(g, m3, host, pool::METRICS_APPENDS_TOTAL, 1);
    pool::lemma_counted_keeps_log(g, m3, host, pool::METRICS_APPENDS_TOTAL, 1);
    let m5 = pool::counted(g, m4, host, pool::METRICS_BYTES_WRITTEN, data.len() as u64);
    pool::lemma_counted_keeps_log(g, m4, host, pool::METRICS_BYTES_WRITTEN, data.len() as u64);
    pool::lemma_same_log(g, m5, m4);
    pool::lemma_same_log(g, m4, m3);
    mem::lemma_agree(m3, m2, HDR_COMMITTED_TAIL + 8, m.len() as int);
    mem::lemma_agree(m2, m1, 0, at);
    mem::lemma_agree(m1, m, 0, HDR_RESERVE_TAIL as int);
    assert forall|s: int| 0 <= s < g.capacity implies #[trigger] pool::state_of(g, m5, s)
        == pool::state_of(g, m2, s) by {
        assert(pool::state_of(g, m4, s) == pool::state_of(g, m3, s));
        assert(HEADER_SIZE <= g.record_at(s));
        assert(g.record_at(s) + g.record_size <= end);
    }
    assert forall|s: int| 0 <= s < g.capacity implies #[trigger] pool::fields_of(g, m5, s)
        == pool::fields_of(g, m2, s) by {
        assert(pool::fields_of(g, m4, s) == pool::fields_of(g, m3, s));
        assert(HEADER_SIZE <= g.record_at(s));
        assert(g.record_at(s) + g.record_size <= end);
        pool::lemma_fields_agree(g, m3, m2, s);
    }
    assert forall|s: int| 0 <= s < g.capacity && s != slot implies #[trigger] pool::state_of(
        g,
        m5,
        s,
    ) == pool::state_of(g, m, s) && pool::fields_of(g, m5, s) == pool::fields_of(g, m, s) by {
        assert(HEADER_SIZE <= g.record_at(s));
        assert(g.record_at(s) + g.record_size <= end);
        if s < slot {
            assert(g.record_at(s) + g.record_size <= at);
        } else {
            assert(at + g.record_size <= g.record_at(s));
        }
        assert(pool::state_of(g, m5, s) == pool::state_of(g, m2, s));
        assert(pool::fields_of(g, m5, s) == pool::fields_of(g, m2, s));
        pool::lemma_fields_agree(g, m2, m, s);
    }
    assert forall|s: int| 0 <= s < g.capacity && s != slot implies #[trigger] pool::fields_of(
        g,
        m5,
        s,
    ) == pool::fields_of(g, m, s) by {
        assert(pool::state_of(g, m5, s) == pool::state_of(g, m, s));
    }
    pool::lemma_sweep_agree(g, m5, m2, pool::committed_tail(m) as int);
}

/// What was appended is what a read of the returned index gives back, as soon as the
/// committed tail has come past it. Without a gap before it, that is at once.
pub proof fn law_append_then_read(
    g: PoolGeometry,
    m: Seq<u8>,
    host: u16,
    term: u64,
    data: Seq<u8>,
)
    requires
        g.fits(m.len()),
        host < g.max_hosts,
        pool::append_result(g, m, data.len()) is Ok,
    ensures
        ({
            let after = pool::appended(g, m, host, term, data);
            let index = pool::append_result(g, m, data.len())->Ok_0;
            &&& index <= pool::committed_tail(after) ==> pool::read_result(g, after, index) == Ok::<
                Option<pool::RecordView>,
                FenceError,
            >(Some(pool::RecordView { index, term, writer_id: host as u64, data }))
            &&& pool::committed_tail(m) == pool::reserve_tail(m) ==> index
                <= pool::committed_tail(after)
        }),
{
    lemma_appended(g, m, host, term, data);
    let after = pool::appended(g, m, host, term, data);
    let slot = pool::reserve_tail(m);
    let index = pool::append_result(g, m, data.len())->Ok_0;
    pool::lemma_slot_named(g, index);
    assert(pool::fields_of(g, after, index - 1).intact());
    if pool::committed_tail(m) == slot {
        pool::lemma_sweep_range(g, after, slot + 1);
        assert(pool::sweep(g, after, slot as int) == pool::sweep(g, after, slot + 1));
    }
}

/// An append leaves every other record as it was: what could be read before reads the same.
pub proof fn law_append_keeps_records(
    g: PoolGeometry,
    m: Seq<u8>,
    host: u16,
    term: u64,
    data: Seq<u8>,
    index: u64,
)
    requires
        g.fits(m.len()),
        host < g.max_hosts,
        index <= g.capacity,
        index <= pool::reserve_tail(m),
        pool::readable(g, pool::committed_tail(m), index),
    ensures
        pool::read_result(g, pool::appended(g, m, host, term, data), index) == pool::read_result(
            g,
            m,
            index,
        ),
        pool::committed_tail(m) <= pool::committed_tail(pool::appended(g, m, host, term, data)),
{
    let after = pool::appended(g, m, host, term, data);
    pool::lemma_slot_named(g, index);
    if pool::append_result(g, m, data.len()) is Ok {
        lemma_appended(g, m, host, term, data);
        pool::lemma_sweep_range(g, after, pool::committed_tail(m) as int);
        assert(pool::state_of(g, after, index - 1) == pool::state_of(g, m, index - 1));
        assert(pool::fields_of(g, after, index - 1) == pool::fields_of(g, m, index - 1));
    } else {
        pool::lemma_counted_keeps_log(g, m, host, pool::METRICS_APPENDS_FAILED, 1);
        pool::lemma_same_log(g, after, m);
    }
}

/// A refused append does not touch the log.
pub proof fn law_refused_append_keeps_log(
    g: PoolGeometry,
    m: Seq<u8>,
    host: u16,
    term: u64,
    data: Seq<u8>,
)
    requires
        g.fits(m.len()),
        host < g.max_hosts,
        pool::append_result(g, m, data.len()) is Err,
    ensures
        mem::agree(
            pool::appended(g, m, host, term, data),
            m,
            0,
            g.record_at(g.capacity as int),
        ),
{
    pool::lemma_counted_keeps_log(g, m, host, pool::METRICS_APPENDS_FAILED, 1);
}

/// A read does not touch the log.
pub proof fn law_read_keeps_log(g: PoolGeometry, m: Seq<u8>, host: u16, index: u64)
    requires
        g.fits(m.len()),
        host < g.max_hosts,
    ensures
        pool::after_read(g, m, host, index).len() == m.len(),
        mem::agree(pool::after_read(g, m, host, index), m, 0, g.record_at(g.capacity as int)),
{
    pool::lemma_counted_keeps_log(g, m, host, pool::METRICS_READS_TOTAL, 1);
    pool::lemma_counted_keeps_log(g, m, host, pool::METRICS_CHECKSUM_FAILURES, 1);
}

/// The first `n` slots already are in the states that `f` gives: replacing changes nothing.
pub(crate) proof fn lemma_states_settled(g: PoolGeometry, m: Seq<u8>, n: int, f: spec_fn(int) -> u8)
    requires
        g.fits(m.len()),
        n <= g.capacity,
        forall|s: int| 0 <= s < n ==> #[trigger] pool::state_of(g, m, s) == f(s),
    ensures
        pool::with_states(g, m, n, f) == m,
        pool::states_changed(g, m, n, f) == 0,
    decreases n,
{
    if n > 0 {
        lemma_states_settled(g, m, n - 1, f);
        layout::law_layout(g);
        assert(pool::state_of(g, m, n - 1) == f(n - 1));
        assert(mem::put_u8(m, g.record_at(n - 1), f(n - 1)) =~= m);
    }
}

/// The number of changed states is at most the number of slots looked at.
pub(crate) proof fn lemma_states_changed_bound(g: PoolGeometry, m: Seq<u8>, n: int, f: spec_fn(int) -> u8)
    ensures
        0 <= n ==> pool::states_changed(g, m, n, f) <= n,
    decreases n,
{
    if n > 0 {
        lemma_states_changed_bound(g, m, n - 1, f);
    }
}

/// What recovery makes of the pool, part by part.
pub proof fn lemma_recovered(g: PoolGeometry, m: Seq<u8>)
    requires
        g.fits(m.len()),
    ensures
        ({
            let after = pool::recovered(g, m);
            let limit = pool::scan_limit(g, pool::reserve_tail(m));
            &&& after.len() == m.len()
            &&& pool::reserve_tail(after) == pool::reserve_tail(m)
            &&& forall|s: int|
                0 <= s < g.capacity ==> #[trigger] pool::state_of(g, after, s) == (if s < limit {
                    pool::recovered_state(
                        pool::state_of(g, m, s),
                        pool::fields_of(g, m, s).intact(),
                    )
                } else {
                    pool::state_of(g, m, s)
                })
            &&& forall|s: int|
                0 <= s < g.capacity ==> #[trigger] pool::fields_of(g, after, s) == pool::fields_of(
                    g,
                    m,
                    s,
                )
            &&& pool::committed_tail(after) == pool::sweep(
                g,
                after,
                pool::committed_tail(m) as int,
            )
            &&& recovery::recovery_report(g, m).committed_tail == pool::committed_tail(after)
            &&& mem::agree(after, m, 0, HDR_COMMITTED_TAIL as int)
            &&& mem::agree(after, m, HDR_COMMITTED_TAIL + 8, HEADER_SIZE as int)
            &&& mem::agree(after, m, g.record_at(g.capacity as int), m.len() as int)
        }),
{
    layout::law_layout(g);
    let limit = pool::scan_limit(g, pool::reserve_tail(m)) as int;
    let f = pool::recovered_states(g, m);
    let mended = pool::mended(g, m);
    let after = pool::recovered(g, m);
    pool::lemma_with_states(g, m, limit, f);
    lemma_swept(g, mended);
    mem::lemma_agree(after, mended, HDR_COMMITTED_TAIL + 8, m.len() as int);
    mem::lemma_agree(mended, m, 0, g.record_at(0));
    assert forall|s: int| 0 <= s < g.capacity implies #[trigger] pool::state_of(g, after, s)
        == pool::state_of(g, mended, s) by {
        assert(HEADER_SIZE <= g.record_at(s));
        assert(g.record_at(s) + g.record_size <= g.record_at(g.capacity as int));
    }
    assert forall|s: int| 0 <= s < g.capacity implies #[trigger] pool::fields_of(g, after, s)
        == pool::fields_of(g, m, s) by {
        assert(HEADER_SIZE <= g.record_at(s));
        assert(g.record_at(s) + g.record_size <= g.record_at(g.capacity as int));
        assert(mem::agree(mended, m, g.record_at(s) + 1, g.record_at(s) + g.record_size));
        pool::lemma_fields_agree(g, after, mended, s);
        pool::lemma_fields_agree(g, mended, m, s);
    }
    assert forall|s: int| 0 <= s < g.capacity implies #[trigger] pool::state_of(g, after, s) == (if s
        < limit {
        pool::recovered_state(pool::state_of(g, m, s), pool::fields_of(g, m, s).intact())
    } else {
        pool::state_of(g, m, s)
    }) by {
        assert(pool::state_of(g, after, s) == pool::state_of(g, mended, s));
    }
    pool::lemma_sweep_agree(g, after, mended, pool::committed_tail(m) as int);
}

/// A pool whose log is as recovery leaves it: another run changes nothing.
proof fn lemma_recovered_again(g: PoolGeometry, m: Seq<u8>, a: Seq<u8>)
    requires
        g.fits(m.len()),
        a.len() == m.len(),
        mem::agree(a, pool::recovered(g, m), 0, g.record_at(g.capacity as int)),
    ensures
        pool::recovered(g, a) == a,
        recovery::recovery_report(g, a) == (recovery::RecoveryReport {
            abandoned_count: 0,
            ..recovery::recovery_report(g, m)
        }),
{
    let once = pool::recovered(g, m);
    lemma_recovered(g, m);
    pool::lemma_same_log(g, a, once);
    let limit = pool::scan_limit(g, pool::reserve_tail(m)) as int;
    let f = pool::recovered_states(g, a);
    assert forall|s: int| 0 <= s < limit implies #[trigger] pool::state_of(g, a, s) == f(s) by {
        assert(pool::state_of(g, a, s) == pool::state_of(g, once, s));
        assert(pool::fields_of(g, a, s) == pool::fields_of(g, once, s));
        assert(pool::fields_of(g, once, s) == pool::fields_of(g, m, s));
    }
    lemma_states_settled(g, a, limit, f);
    let tail = pool::committed_tail(m) as int;
    pool::lemma_sweep_range(g, once, tail);
    let swept = pool::committed_tail(once) as int;
    assert(pool::sweep(g, once, swept) == swept);
    pool::lemma_sweep_agree(g, a, once, swept);
    mem::lemma_put_same_u64(a, HDR_COMMITTED_TAIL as int);
}

/// Recovery is idempotent: a second run changes nothing and abandons nothing.
pub proof fn law_recovery_idempotent(g: PoolGeometry, m: Seq<u8>)
    requires
        g.fits(m.len()),
    ensures
        pool::recovered(g, pool::recovered(g, m)) == pool::recovered(g, m),
        recovery::recovery_report(g, pool::recovered(g, m)) == (recovery::RecoveryReport {
            abandoned_count: 0,
            ..recovery::recovery_report(g, m)
        }),
{
    lemma_recovered(g, m);
    lemma_recovered_again(g, m, pool::recovered(g, m));
}

/// After recovery no claimed slot is in flight or damaged: each is free, abandoned, or
/// holds a committed record with a matching checksum.
pub proof fn law_recovery_settles(g: PoolGeometry, m: Seq<u8>, slot: int)
    requires
        g.fits(m.len()),
        0 <= slot < g.capacity,
        slot < pool::reserve_tail(m),
    ensures
        ({
            let after = pool::recovered(g, m);
            let state = pool::state_of(g, after, slot);
            ||| state == STATE_FREE
            ||| state == STATE_ABANDONED
            ||| state == STATE_COMMITTED && pool::fields_of(g, after, slot).intact()
        }),
{
    lemma_recovered(g, m);
    assert(pool::fields_of(g, pool::recovered(g, m), slot) == pool::fields_of(g, m, slot));
}

/// Recovery keeps every record that could be read; damaged records read as missing.
pub proof fn law_recovery_keeps_records(g: PoolGeometry, m: Seq<u8>, index: u64)
    requires
        g.fits(m.len()),
        index <= g.capacity,
        index <= pool::reserve_tail(m),
        pool::readable(g, pool::committed_tail(m), index),
    ensures
        pool::read_result(g, pool::recovered(g, m), index) == (match pool::read_result(
            g,
            m,
            index,
        ) {
            Err(_) => Ok(None),
            kept => kept,
        }),
        pool::committed_tail(m) <= pool::committed_tail(pool::recovered(g, m)),
{
    lemma_recovered(g, m);
    let after = pool::recovered(g, m);
    pool::lemma_slot_named(g, index);
    pool::lemma_sweep_range(g, after, pool::committed_tail(m) as int);
    assert(pool::fields_of(g, after, index - 1) == pool::fields_of(g, m, index - 1));
    assert(pool::state_of(g, after, index - 1) == pool::recovered_state(
        pool::state_of(g, m, index - 1),
        pool::fields_of(g, m, index - 1).intact(),
    ));
}

/// Recovery moves the committed tail past exactly the committed slots that follow it: it
/// stops at the first slot that is not committed, or at the end of the pool.
pub proof fn law_recovery_stops_at_gap(g: PoolGeometry, m: Seq<u8>)
    requires
        g.fits(m.len()),
    ensures
        ({
            let after = pool::recovered(g, m);
            let tail = pool::committed_tail(after);
            &&& pool::committed_tail(m) <= tail
            &&& forall|s: int|
                pool::committed_tail(m) <= s < tail ==> #[trigger] pool::state_of(g, after, s)
                    == STATE_COMMITTED
            &&& tail < g.capacity ==> pool::state_of(g, after, tail as int) != STATE_COMMITTED
        }),
{
    lemma_recovered(g, m);
    pool::lemma_sweep_range(g, pool::recovered(g, m), pool::committed_tail(m) as int);
}

/// What a trim makes of the pool, part by part.
pub(crate) proof fn lemma_trimmed(g: PoolGeometry, m: Seq<u8>, up_to: u64)
    requires
        g.fits(m.len()),
        pool::trimmable(g, pool::committed_tail(m), up_to),
        up_to <= g.capacity,
    ensures
        ({
            let after = pool::trimmed(g, m, up_to);
            &&& after.len() == m.len()
            &&& pool::reserve_tail(after) == pool::reserve_tail(m)
            &&& pool::committed_tail(after) == pool::committed_tail(m)
            &&& forall|s: int|
                0 <= s < g.capacity ==> #[trigger] pool::state_of(g, after, s) == (if s < up_to
                    && pool::state_of(g, m, s) == STATE_COMMITTED {
                    STATE_ABANDONED
                } else {
                    pool::state_of(g, m, s)
                })
            &&& forall|s: int|
                0 <= s < g.capacity ==> #[trigger] pool::fields_of(g, after, s) == pool::fields_of(
                    g,
                    m,
                    s,
                )
            &&& mem::agree(after, m, 0, HEADER_SIZE as int)
            &&& mem::agree(after, m, g.record_at(g.capacity as int), m.len() as int)
        }),
{
    layout::law_layout(g);
    let f = pool::trimmed_states(g, m);
    let after = pool::trimmed(g, m, up_to);
    pool::lemma_with_states(g, m, up_to as int, f);
    mem::lemma_agree(after, m, 0, g.record_at(0));
    assert forall|s: int| 0 <= s < g.capacity implies #[trigger] pool::fields_of(g, after, s)
        == pool::fields_of(g, m, s) by {
        assert(mem::agree(after, m, g.record_at(s) + 1, g.record_at(s) + g.record_size));
        pool::lemma_fields_agree(g, after, m, s);
    }
}

/// Trimming is idempotent: a second trim to the same index changes and counts nothing.
pub proof fn law_trim_idempotent(g: PoolGeometry, m: Seq<u8>, up_to: u64)
    requires
        g.fits(m.len()),
        pool::trimmable(g, pool::committed_tail(m), up_to),
        up_to <= g.capacity,
    ensures
        pool::trimmed(g, pool::trimmed(g, m, up_to), up_to) == pool::trimmed(g, m, up_to),
        pool::trim_result(g, pool::trimmed(g, m, up_to), up_to) == Ok::<u64, FenceError>(0),
{
    lemma_trimmed(g, m, up_to);
    let once = pool::trimmed(g, m, up_to);
    lemma_states_settled(g, once, up_to as int, pool::trimmed_states(g, once));
}

/// Trimmed records read as missing; records past the trim read as before. The committed
/// tail stays where it is.
pub proof fn law_trim_reads(g: PoolGeometry, m: Seq<u8>, up_to: u64, index: u64)
    requires
        g.fits(m.len()),
        pool::trimmable(g, pool::committed_tail(m), up_to),
        up_to <= g.capacity,
        pool::readable(g, pool::committed_tail(m), index),
        index <= g.capacity,
    ensures
        pool::committed_tail(pool::trimmed(g, m, up_to)) == pool::committed_tail(m),
        pool::read_result(g, pool::trimmed(g, m, up_to), index) == (if index <= up_to {
            Ok(None)
        } else {
            pool::read_result(g, m, index)
        }),
{
    lemma_trimmed(g, m, up_to);
    let after = pool::trimmed(g, m, up_to);
    assert(pool::fields_of(g, after, index - 1) == pool::fields_of(g, m, index - 1));
    assert(pool::state_of(g, after, index - 1) == (if index - 1 < up_to && pool::state_of(
        g,
        m,
        index - 1,
    ) == STATE_COMMITTED {
        STATE_ABANDONED
    } else {
        pool::state_of(g, m, index - 1)
    }));
}

/// A trim abandons at most `up_to` records; a trim to zero does nothing.
pub proof fn law_trim_count(g: PoolGeometry, m: Seq<u8>, up_to: u64)
    requires
        g.fits(m.len()),
        pool::trimmable(g, pool::committed_tail(m), up_to),
        up_to <= g.capacity,
    ensures
        pool::trim_result(g, m, up_to) matches Ok(n) && n <= up_to,
        up_to == 0 ==> pool::trimmed(g, m, up_to) == m,
{
    lemma_states_changed_bound(g, m, up_to as int, pool::trimmed_states(g, m));
}

/// What always holds of a log that is only used through the engine.
///
/// The committed tail does not pass the reserve tail, which stays within the pool; every
/// slot before the committed tail was committed once; every committed slot holds a complete
/// record; no slot past the reserve tail has been touched.
pub open spec fn log_ok(g: PoolGeometry, m: Seq<u8>) -> bool {
    &&& pool::committed_tail(m) <= pool::reserve_tail(m) <= g.capacity
    &&& forall|s: int|
        0 <= s < pool::committed_tail(m) ==> #[trigger] pool::state_of(g, m, s) == STATE_COMMITTED
            || pool::state_of(g, m, s) == STATE_ABANDONED
    &&& forall|s: int|
        0 <= s < g.capacity && #[trigger] pool::state_of(g, m, s) == STATE_COMMITTED
            ==> pool::fields_of(g, m, s).intact() && pool::fields_of(g, m, s).index == s + 1
    &&& forall|s: int|
        pool::reserve_tail(m) <= s < g.capacity ==> #[trigger] pool::state_of(g, m, s) == STATE_FREE
}

/// A fresh pool is an empty log: nothing is committed, nothing is claimed.
pub proof fn law_fresh_log(g: PoolGeometry, m: Seq<u8>)
    requires
        g.fits(m.len()),
        forall|s: int| 0 <= s < g.capacity ==> #[trigger] pool::state_of(g, m, s) == STATE_FREE,
    ensures
        log_ok(g, engine::with_header(g, m)),
        pool::committed_tail(engine::with_header(g, m)) == 0,
        pool::reserve_tail(engine::with_header(g, m)) == 0,
{
    lemma_header(g, m);
    let after = engine::with_header(g, m);
    layout::law_layout(g);
    assert forall|s: int| 0 <= s < g.capacity implies #[trigger] pool::state_of(g, after, s)
        == STATE_FREE by {
        assert(HEADER_SIZE <= g.record_at(s));
        assert(pool::state_of(g, m, s) == STATE_FREE);
    }
}

/// An append keeps the log well-formed.
pub proof fn law_append_keeps_log_ok(
    g: PoolGeometry,
    m: Seq<u8>,
    host: u16,
    term: u64,
    data: Seq<u8>,
)
    requires
        g.fits(m.len()),
        host < g.max_hosts,
        log_ok(g, m),
    ensures
        log_ok(g, pool::appended(g, m, host, term, data)),
{
    let after = pool::appended(g, m, host, term, data);
    if pool::append_result(g, m, data.len()) is Ok {
        lemma_appended(g, m, host, term, data);
        let slot = pool::reserve_tail(m);
        let tail = pool::committed_tail(m) as int;
        pool::lemma_sweep_range(g, after, tail);
        if pool::committed_tail(after) > slot + 1 {
            assert(pool::state_of(g, after, slot + 1) == STATE_COMMITTED);
            assert(pool::state_of(g, m, slot + 1) == STATE_FREE);
        }
        assert forall|s: int| 0 <= s < g.capacity && #[trigger] pool::state_of(g, after, s)
            == STATE_COMMITTED implies pool::fields_of(g, after, s).intact() && pool::fields_of(
            g,
            after,
            s,
        ).index == s + 1 by {
            if s != slot {
                assert(pool::state_of(g, m, s) == STATE_COMMITTED);
                assert(pool::fields_of(g, after, s) == pool::fields_of(g, m, s));
            }
        }
        assert forall|s: int| 0 <= s < pool::committed_tail(after) implies #[trigger] pool::state_of(
            g,
            after,
            s,
        ) == STATE_COMMITTED || pool::state_of(g, after, s) == STATE_ABANDONED by {
            if s < tail {
                assert(pool::state_of(g, m, s) == STATE_COMMITTED || pool::state_of(g, m, s)
                    == STATE_ABANDONED);
            }
        }
    } else {
        pool::lemma_counted_keeps_log(g, m, host, pool::METRICS_APPENDS_FAILED, 1);
        lemma_same_log_ok(g, m, after);
    }
}

/// A read keeps the log well-formed, and on a well-formed log it never finds damage.
pub proof fn law_read_keeps_log_ok(g: PoolGeometry, m: Seq<u8>, host: u16, index: u64)
    requires
        g.fits(m.len()),
        host < g.max_hosts,
        log_ok(g, m),
    ensures
        log_ok(g, pool::after_read(g, m, host, index)),
        !(pool::read_result(g, m, index) matches Err(FenceError::ChecksumMismatch { .. })),
        pool::read_result(g, m, index) matches Ok(Some(record)) ==> record.index == index,
{
    law_read_keeps_log(g, m, host, index);
    lemma_same_log_ok(g, m, pool::after_read(g, m, host, index));
    if pool::readable(g, pool::committed_tail(m), index) {
        assert(pool::state_of(g, m, index - 1) == STATE_COMMITTED ==> pool::fields_of(
            g,
            m,
            index - 1,
        ).intact());
    }
}

/// A trim keeps the log well-formed.
pub proof fn law_trim_keeps_log_ok(g: PoolGeometry, m: Seq<u8>, up_to: u64)
    requires
        g.fits(m.len()),
        log_ok(g, m),
    ensures
        log_ok(g, pool::trimmed(g, m, up_to)),
{
    if pool::trimmable(g, pool::committed_tail(m), up_to) {
        lemma_trimmed(g, m, up_to);
        let after = pool::trimmed(g, m, up_to);
        assert forall|s: int| 0 <= s < g.capacity && #[trigger] pool::state_of(g, after, s)
            == STATE_COMMITTED implies pool::fields_of(g, after, s).intact() && pool::fields_of(
            g,
            after,
            s,
        ).index == s + 1 by {
            assert(pool::state_of(g, m, s) == STATE_COMMITTED);
            assert(pool::fields_of(g, after, s) == pool::fields_of(g, m, s));
        }
        assert forall|s: int| 0 <= s < pool::committed_tail(after) implies #[trigger] pool::state_of(
            g,
            after,
            s,
        ) == STATE_COMMITTED || pool::state_of(g, after, s) == STATE_ABANDONED by {
            assert(pool::state_of(g, m, s) == STATE_COMMITTED || pool::state_of(g, m, s)
                == STATE_ABANDONED);
        }
    }
}

/// Recovery keeps the log well-formed.
pub proof fn law_recovery_keeps_log_ok(g: PoolGeometry, m: Seq<u8>)
    requires
        g.fits(m.len()),
        log_ok(g, m),
    ensures
        log_ok(g, pool::recovered(g, m)),
{
    lemma_recovered(g, m);
    let after = pool::recovered(g, m);
    let tail = pool::committed_tail(m) as int;
    pool::lemma_sweep_range(g, after, tail);
    assert forall|s: int| 0 <= s < g.capacity && #[trigger] pool::state_of(g, after, s)
        == STATE_COMMITTED implies pool::fields_of(g, after, s).intact() && pool::fields_of(
        g,
        after,
        s,
    ).index == s + 1 by {
        assert(pool::state_of(g, m, s) == STATE_COMMITTED);
        assert(pool::fields_of(g, after, s) == pool::fields_of(g, m, s));
    }
    if pool::committed_tail(after) > pool::reserve_tail(m) {
        assert(pool::state_of(g, after, pool::reserve_tail(m) as int) == STATE_COMMITTED);
        assert(pool::state_of(g, m, pool::reserve_tail(m) as int) == STATE_FREE);
    }
    assert forall|s: int| 0 <= s < pool::committed_tail(after) implies #[trigger] pool::state_of(
        g,
        after,
        s,
    ) == STATE_COMMITTED || pool::state_of(g, after, s) == STATE_ABANDONED by {
        if s < tail {
            assert(pool::state_of(g, m, s) == STATE_COMMITTED || pool::state_of(g, m, s)
                == STATE_ABANDONED);
        }
    }
    assert forall|s: int| pool::reserve_tail(after) <= s < g.capacity implies #[trigger] pool::state_of(
        g,
        after,
        s,
    ) == STATE_FREE by {
        assert(pool::state_of(g, m, s) == STATE_FREE);
    }
}

proof fn lemma_same_log_ok(g: PoolGeometry, m: Seq<u8>, after: Seq<u8>)
    requires
        g.fits(m.len()),
        after.len() == m.len(),
        mem::agree(after, m, 0, g.record_at(g.capacity as int)),
        log_ok(g, m),
    ensures
        log_ok(g, after),
{
    pool::lemma_same_log(g, after, m);
    assert forall|s: int| 0 <= s < g.capacity && #[trigger] pool::state_of(g, after, s)
        == STATE_COMMITTED implies pool::fields_of(g, after, s).intact() && pool::fields_of(
        g,
        after,
        s,
    ).index == s + 1 by {
        assert(pool::state_of(g, m, s) == STATE_COMMITTED);
        assert(pool::fields_of(g, after, s) == pool::fields_of(g, m, s));
    }
}

pub(crate) proof fn lemma_header(g: PoolGeometry, m: Seq<u8>)
    requires
        g.fits(m.len()),
    ensures
        ({
            let after = engine::with_header(g, m);
            &&& after.len() == m.len()
            &&& mem::u64_at(after, HDR_MAGIC as int) == MAGIC
            &&& mem::u64_at(after, HDR_CAPACITY as int) == g.capacity
            &&& mem::u64_at(after, HDR_RECORD_SIZE as int) == g.record_size
            &&& mem::u64_at(after, HDR_MAX_HOSTS as int) == g.max_hosts
            &&& pool::committed_tail(after) == 0
            &&& pool::reserve_tail(after) == 0
            &&& mem::agree(after, m, HEADER_SIZE as int, m.len() as int)
        }),
{
    broadcast use mem::group_put;

    lemma_auto_spec_u64_to_from_le_bytes();
    layout::law_layout(g);
}

/// A pool that was created is found again by its header: same magic number, same
/// dimensions.
pub proof fn law_create_then_open(g: PoolGeometry, m: Seq<u8>)
    requires
        g.fits(m.len()),
    ensures
        mem::u64_at(engine::with_header(g, m), HDR_MAGIC as int) == MAGIC,
        engine::header_dimensions(engine::with_header(g, m)) == Some(g),
{
    lemma_header(g, m);
    layout::law_layout(g);
    assert(g.record_size % 8 == 0);
    assert(g.record_size * g.capacity == g.record_size as u64 * g.capacity as u64);
}

/// No operation changes the magic number or the dimensions in the header, so a pool can
/// be reopened at any time.
pub proof fn law_header_kept(
    g: PoolGeometry,
    m: Seq<u8>,
    host: u16,
    term: u64,
    data: Seq<u8>,
    index: u64,
)
    requires
        g.fits(m.len()),
        host < g.max_hosts,
    ensures
        forall|after: Seq<u8>|
            after == pool::appended(g, m, host, term, data) || after == pool::after_read(
                g,
                m,
                host,
                index,
            ) || after == pool::trimmed(g, m, index) || after == pool::recovered(g, m) || after
                == engine::recovered_and_counted(g, m, host)
                ==> #[trigger] engine::header_dimensions(after) == engine::header_dimensions(m)
                && mem::u64_at(after, HDR_MAGIC as int) == mem::u64_at(m, HDR_MAGIC as int),
{
    layout::law_layout(g);
    let t = HDR_COMMITTED_TAIL as int;
    let appended = pool::appended(g, m, host, term, data);
    if pool::append_result(g, m, data.len()) is Ok {
        lemma_appended(g, m, host, term, data);
    } else {
        law_refused_append_keeps_log(g, m, host, term, data);
    }
    mem::lemma_agree(appended, m, 0, t);
    law_read_keeps_log(g, m, host, index);
    mem::lemma_agree(pool::after_read(g, m, host, index), m, 0, t);
    pool::lemma_with_states_rest(
        g,
        m,
        pool::trim_slots(index) as int,
        pool::trimmed_states(g, m),
    );
    mem::lemma_agree(pool::trimmed(g, m, index), m, 0, t);
    lemma_recovered(g, m);
    mem::lemma_agree(pool::recovered(g, m), m, 0, t);
    mem::lemma_agree(engine::recovered_and_counted(g, m, host), m, 0, t);
}

/// Counters are independent: counting one thing of one host adds to that counter alone.
pub proof fn law_counters_independent(
    g: PoolGeometry,
    m: Seq<u8>,
    host: u16,
    counter: usize,
    n: u64,
    other_host: u16,
    other: usize,
)
    requires
        g.fits(m.len()),
        host < g.max_hosts,
        other_host < g.max_hosts,
        counter % 8 == 0,
        counter < 64,
        other % 8 == 0,
        other < 64,
    ensures
        pool::counter(g, pool::counted(g, m, host, counter, n), other_host, other) == (if host
            == other_host && counter == other {
            mem::wrapped_sum(pool::counter(g, m, host, counter), n)
        } else {
            pool::counter(g, m, other_host, other)
        }),
{
    broadcast use mem::group_put;

    layout::law_layout(g);
    lemma_auto_spec_u64_to_from_le_bytes();
}

/// Whatever a host counts shows in the pool's statistics: the sum over all hosts grows by
/// the same amount.
pub proof fn law_stats_count_all_hosts(
    g: PoolGeometry,
    m: Seq<u8>,
    host: u16,
    counter: usize,
    n: u64,
    other: usize,
    hosts: int,
)
    requires
        g.fits(m.len()),
        host < g.max_hosts,
        counter % 8 == 0,
        counter < 64,
        other % 8 == 0,
        other < 64,
        0 <= hosts <= g.max_hosts,
    ensures
        pool::counter_sum(g, pool::counted(g, m, host, counter, n), other, hosts) == (if host
            < hosts && counter == other {
            mem::wrapped_sum(pool::counter_sum(g, m, other, hosts), n)
        } else {
            pool::counter_sum(g, m, other, hosts)
        }),
    decreases hosts,
{
    if hosts > 0 {
        law_stats_count_all_hosts(g, m, host, counter, n, other, hosts - 1);
        law_counters_independent(g, m, host, counter, n, (hosts - 1) as u16, other);
    }
}

/// A trim is not counted; recovery as such neither (the engine counts the run).
pub proof fn law_uncounted(g: PoolGeometry, m: Seq<u8>, host: u16, counter: usize, up_to: u64)
    requires
        g.fits(m.len()),
        host < g.max_hosts,
        counter <= 56,
        up_to <= g.capacity,
    ensures
        pool::counter(g, pool::trimmed(g, m, up_to), host, counter) == pool::counter(
            g,
            m,
            host,
            counter,
        ),
        pool::counter(g, pool::recovered(g, m), host, counter) == pool::counter(
            g,
            m,
            host,
            counter,
        ),
{
    layout::law_layout(g);
    let end = g.record_at(g.capacity as int);
    if pool::trimmable(g, pool::committed_tail(m), up_to) {
        lemma_trimmed(g, m, up_to);
        mem::lemma_agree(pool::trimmed(g, m, up_to), m, end, m.len() as int);
    }
    lemma_recovered(g, m);
    mem::lemma_agree(pool::recovered(g, m), m, end, m.len() as int);
}

/// An append counts itself and its bytes for its host, or its refusal; nothing else.
pub proof fn law_append_counted(
    g: PoolGeometry,
    m: Seq<u8>,
    host: u16,
    term: u64,
    data: Seq<u8>,
    other_host: u16,
    counter: usize,
)
    requires
        g.fits(m.len()),
        host < g.max_hosts,
        other_host < g.max_hosts,
        counter % 8 == 0,
        counter < 64,
    ensures
        ({
            let before = pool::counter(g, m, other_host, counter);
            let accepted = pool::append_result(g, m, data.len()) is Ok;
            pool::counter(g, pool::appended(g, m, host, term, data), other_host, counter) == (
            if host != other_host {
                before
            } else if accepted && counter == pool::METRICS_APPENDS_TOTAL {
                mem::wrapped_sum(before, 1)
            } else if accepted && counter == pool::METRICS_BYTES_WRITTEN {
                mem::wrapped_sum(before, data.len() as u64)
            } else if !accepted && counter == pool::METRICS_APPENDS_FAILED {
                mem::wrapped_sum(before, 1)
            } else {
                before
            })
        }),
{
    if pool::append_result(g, m, data.len()) is Ok {
        layout::law_layout(g);
        let slot = pool::reserve_tail(m);
        let end = g.record_at(g.capacity as int);
        lemma_auto_spec_u64_to_from_le_bytes();
        let m1 = mem::put_u64(m, HDR_RESERVE_TAIL as int, (slot + 1) as u64);
        let m2 = pool::filled(g, m1, slot, host, term, data);
        let m3 = pool::swept(g, m2);
        let m4 = pool::counted(g, m3, host, pool::METRICS_APPENDS_TOTAL, 1);
        lemma_filled_slot(g, m1, slot, host, term, data);
        lemma_swept(g, m2);
        assert(g.record_at(slot as int) + g.record_size <= end);
        assert(mem::agree(m3, m, end, m.len() as int));
        mem::lemma_agree(m3, m, end, m.len() as int);
        law_counters_independent(
            g,
            m3,
            host,
            pool::METRICS_APPENDS_TOTAL,
            1,
            other_host,
            counter,
        );
        pool::lemma_counted_keeps_log(g, m3, host, pool::METRICS_APPENDS_TOTAL, 1);
        law_counters_independent(
            g,
            m4,
            host,
            pool::METRICS_BYTES_WRITTEN,
            data.len() as u64,
            other_host,
            counter,
        );
    } else {
        law_counters_independent(
            g,
            m,
            host,
            pool::METRICS_APPENDS_FAILED,
            1,
            other_host,
            counter,
        );
    }
}

/// A recovery run that a host counts adds one to its runs and sets what it found abandoned
/// to what this run found; nothing else is counted.
pub proof fn law_recovery_counted(
    g: PoolGeometry,
    m: Seq<u8>,
    host: u16,
    other_host: u16,
    counter: usize,
)
    requires
        g.fits(m.len()),
        host < g.max_hosts,
        other_host < g.max_hosts,
        counter % 8 == 0,
        counter < 64,
    ensures
        ({
            let before = pool::counter(g, m, other_host, counter);
            let after = engine::recovered_and_counted(g, m, host);
            pool::counter(g, after, other_host, counter) == (if host != other_host {
                before
            } else if counter == pool::METRICS_RECOVERY_RUNS {
                mem::wrapped_sum(before, 1)
            } else if counter == pool::METRICS_ABANDONED_FOUND {
                recovery::recovery_report(g, m).abandoned_count
            } else {
                before
            })
        }),
{
    broadcast use mem::group_put;

    layout::law_layout(g);
    lemma_auto_spec_u64_to_from_le_bytes();
    lemma_recovered(g, m);
    let recovered = pool::recovered(g, m);
    law_uncounted(g, m, other_host, counter, 0);
    law_counters_independent(
        g,
        recovered,
        host,
        pool::METRICS_RECOVERY_RUNS,
        1,
        other_host,
        counter,
    );
}

/// Counting leaves the log as recovery left it, so a second run finds nothing more: its
/// report differs only in that, and its host has no abandoned record noted any more.
pub proof fn law_second_recovery_finds_nothing(g: PoolGeometry, m: Seq<u8>, host: u16)
    requires
        g.fits(m.len()),
        host < g.max_hosts,
    ensures
        ({
            let once = engine::recovered_and_counted(g, m, host);
            let twice = engine::recovered_and_counted(g, once, host);
            &&& mem::agree(once, pool::recovered(g, m), 0, g.record_at(g.capacity as int))
            &&& mem::agree(twice, once, 0, g.record_at(g.capacity as int))
            &&& recovery::recovery_report(g, once) == (recovery::RecoveryReport {
                abandoned_count: 0,
                ..recovery::recovery_report(g, m)
            })
            &&& pool::counter(g, twice, host, pool::METRICS_ABANDONED_FOUND) == 0
            &&& pool::counter(g, twice, host, pool::METRICS_RECOVERY_RUNS) == mem::wrapped_sum(
                mem::wrapped_sum(pool::counter(g, m, host, pool::METRICS_RECOVERY_RUNS), 1),
                1,
            )
        }),
{
    broadcast use mem::group_put;

    layout::law_layout(g);
    let end = g.record_at(g.capacity as int);
    let recovered = pool::recovered(g, m);
    let once = engine::recovered_and_counted(g, m, host);
    let twice = engine::recovered_and_counted(g, once, host);
    lemma_recovered(g, m);
    pool::lemma_counted_keeps_log(g, recovered, host, pool::METRICS_RECOVERY_RUNS, 1);
    assert(mem::agree(once, recovered, 0, end));
    lemma_recovered_again(g, m, once);
    pool::lemma_counted_keeps_log(g, once, host, pool::METRICS_RECOVERY_RUNS, 1);
    assert(mem::agree(twice, once, 0, end));
    law_recovery_counted(g, m, host, host, pool::METRICS_RECOVERY_RUNS);
    law_recovery_counted(g, once, host, host, pool::METRICS_RECOVERY_RUNS);
    law_recovery_counted(g, once, host, host, pool::METRICS_ABANDONED_FOUND);
}

} // verus!

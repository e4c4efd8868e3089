//! What the bytes of a pool mean, and what each operation makes of them.
//!
//! Everything here is mathematics over the contents of a pool that one host has to itself:
//! the contracts of the engine are stated with these functions.
use crate::checksum;
use crate::error::FenceError;
use crate::layout::{
    PoolGeometry, HDR_COMMITTED_TAIL, HDR_RESERVE_TAIL, HEADER_SIZE, RECORD_META_SIZE,
    REC_CHECKSUM, REC_DATA_LEN, REC_INDEX, REC_PAYLOAD, REC_TERM, REC_WRITER_ID, STATE_ABANDONED,
    STATE_COMMITTED, STATE_FREE,
};
use crate::memory as mem;
use vstd::bytes::*;
use vstd::prelude::*;

verus! {

/// Offset of the counter of successful appends within a metrics block.
pub const METRICS_APPENDS_TOTAL: usize = 0;

/// Offset of the counter of failed appends within a metrics block.
pub const METRICS_APPENDS_FAILED: usize = 8;

/// Offset of the counter of payload bytes written within a metrics block.
pub const METRICS_BYTES_WRITTEN: usize = 16;

/// Offset of the counter of reads within a metrics block.
pub const METRICS_READS_TOTAL: usize = 24;

/// Offset of the counter of checksum failures within a metrics block.
pub const METRICS_CHECKSUM_FAILURES: usize = 32;

/// Offset of the counter of recovery runs within a metrics block.
pub const METRICS_RECOVERY_RUNS: usize = 40;

/// Offset of the counter of abandoned records within a metrics block.
pub const METRICS_ABANDONED_FOUND: usize = 48;

/// A record as a reader gets it.
#[verifier::ext_equal]
pub struct RecordView {
    pub index: u64,
    pub term: u64,
    pub writer_id: u64,
    pub data: Seq<u8>,
}

/// The fields of a record slot, without its state.
#[verifier::ext_equal]
pub struct Fields {
    pub term: u64,
    pub index: u64,
    pub writer_id: u64,
    pub data_len: u32,
    pub checksum: u64,
    pub payload: Seq<u8>,
}

impl Fields {
    /// The stored checksum is that of the stored term, index and payload.
    pub open spec fn intact(self) -> bool {
        checksum::record_checksum(self.term, self.index, self.payload) == self.checksum
    }

    /// The record that these fields make up.
    pub open spec fn record(self) -> RecordView {
        RecordView {
            index: self.index,
            term: self.term,
            writer_id: self.writer_id,
            data: self.payload,
        }
    }
}

/// The number of payload bytes in a slot that says it holds `data_len`.
pub open spec fn payload_len(g: PoolGeometry, data_len: u32) -> int {
    if data_len <= g.payload_size {
        data_len as int
    } else {
        g.payload_size as int
    }
}

/// The number of record slots from the start that readers may look at.
pub open spec fn committed_tail(m: Seq<u8>) -> u64 {
    mem::u64_at(m, HDR_COMMITTED_TAIL as int)
}

/// The number of record slots that writers have claimed.
pub open spec fn reserve_tail(m: Seq<u8>) -> u64 {
    mem::u64_at(m, HDR_RESERVE_TAIL as int)
}

/// The state byte of a record slot.
pub open spec fn state_of(g: PoolGeometry, m: Seq<u8>, slot: int) -> u8 {
    m[g.record_at(slot)]
}

/// The fields of a record slot.
pub open spec fn fields_of(g: PoolGeometry, m: Seq<u8>, slot: int) -> Fields {
    let at = g.record_at(slot);
    let data_len = mem::u32_at(m, at + REC_DATA_LEN);
    Fields {
        term: mem::u64_at(m, at + REC_TERM),
        index: mem::u64_at(m, at + REC_INDEX),
        writer_id: mem::u64_at(m, at + REC_WRITER_ID),
        data_len,
        checksum: mem::u64_at(m, at + REC_CHECKSUM),
        payload: mem::bytes_at(m, at + REC_PAYLOAD, payload_len(g, data_len)),
    }
}

/// The fields that an append of `data` by `host` leaves in `slot`.
pub open spec fn appended_fields(slot: u64, host: u16, term: u64, data: Seq<u8>) -> Fields {
    let index = (slot + 1) as u64;
    Fields {
        term,
        index,
        writer_id: host as u64,
        data_len: data.len() as u32,
        checksum: checksum::record_checksum(term, index, data),
        payload: data,
    }
}

/// Where a counter of `host` lies.
pub open spec fn counter_at(g: PoolGeometry, host: u16, counter: usize) -> int {
    g.metrics_at(host as int) + counter
}

/// The value of a counter of `host`.
pub open spec fn counter(g: PoolGeometry, m: Seq<u8>, host: u16, counter: usize) -> u64 {
    mem::u64_at(m, counter_at(g, host, counter))
}

/// The pool with `n` added to a counter of `host`.
pub open spec fn counted(g: PoolGeometry, m: Seq<u8>, host: u16, counter: usize, n: u64) -> Seq<u8> {
    let at = counter_at(g, host, counter);
    mem::put_u64(m, at, mem::wrapped_sum(mem::u64_at(m, at), n))
}

/// The pool with a counter of `host` set to `n`.
pub open spec fn noted(g: PoolGeometry, m: Seq<u8>, host: u16, counter: usize, n: u64) -> Seq<u8> {
    mem::put_u64(m, counter_at(g, host, counter), n)
}

/// The sum, modulo 2^64, of a counter over the first `hosts` hosts.
pub open spec fn counter_sum(g: PoolGeometry, m: Seq<u8>, counter: usize, hosts: int) -> u64
    decreases hosts,
{
    if hosts <= 0 {
        0
    } else {
        mem::wrapped_sum(
            counter_sum(g, m, counter, hosts - 1),
            self::counter(g, m, (hosts - 1) as u16, counter),
        )
    }
}

/// The first slot from `from` on that is not committed, or the capacity if there is none.
pub open spec fn sweep(g: PoolGeometry, m: Seq<u8>, from: int) -> int
    decreases g.capacity - from,
{
    if 0 <= from < g.capacity && state_of(g, m, from) == STATE_COMMITTED {
        sweep(g, m, from + 1)
    } else {
        from
    }
}

/// The committed tail once it has moved past all committed slots that follow it.
pub open spec fn swept_tail(g: PoolGeometry, m: Seq<u8>) -> u64 {
    sweep(g, m, committed_tail(m) as int) as u64
}

/// The pool with its committed tail moved past all committed slots that follow it.
pub open spec fn swept(g: PoolGeometry, m: Seq<u8>) -> Seq<u8> {
    mem::put_u64(m, HDR_COMMITTED_TAIL as int, swept_tail(g, m))
}

/// The pool with a complete, committed record in `slot`.
pub open spec fn filled(
    g: PoolGeometry,
    m: Seq<u8>,
    slot: u64,
    host: u16,
    term: u64,
    data: Seq<u8>,
) -> Seq<u8> {
    let at = g.record_at(slot as int);
    let f = appended_fields(slot, host, term, data);
    let m = mem::put_u64(m, at + REC_TERM, f.term);
    let m = mem::put_u64(m, at + REC_INDEX, f.index);
    let m = mem::put_u64(m, at + REC_WRITER_ID, f.writer_id);
    let m = mem::put(m, at + REC_DATA_LEN, spec_u32_to_le_bytes(f.data_len));
    let m = mem::put(m, at + REC_PAYLOAD, f.payload);
    let m = mem::put_u64(m, at + REC_CHECKSUM, f.checksum);
    mem::put_u8(m, at, STATE_COMMITTED)
}

/// What an append returns.
pub open spec fn append_result(g: PoolGeometry, m: Seq<u8>, len: nat) -> Result<u64, FenceError> {
    if len > g.payload_size {
        Err(FenceError::PayloadTooLarge { max: g.payload_size, got: len as usize })
    } else if reserve_tail(m) >= g.capacity {
        Err(FenceError::PoolFull { capacity: g.capacity, requested_slot: reserve_tail(m) })
    } else {
        Ok((reserve_tail(m) + 1) as u64)
    }
}

/// The pool after an append.
///
/// A refused append is only counted. Otherwise the next free slot is claimed and filled,
/// the committed tail moves on as far as it can, and the append and its bytes are counted.
pub open spec fn appended(
    g: PoolGeometry,
    m: Seq<u8>,
    host: u16,
    term: u64,
    data: Seq<u8>,
) -> Seq<u8> {
    if append_result(g, m, data.len()) is Err {
        counted(g, m, host, METRICS_APPENDS_FAILED, 1)
    } else {
        let slot = reserve_tail(m);
        let m = mem::put_u64(m, HDR_RESERVE_TAIL as int, (slot + 1) as u64);
        let m = swept(g, filled(g, m, slot, host, term, data));
        let m = counted(g, m, host, METRICS_APPENDS_TOTAL, 1);
        counted(g, m, host, METRICS_BYTES_WRITTEN, data.len() as u64)
    }
}

/// The slot that an index names. Slot numbers have 32 bits.
pub open spec fn slot_of(index: u64) -> u64 {
    ((index - 1) % 0x1_0000_0000) as u64
}

/// The state of `slot` lies within the pool. So it does in every slot that the pool has; only
/// a committed tail past the capacity, in a damaged header, makes readers look further.
pub open spec fn state_in_pool(g: PoolGeometry, slot: int) -> bool {
    g.record_at(slot) < g.total_size
}

/// `slot` lies within the pool up to its payload.
pub open spec fn meta_in_pool(g: PoolGeometry, slot: int) -> bool {
    g.record_at(slot) + RECORD_META_SIZE <= g.total_size
}

/// `slot` lies within the pool, with a payload of so many bytes.
pub open spec fn record_in_pool(g: PoolGeometry, slot: int, data_len: u32) -> bool {
    g.record_at(slot) + RECORD_META_SIZE + payload_len(g, data_len) <= g.total_size
}

/// A reader may look at `index`: it is not zero and not past the committed tail (nor, with a
/// damaged header, past the pool).
pub open spec fn readable(g: PoolGeometry, tail: u64, index: u64) -> bool {
    0 < index <= tail && state_in_pool(g, slot_of(index) as int)
}

/// What a read returns.
pub open spec fn read_result(g: PoolGeometry, m: Seq<u8>, index: u64) -> Result<
    Option<RecordView>,
    FenceError,
> {
    let slot = slot_of(index) as int;
    let out_of_bounds = FenceError::IndexOutOfBounds { index, committed_tail: committed_tail(m) };
    if !readable(g, committed_tail(m), index) {
        Err(out_of_bounds)
    } else if state_of(g, m, slot) != STATE_COMMITTED {
        Ok(None)
    } else if !meta_in_pool(g, slot) || !record_in_pool(g, slot, fields_of(g, m, slot).data_len) {
        Err(out_of_bounds)
    } else if !fields_of(g, m, slot).intact() {
        Err(FenceError::ChecksumMismatch { index })
    } else {
        Ok(Some(fields_of(g, m, slot).record()))
    }
}

/// The pool after a read: a record that was returned, or found damaged, is counted.
pub open spec fn after_read(g: PoolGeometry, m: Seq<u8>, host: u16, index: u64) -> Seq<u8> {
    match read_result(g, m, index) {
        Ok(Some(_)) => counted(g, m, host, METRICS_READS_TOTAL, 1),
        Err(FenceError::ChecksumMismatch { .. }) => counted(
            g,
            m,
            host,
            METRICS_CHECKSUM_FAILURES,
            1,
        ),
        _ => m,
    }
}

/// The pool with the state bytes of the first `n` slots replaced by what `f` gives.
pub open spec fn with_states(
    g: PoolGeometry,
    m: Seq<u8>,
    n: int,
    f: spec_fn(int) -> u8,
) -> Seq<u8>
    decreases n,
{
    if n <= 0 {
        m
    } else {
        mem::put_u8(with_states(g, m, n - 1, f), g.record_at(n - 1), f(n - 1))
    }
}

/// How many of the first `n` slots have another state than the one `f` gives.
pub open spec fn states_changed(
    g: PoolGeometry,
    m: Seq<u8>,
    n: int,
    f: spec_fn(int) -> u8,
) -> nat
    decreases n,
{
    if n <= 0 {
        0
    } else {
        states_changed(g, m, n - 1, f) + (if f(n - 1) != state_of(g, m, n - 1) {
            1nat
        } else {
            0nat
        })
    }
}

/// The state that recovery gives to a slot in state `state`, whose checksum matches if `intact`.
pub open spec fn recovered_state(state: u8, intact: bool) -> u8 {
    if state == STATE_FREE || (state == STATE_COMMITTED && intact) {
        state
    } else {
        STATE_ABANDONED
    }
}

/// The state that recovery gives to each slot of a pool.
pub open spec fn recovered_states(g: PoolGeometry, m: Seq<u8>) -> spec_fn(int) -> u8 {
    |s: int| recovered_state(state_of(g, m, s), fields_of(g, m, s).intact())
}

/// The number of slots that recovery looks at.
pub open spec fn scan_limit(g: PoolGeometry, reserve_tail: u64) -> u64 {
    if reserve_tail <= g.capacity {
        reserve_tail
    } else {
        g.capacity as u64
    }
}

/// The pool with all damaged and unfinished records abandoned.
pub open spec fn mended(g: PoolGeometry, m: Seq<u8>) -> Seq<u8> {
    with_states(g, m, scan_limit(g, reserve_tail(m)) as int, recovered_states(g, m))
}

/// How many records recovery abandons.
pub open spec fn abandoned_count(g: PoolGeometry, m: Seq<u8>) -> nat {
    states_changed(g, m, scan_limit(g, reserve_tail(m)) as int, recovered_states(g, m))
}

/// The pool after recovery: damaged and unfinished records are abandoned, and the
/// committed tail has moved past all committed slots that follow it.
pub open spec fn recovered(g: PoolGeometry, m: Seq<u8>) -> Seq<u8> {
    swept(g, mended(g, m))
}

/// The state that trimming gives to a slot.
pub open spec fn trimmed_states(g: PoolGeometry, m: Seq<u8>) -> spec_fn(int) -> u8 {
    |s: int|
        if state_of(g, m, s) == STATE_COMMITTED {
            STATE_ABANDONED
        } else {
            state_of(g, m, s)
        }
}

/// How many slots a trim up to `up_to` looks at. Slot numbers have 32 bits.
pub open spec fn trim_slots(up_to: u64) -> u64 {
    (up_to % 0x1_0000_0000) as u64
}

/// Trimming up to `up_to` is allowed: the committed tail lies at or past it (and the slots up
/// to it lie, even with a damaged header, within the pool).
pub open spec fn trimmable(g: PoolGeometry, tail: u64, up_to: u64) -> bool {
    up_to <= tail && (trim_slots(up_to) > 0 ==> state_in_pool(g, trim_slots(up_to) - 1))
}

/// How many records a trim abandons, or why it refuses.
pub open spec fn trim_result(g: PoolGeometry, m: Seq<u8>, up_to: u64) -> Result<u64, FenceError> {
    if !trimmable(g, committed_tail(m), up_to) {
        Err(
            FenceError::TrimBeyondCommitted {
                requested: up_to,
                committed_tail: committed_tail(m),
            },
        )
    } else {
        Ok(states_changed(g, m, trim_slots(up_to) as int, trimmed_states(g, m)) as u64)
    }
}

/// The pool after a trim: the committed records among the first `up_to` are abandoned.
pub open spec fn trimmed(g: PoolGeometry, m: Seq<u8>, up_to: u64) -> Seq<u8> {
    if trimmable(g, committed_tail(m), up_to) {
        with_states(g, m, trim_slots(up_to) as int, trimmed_states(g, m))
    } else {
        m
    }
}

/// Replacing state bytes changes nothing else, and gives each slot the wanted state.
pub proof fn lemma_with_states(g: PoolGeometry, m: Seq<u8>, n: int, f: spec_fn(int) -> u8)
    requires
        g.fits(m.len()),
        n <= g.capacity,
    ensures
        with_states(g, m, n, f).len() == m.len(),
        forall|s: int|
            0 <= s < g.capacity ==> #[trigger] state_of(g, with_states(g, m, n, f), s) == (if s
                < n {
                f(s)
            } else {
                state_of(g, m, s)
            }),
        forall|s: int|
            0 <= s < g.capacity ==> mem::agree(
                with_states(g, m, n, f),
                m,
                #[trigger] g.record_at(s) + 1,
                g.record_at(s) + g.record_size,
            ),
        mem::agree(with_states(g, m, n, f), m, 0, g.record_at(0)),
        mem::agree(with_states(g, m, n, f), m, g.record_at(g.capacity as int), m.len() as int),
    decreases n,
{
    crate::layout::law_layout(g);
    if n > 0 {
        lemma_with_states(g, m, n - 1, f);
        let prev = with_states(g, m, n - 1, f);
        let next = with_states(g, m, n, f);
        let at = g.record_at(n - 1);
        assert(next == mem::put_u8(prev, at, f(n - 1)));
        assert forall|s: int| 0 <= s < g.capacity implies #[trigger] state_of(g, next, s) == (if s
            < n {
            f(s)
        } else {
            state_of(g, m, s)
        }) by {
            assert(state_of(g, prev, s) == (if s < n - 1 {
                f(s)
            } else {
                state_of(g, m, s)
            }));
            if s < n - 1 {
                assert(g.record_at(s) + g.record_size <= at);
            } else if s > n - 1 {
                assert(at + g.record_size <= g.record_at(s));
            }
        }
        assert forall|s: int| 0 <= s < g.capacity implies mem::agree(
            next,
            m,
            #[trigger] g.record_at(s) + 1,
            g.record_at(s) + g.record_size,
        ) by {
            assert(mem::agree(prev, m, g.record_at(s) + 1, g.record_at(s) + g.record_size));
            if s < n - 1 {
                assert(g.record_at(s) + g.record_size <= at);
            } else if s > n - 1 {
                assert(at + g.record_size <= g.record_at(s));
            }
        }
    }
}

/// Replacing state bytes leaves the header and all later states alone.
pub proof fn lemma_with_states_rest(g: PoolGeometry, m: Seq<u8>, n: int, f: spec_fn(int) -> u8)
    requires
        g.fits(m.len()),
        0 <= n,
    ensures
        with_states(g, m, n, f).len() == m.len(),
        mem::agree(with_states(g, m, n, f), m, 0, HEADER_SIZE as int),
        state_in_pool(g, n) ==> state_of(g, with_states(g, m, n, f), n) == state_of(g, m, n),
{
    lemma_with_states_later(g, m, n, n, f);
}

proof fn lemma_with_states_later(
    g: PoolGeometry,
    m: Seq<u8>,
    n: int,
    s: int,
    f: spec_fn(int) -> u8,
)
    requires
        g.fits(m.len()),
        0 <= n <= s,
    ensures
        with_states(g, m, n, f).len() == m.len(),
        mem::agree(with_states(g, m, n, f), m, 0, HEADER_SIZE as int),
        state_in_pool(g, s) ==> state_of(g, with_states(g, m, n, f), s) == state_of(g, m, s),
    decreases n,
{
    if n > 0 {
        lemma_with_states_later(g, m, n - 1, s, f);
        crate::layout::lemma_record_order(g, n - 1, s);
    }
    crate::layout::lemma_record_order(g, s, s + 1);
}

/// The slots of the pool lie within it, and are named by the indices up to the capacity.
pub proof fn lemma_in_pool(g: PoolGeometry)
    requires
        g.wf(),
    ensures
        forall|s: int|
            #![trigger g.record_at(s)]
            0 <= s < g.capacity ==> state_in_pool(g, s) && meta_in_pool(g, s),
        forall|s: int, data_len: u32|
            0 <= s < g.capacity ==> #[trigger] record_in_pool(g, s, data_len),
        forall|index: u64| 0 < index <= g.capacity ==> #[trigger] slot_of(index) == index - 1,
{
    crate::layout::law_layout(g);
    assert forall|s: int, data_len: u32| 0 <= s < g.capacity implies #[trigger] record_in_pool(
        g,
        s,
        data_len,
    ) by {
        assert(g.record_at(s) + g.record_size <= g.record_at(g.capacity as int));
    }
}

/// An index up to the capacity names a slot of the pool.
pub proof fn lemma_slot_named(g: PoolGeometry, index: u64)
    requires
        g.wf(),
        0 < index <= g.capacity,
    ensures
        slot_of(index) == index - 1,
        state_in_pool(g, index - 1),
        meta_in_pool(g, index - 1),
        forall|data_len: u32| #[trigger] record_in_pool(g, index - 1, data_len),
{
    lemma_in_pool(g);
    let at = g.record_at(index - 1);
}

/// The fields of a slot depend on the bytes after its state byte alone.
pub proof fn lemma_fields_agree(g: PoolGeometry, a: Seq<u8>, b: Seq<u8>, slot: int)
    requires
        g.fits(a.len()),
        a.len() == b.len(),
        0 <= slot < g.capacity,
        mem::agree(a, b, g.record_at(slot) + 1, g.record_at(slot) + g.record_size),
    ensures
        fields_of(g, a, slot) == fields_of(g, b, slot),
{
    crate::layout::law_layout(g);
    let at = g.record_at(slot);
    mem::lemma_agree(a, b, at + 1, at + g.record_size);
}

/// A sweep stops at or after where it starts, and within the pool.
pub proof fn lemma_sweep_range(g: PoolGeometry, m: Seq<u8>, from: int)
    ensures
        from <= sweep(g, m, from),
        from <= g.capacity ==> sweep(g, m, from) <= g.capacity,
        from >= g.capacity ==> sweep(g, m, from) == from,
        forall|s: int| from <= s < sweep(g, m, from) ==> #[trigger] state_of(g, m, s) == STATE_COMMITTED,
        0 <= from && sweep(g, m, from) < g.capacity ==> state_of(g, m, sweep(g, m, from))
            != STATE_COMMITTED,
    decreases g.capacity - from,
{
    if 0 <= from < g.capacity && state_of(g, m, from) == STATE_COMMITTED {
        lemma_sweep_range(g, m, from + 1);
    }
}

/// A sweep is determined by which slots are committed.
pub proof fn lemma_sweep_agree(g: PoolGeometry, a: Seq<u8>, b: Seq<u8>, from: int)
    requires
        forall|s: int| from <= s < g.capacity ==> #[trigger] state_of(g, a, s) == state_of(g, b, s),
    ensures
        sweep(g, a, from) == sweep(g, b, from),
    decreases g.capacity - from,
{
    if 0 <= from < g.capacity {
        assert(state_of(g, a, from) == state_of(g, b, from));
        if state_of(g, a, from) == STATE_COMMITTED {
            lemma_sweep_agree(g, a, b, from + 1);
        }
    }
}

/// The log (header and records, without the metrics) is determined by the bytes before
/// the metrics.
pub proof fn lemma_same_log(g: PoolGeometry, a: Seq<u8>, b: Seq<u8>)
    requires
        g.fits(a.len()),
        a.len() == b.len(),
        mem::agree(a, b, 0, g.record_at(g.capacity as int)),
    ensures
        committed_tail(a) == committed_tail(b),
        reserve_tail(a) == reserve_tail(b),
        forall|s: int| 0 <= s < g.capacity ==> #[trigger] state_of(g, a, s) == state_of(g, b, s),
        forall|s: int| 0 <= s < g.capacity ==> #[trigger] fields_of(g, a, s) == fields_of(g, b, s),
        forall|index: u64|
            index <= g.capacity ==> #[trigger] read_result(g, a, index) == read_result(g, b, index),
{
    crate::layout::law_layout(g);
    mem::lemma_agree(a, b, 0, g.record_at(g.capacity as int));
    assert(g.record_at(0) + g.record_size <= g.record_at(g.capacity as int));
    assert forall|s: int| 0 <= s < g.capacity implies #[trigger] fields_of(g, a, s) == fields_of(
        g,
        b,
        s,
    ) by {
        assert(g.record_at(s) + g.record_size <= g.record_at(g.capacity as int));
        lemma_fields_agree(g, a, b, s);
    }
    assert forall|s: int| 0 <= s < g.capacity implies #[trigger] state_of(g, a, s) == state_of(
        g,
        b,
        s,
    ) by {
        assert(g.record_at(s) + g.record_size <= g.record_at(g.capacity as int));
    }
    lemma_in_pool(g);
    assert forall|index: u64| index <= g.capacity implies #[trigger] read_result(g, a, index)
        == read_result(g, b, index) by {
        if 0 < index {
            assert(slot_of(index) == index - 1);
            assert(state_of(g, a, index - 1) == state_of(g, b, index - 1));
            assert(fields_of(g, a, index - 1) == fields_of(g, b, index - 1));
        }
    }
}

/// Counting does not touch the log.
pub proof fn lemma_counted_keeps_log(
    g: PoolGeometry,
    m: Seq<u8>,
    host: u16,
    counter: usize,
    n: u64,
)
    requires
        g.fits(m.len()),
        host < g.max_hosts,
        counter <= 56,
    ensures
        counted(g, m, host, counter, n).len() == m.len(),
        mem::agree(counted(g, m, host, counter, n), m, 0, g.record_at(g.capacity as int)),
{
    crate::layout::law_layout(g);
}

/// What several reads return together: the records among their results, in order, or the
/// first error.
pub open spec fn gathered(results: Seq<Result<Option<RecordView>, FenceError>>) -> Result<
    Seq<RecordView>,
    FenceError,
>
    decreases results.len(),
{
    if results.len() == 0 {
        Ok(Seq::empty())
    } else {
        match gathered(results.drop_last()) {
            Err(error) => Err(error),
            Ok(records) => match results.last() {
                Err(error) => Err(error),
                Ok(None) => Ok(records),
                Ok(Some(record)) => Ok(records.push(record)),
            },
        }
    }
}

/// What reads of the indices from `start` up to `end` (exclusive) return one by one, up to
/// the first error, and the pool after them.
pub open spec fn range_read(g: PoolGeometry, m: Seq<u8>, host: u16, start: u64, end: int) -> (
    Seq<Result<Option<RecordView>, FenceError>>,
    Seq<u8>,
)
    decreases end - start,
{
    if end <= start {
        (Seq::empty(), m)
    } else {
        let (results, after) = range_read(g, m, host, start, end - 1);
        let index = (end - 1) as u64;
        if gathered(results) is Err {
            (results, after)
        } else {
            (results.push(read_result(g, after, index)), after_read(g, after, host, index))
        }
    }
}

/// Once a read has failed, there are no further reads.
pub proof fn lemma_range_error(
    g: PoolGeometry,
    m: Seq<u8>,
    host: u16,
    start: u64,
    mid: int,
    end: int,
)
    requires
        start <= mid <= end,
        gathered(range_read(g, m, host, start, mid).0) is Err,
    ensures
        range_read(g, m, host, start, end) == range_read(g, m, host, start, mid),
    decreases end - mid,
{
    if mid < end {
        lemma_range_error(g, m, host, start, mid, end - 1);
    }
}

} // verus!

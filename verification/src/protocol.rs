//! The log protocol, access by access.
//!
//! Every operation of the engine is a sequence of accesses to the pool in which each
//! access depends on what the earlier ones returned. [`step`] says which access an
//! operation may make next, whatever other hosts do to the pool in between; the contracts
//! of the engine say that each operation follows it to the end.
use crate::backend::{Access, MemOrder};
use crate::error::FenceError;
use crate::layout::{
    PoolGeometry, CACHELINE, HDR_COMMITTED_TAIL, HDR_RESERVE_TAIL, REC_CHECKSUM, REC_DATA_LEN,
    REC_INDEX, REC_PAYLOAD, REC_TERM, REC_WRITER_ID, STATE_ABANDONED, STATE_COMMITTED, STATE_FREE,
    STATE_WRITING,
};
use crate::pool;
use crate::pool::{
    Fields, RecordView, METRICS_ABANDONED_FOUND, METRICS_APPENDS_FAILED, METRICS_APPENDS_TOTAL,
    METRICS_BYTES_WRITTEN, METRICS_CHECKSUM_FAILURES, METRICS_READS_TOTAL, METRICS_RECOVERY_RUNS,
};
use crate::recovery::RecoveryReport;
use vstd::bytes::*;
use vstd::prelude::*;

verus! {

/// An operation together with its arguments.
#[allow(inconsistent_fields)]
pub enum Call {
    /// Append a record.
    Append { host: u16, term: u64, data: Seq<u8> },
    /// Read a record.
    Read { host: u16, index: u64 },
    /// Abandon the records up to an index.
    Trim { up_to: u64 },
    /// Recover the pool; with a host, count the run in that host's metrics.
    Recover { host: Option<u16> },
    /// Move the committed tail on.
    Advance,
    /// Look at the pool, any number of times.
    Observe,
}

/// What an operation returns.
pub enum Outcome {
    Append(Result<u64, FenceError>),
    Read(Result<Option<RecordView>, FenceError>),
    Trim(Result<u64, FenceError>),
    Recover(RecoveryReport),
    Advance(u64),
}

/// What moving the committed tail is part of.
pub enum SweepFor {
    Append { slot: u64 },
    Recover { scanned: u64, abandoned: u64 },
    Nothing,
}

/// What loading the fields of a slot is part of.
pub enum FieldsFor {
    Read { index: u64, tail: u64 },
    Recover { limit: u64, abandoned: u64 },
}

/// How far an operation has come: what its next access is.
#[allow(inconsistent_fields)]
pub enum Pc {
    /// Nothing done yet.
    Start,
    /// A full pool: take back the reservation of `slot`.
    Undo { slot: u64 },
    /// Count an append that failed.
    CountRefusal { error: FenceError },
    /// Write the record: `stage` accesses of it lie behind (see [`fill_access`]).
    Fill { slot: u64, stage: int },
    /// Load the committed tail; `lost` races for it were lost so far.
    SweepLoad { goal: SweepFor, lost: u64 },
    /// Load the state of slot `next`; the slots from `tail` up to it were committed.
    SweepScan { goal: SweepFor, lost: u64, tail: u64, next: u64 },
    /// Move the committed tail from `tail` to `next`.
    SweepSwap { goal: SweepFor, lost: u64, tail: u64, next: u64 },
    /// Count a successful append.
    CountAppend { slot: u64 },
    /// Count the bytes of a successful append.
    CountBytes { slot: u64 },
    /// Load the state of the slot to read.
    ReadState { tail: u64 },
    /// Load the fields of `slot`, of which `stage` were loaded into `got`.
    LoadFields { goal: FieldsFor, slot: u64, stage: int, got: Fields },
    /// Count a successful read.
    CountRead { record: RecordView },
    /// Count a read that found a damaged record.
    CountDamage,
    /// Load the state of `slot`, to trim it.
    TrimScan { slot: u64, trimmed: u64 },
    /// Mark `slot` as abandoned.
    TrimStore { slot: u64, trimmed: u64 },
    /// Flush the state of `slot`.
    TrimFlush { slot: u64, trimmed: u64 },
    /// Load the state of `slot`, to recover it.
    RecoverScan { slot: u64, limit: u64, abandoned: u64 },
    /// Mark `slot` as abandoned.
    RecoverStore { slot: u64, limit: u64, abandoned: u64 },
    /// Flush the state of `slot`.
    RecoverFlush { slot: u64, limit: u64, abandoned: u64 },
    /// Count a recovery run.
    CountRun { report: RecoveryReport },
    /// Note how many records the recovery run abandoned.
    NoteAbandoned { report: RecoveryReport },
    /// Returned.
    Done { outcome: Outcome },
}

/// Where an operation starts.
pub open spec fn entry(call: Call) -> Pc {
    match call {
        Call::Advance => Pc::SweepLoad { goal: SweepFor::Nothing, lost: 0 },
        _ => Pc::Start,
    }
}

/// The access that adds `n` to a counter of `host`.
pub open spec fn counts(g: PoolGeometry, host: u16, counter: usize, n: u64, a: Access) -> bool {
    a matches Access::FetchAddU64 { offset, delta, order, .. } && {
        &&& offset == pool::counter_at(g, host, counter)
        &&& delta == n
        &&& order == MemOrder::Relaxed
    }
}

/// The accesses that write the record of an append, in order.
///
/// State `WRITING`; term, index, writer, length, payload (stage 5, left out if empty),
/// checksum; flush of the whole record; state `COMMITTED`; flush of the state.
pub open spec fn fill_access(
    g: PoolGeometry,
    host: u16,
    term: u64,
    data: Seq<u8>,
    slot: u64,
    stage: int,
) -> Access {
    let at = g.record_at(slot as int);
    let f = pool::appended_fields(slot, host, term, data);
    let order = MemOrder::Relaxed;
    if stage == 0 {
        Access::StoreU8 { offset: at, order, value: STATE_WRITING }
    } else if stage == 1 {
        Access::StoreU64 { offset: at + REC_TERM, order, value: f.term }
    } else if stage == 2 {
        Access::StoreU64 { offset: at + REC_INDEX, order, value: f.index }
    } else if stage == 3 {
        Access::StoreU64 { offset: at + REC_WRITER_ID, order, value: f.writer_id }
    } else if stage == 4 {
        Access::Write { offset: at + REC_DATA_LEN, bytes: spec_u32_to_le_bytes(f.data_len) }
    } else if stage == 5 {
        Access::Write { offset: at + REC_PAYLOAD, bytes: f.payload }
    } else if stage == 6 {
        Access::StoreU64 { offset: at + REC_CHECKSUM, order, value: f.checksum }
    } else if stage == 7 {
        Access::Flush { offset: at, len: g.record_size as int }
    } else if stage == 8 {
        Access::StoreU8 { offset: at, order: MemOrder::Release, value: STATE_COMMITTED }
    } else {
        Access::Flush { offset: at, len: CACHELINE as int }
    }
}

/// The stage of writing a record that follows `stage`; 10 is the end.
pub open spec fn next_stage(data: Seq<u8>, stage: int) -> int {
    if stage == 4 && data.len() == 0 {
        6
    } else {
        stage + 1
    }
}

/// The position after the committed tail was moved, or found to be, at `tail`.
pub open spec fn after_sweep(call: Call, goal: SweepFor, tail: u64) -> Pc {
    match goal {
        SweepFor::Append { slot } => Pc::CountAppend { slot },
        SweepFor::Recover { scanned, abandoned } => {
            let report = RecoveryReport {
                abandoned_count: abandoned,
                committed_tail: tail,
                slots_scanned: scanned,
            };
            match call {
                Call::Recover { host: Some(_) } => Pc::CountRun { report },
                _ => Pc::Done { outcome: Outcome::Recover(report) },
            }
        },
        SweepFor::Nothing => Pc::Done { outcome: Outcome::Advance(tail) },
    }
}

/// The position once the slots from `tail` up to `next` were found committed and the sweep
/// stops there.
pub open spec fn stop_sweep(call: Call, goal: SweepFor, lost: u64, tail: u64, next: u64) -> Pc {
    if next == tail {
        after_sweep(call, goal, tail)
    } else {
        Pc::SweepSwap { goal, lost, tail, next }
    }
}

/// The position once the slots from `tail` up to `next` were found committed.
pub open spec fn go_on_sweep(
    g: PoolGeometry,
    call: Call,
    goal: SweepFor,
    lost: u64,
    tail: u64,
    next: u64,
) -> Pc {
    if next < g.capacity {
        Pc::SweepScan { goal, lost, tail, next }
    } else {
        stop_sweep(call, goal, lost, tail, next)
    }
}

/// The position once the slots below `slot` were trimmed.
pub open spec fn go_on_trim(up_to: u64, slot: u64, trimmed: u64) -> Pc {
    if slot < pool::trim_slots(up_to) {
        Pc::TrimScan { slot, trimmed }
    } else {
        Pc::Done { outcome: Outcome::Trim(Ok(trimmed)) }
    }
}

/// The position once the slots below `slot` were recovered.
pub open spec fn go_on_recover(slot: u64, limit: u64, abandoned: u64) -> Pc {
    if slot < limit {
        Pc::RecoverScan { slot, limit, abandoned }
    } else {
        Pc::SweepLoad { goal: SweepFor::Recover { scanned: limit, abandoned }, lost: 0 }
    }
}

/// The position once all fields of `slot` were loaded.
pub open spec fn after_fields(goal: FieldsFor, slot: u64, got: Fields) -> Pc {
    match goal {
        FieldsFor::Read { .. } => if got.intact() {
            Pc::CountRead { record: got.record() }
        } else {
            Pc::CountDamage
        },
        FieldsFor::Recover { limit, abandoned } => if got.intact() {
            go_on_recover((slot + 1) as u64, limit, abandoned)
        } else {
            Pc::RecoverStore { slot, limit, abandoned }
        },
    }
}

/// The position of a read that was refused as out of bounds.
pub open spec fn out_of_bounds(index: u64, tail: u64) -> Pc {
    Pc::Done {
        outcome: Outcome::Read(
            Err(FenceError::IndexOutOfBounds { index, committed_tail: tail }),
        ),
    }
}

/// The position once `slot` was found to reach past the pool.
pub open spec fn past_pool(goal: FieldsFor, slot: u64) -> Pc {
    match goal {
        FieldsFor::Read { index, tail } => out_of_bounds(index, tail),
        FieldsFor::Recover { limit, abandoned } => Pc::RecoverStore { slot, limit, abandoned },
    }
}

/// The position after loading the next field of `slot`: term, index, writer, length,
/// checksum, payload (left out if empty).
pub open spec fn step_fields(
    g: PoolGeometry,
    goal: FieldsFor,
    slot: u64,
    stage: int,
    got: Fields,
    a: Access,
) -> Option<Pc> {
    let at = g.record_at(slot as int);
    match a {
        Access::LoadU64 { offset, order, value } => if order != MemOrder::Relaxed {
            None
        } else if stage == 0 && offset == at + REC_TERM {
            Some(Pc::LoadFields { goal, slot, stage: 1, got: Fields { term: value, ..got } })
        } else if stage == 1 && offset == at + REC_INDEX {
            Some(Pc::LoadFields { goal, slot, stage: 2, got: Fields { index: value, ..got } })
        } else if stage == 2 && offset == at + REC_WRITER_ID {
            Some(Pc::LoadFields { goal, slot, stage: 3, got: Fields { writer_id: value, ..got } })
        } else if stage == 4 && offset == at + REC_CHECKSUM {
            let got = Fields { checksum: value, ..got };
            if !pool::record_in_pool(g, slot as int, got.data_len) {
                Some(past_pool(goal, slot))
            } else if pool::payload_len(g, got.data_len) > 0 {
                Some(Pc::LoadFields { goal, slot, stage: 5, got })
            } else {
                Some(after_fields(goal, slot, Fields { payload: Seq::empty(), ..got }))
            }
        } else {
            None
        },
        Access::Read { offset, bytes } => if stage == 3 && offset == at + REC_DATA_LEN
            && bytes.len() == 4 {
            let data_len = spec_u32_from_le_bytes(bytes);
            Some(Pc::LoadFields { goal, slot, stage: 4, got: Fields { data_len, ..got } })
        } else if stage == 5 && offset == at + REC_PAYLOAD && bytes.len() == pool::payload_len(
            g,
            got.data_len,
        ) {
            Some(after_fields(goal, slot, Fields { payload: bytes, ..got }))
        } else {
            None
        },
        _ => None,
    }
}

/// The position after the first access of `call`.
pub open spec fn step_start(g: PoolGeometry, call: Call, a: Access) -> Option<Pc> {
    match call {
        Call::Append { host, term, data } => if data.len() > g.payload_size {
            if counts(g, host, METRICS_APPENDS_FAILED, 1, a) {
                Some(Pc::Done {
                    outcome: Outcome::Append(
                        Err(
                            FenceError::PayloadTooLarge {
                                max: g.payload_size,
                                got: data.len() as usize,
                            },
                        ),
                    ),
                })
            } else {
                None
            }
        } else {
            match a {
                Access::FetchAddU64 { offset, delta, order, previous } => if offset
                    == HDR_RESERVE_TAIL && delta == 1 && order == MemOrder::AcqRel {
                    if previous >= g.capacity {
                        Some(Pc::Undo { slot: previous })
                    } else {
                        Some(Pc::Fill { slot: previous, stage: 0 })
                    }
                } else {
                    None
                },
                _ => None,
            }
        },
        Call::Read { host, index } => match a {
            Access::LoadU64 { offset, order, value } => if offset == HDR_COMMITTED_TAIL && order
                == MemOrder::Acquire {
                if pool::readable(g, value, index) {
                    Some(Pc::ReadState { tail: value })
                } else {
                    Some(out_of_bounds(index, value))
                }
            } else {
                None
            },
            _ => None,
        },
        Call::Trim { up_to } => match a {
            Access::LoadU64 { offset, order, value } => if offset == HDR_COMMITTED_TAIL && order
                == MemOrder::Acquire {
                if pool::trimmable(g, value, up_to) {
                    Some(go_on_trim(up_to, 0, 0))
                } else {
                    Some(Pc::Done {
                        outcome: Outcome::Trim(
                            Err(
                                FenceError::TrimBeyondCommitted {
                                    requested: up_to,
                                    committed_tail: value,
                                },
                            ),
                        ),
                    })
                }
            } else {
                None
            },
            _ => None,
        },
        Call::Recover { .. } => match a {
            Access::LoadU64 { offset, order, value } => if offset == HDR_RESERVE_TAIL && order
                == MemOrder::Acquire {
                Some(go_on_recover(0, pool::scan_limit(g, value), 0))
            } else {
                None
            },
            _ => None,
        },
        Call::Advance => None,
        Call::Observe => if a.is_load() {
            Some(Pc::Start)
        } else {
            None
        },
    }
}

/// The position of `call` after access `a` at position `pc`; `None` if it may not make
/// that access there.
pub open spec fn step(g: PoolGeometry, call: Call, pc: Pc, a: Access) -> Option<Pc> {
    match pc {
        Pc::Start => step_start(g, call, a),
        Pc::Undo { slot } => match a {
            Access::FetchAddU64 { offset, delta, order, .. } => if offset == HDR_RESERVE_TAIL
                && delta == u64::MAX && order == MemOrder::Relaxed {
                Some(Pc::CountRefusal {
                    error: FenceError::PoolFull { capacity: g.capacity, requested_slot: slot },
                })
            } else {
                None
            },
            _ => None,
        },
        Pc::CountRefusal { error } => match call {
            Call::Append { host, .. } => if counts(g, host, METRICS_APPENDS_FAILED, 1, a) {
                Some(Pc::Done { outcome: Outcome::Append(Err(error)) })
            } else {
                None
            },
            _ => None,
        },
        Pc::Fill { slot, stage } => match call {
            Call::Append { host, term, data } => if a == fill_access(
                g,
                host,
                term,
                data,
                slot,
                stage,
            ) {
                if stage >= 9 {
                    Some(Pc::SweepLoad { goal: SweepFor::Append { slot }, lost: 0 })
                } else {
                    Some(Pc::Fill { slot, stage: next_stage(data, stage) })
                }
            } else {
                None
            },
            _ => None,
        },
        Pc::SweepLoad { goal, lost } => match a {
            Access::LoadU64 { offset, order, value } => if offset == HDR_COMMITTED_TAIL && order
                == MemOrder::Acquire {
                Some(go_on_sweep(g, call, goal, lost, value, value))
            } else {
                None
            },
            _ => None,
        },
        Pc::SweepScan { goal, lost, tail, next } => match a {
            Access::LoadU8 { offset, order, value } => if offset == g.record_at(next as int)
                && order == MemOrder::Acquire {
                if value == STATE_COMMITTED {
                    Some(go_on_sweep(g, call, goal, lost, tail, (next + 1) as u64))
                } else {
                    Some(stop_sweep(call, goal, lost, tail, next))
                }
            } else {
                None
            },
            _ => None,
        },
        Pc::SweepSwap { goal, lost, tail, next } => match a {
            Access::CompareExchangeU64 { offset, expected, desired, success, failure, result } =>
            if offset == HDR_COMMITTED_TAIL && expected == tail && desired == next && success
                == MemOrder::AcqRel && failure == MemOrder::Acquire {
                if result is Ok {
                    Some(after_sweep(call, goal, next))
                } else if lost < u64::MAX {
                    Some(Pc::SweepLoad { goal, lost: (lost + 1) as u64 })
                } else {
                    Some(after_sweep(call, goal, tail))
                }
            } else {
                None
            },
            _ => None,
        },
        Pc::CountAppend { slot } => match call {
            Call::Append { host, .. } => if counts(g, host, METRICS_APPENDS_TOTAL, 1, a) {
                Some(Pc::CountBytes { slot })
            } else {
                None
            },
            _ => None,
        },
        Pc::CountBytes { slot } => match call {
            Call::Append { host, data, .. } => if counts(
                g,
                host,
                METRICS_BYTES_WRITTEN,
                data.len() as u64,
                a,
            ) {
                Some(Pc::Done { outcome: Outcome::Append(Ok((slot + 1) as u64)) })
            } else {
                None
            },
            _ => None,
        },
        Pc::ReadState { tail } => match (call, a) {
            (Call::Read { index, .. }, Access::LoadU8 { offset, order, value }) => if offset
                == g.record_at(pool::slot_of(index) as int) && order == MemOrder::Acquire {
                if value != STATE_COMMITTED {
                    Some(Pc::Done { outcome: Outcome::Read(Ok(None)) })
                } else if pool::meta_in_pool(g, pool::slot_of(index) as int) {
                    Some(Pc::LoadFields {
                        goal: FieldsFor::Read { index, tail },
                        slot: pool::slot_of(index),
                        stage: 0,
                        got: no_fields(),
                    })
                } else {
                    Some(out_of_bounds(index, tail))
                }
            } else {
                None
            },
            _ => None,
        },
        Pc::LoadFields { goal, slot, stage, got } => step_fields(g, goal, slot, stage, got, a),
        Pc::CountRead { record } => match call {
            Call::Read { host, .. } => if counts(g, host, METRICS_READS_TOTAL, 1, a) {
                Some(Pc::Done { outcome: Outcome::Read(Ok(Some(record))) })
            } else {
                None
            },
            _ => None,
        },
        Pc::CountDamage => match call {
            Call::Read { host, index } => if counts(g, host, METRICS_CHECKSUM_FAILURES, 1, a) {
                Some(Pc::Done {
                    outcome: Outcome::Read(Err(FenceError::ChecksumMismatch { index })),
                })
            } else {
                None
            },
            _ => None,
        },
        Pc::TrimScan { slot, trimmed } => match (call, a) {
            (Call::Trim { up_to }, Access::LoadU8 { offset, order, value }) => if offset
                == g.record_at(slot as int) && order == MemOrder::Acquire {
                if value == STATE_COMMITTED {
                    Some(Pc::TrimStore { slot, trimmed })
                } else {
                    Some(go_on_trim(up_to, (slot + 1) as u64, trimmed))
                }
            } else {
                None
            },
            _ => None,
        },
        Pc::TrimStore { slot, trimmed } => if a == abandon_access(g, slot) {
            Some(Pc::TrimFlush { slot, trimmed })
        } else {
            None
        },
        Pc::TrimFlush { slot, trimmed } => match call {
            Call::Trim { up_to } => if a == flush_state_access(g, slot) {
                Some(go_on_trim(up_to, (slot + 1) as u64, (trimmed + 1) as u64))
            } else {
                None
            },
            _ => None,
        },
        Pc::RecoverScan { slot, limit, abandoned } => match a {
            Access::LoadU8 { offset, order, value } => if offset == g.record_at(slot as int)
                && order == MemOrder::Acquire {
                if value == STATE_COMMITTED {
                    Some(Pc::LoadFields {
                        goal: FieldsFor::Recover { limit, abandoned },
                        slot,
                        stage: 0,
                        got: no_fields(),
                    })
                } else if value == STATE_FREE || value == STATE_ABANDONED {
                    Some(go_on_recover((slot + 1) as u64, limit, abandoned))
                } else {
                    Some(Pc::RecoverStore { slot, limit, abandoned })
                }
            } else {
                None
            },
            _ => None,
        },
        Pc::RecoverStore { slot, limit, abandoned } => if a == abandon_access(g, slot) {
            Some(Pc::RecoverFlush { slot, limit, abandoned })
        } else {
            None
        },
        Pc::RecoverFlush { slot, limit, abandoned } => if a == flush_state_access(g, slot) {
            Some(go_on_recover((slot + 1) as u64, limit, (abandoned + 1) as u64))
        } else {
            None
        },
        Pc::CountRun { report } => match call {
            Call::Recover { host: Some(host) } => if counts(g, host, METRICS_RECOVERY_RUNS, 1, a) {
                Some(Pc::NoteAbandoned { report })
            } else {
                None
            },
            _ => None,
        },
        Pc::NoteAbandoned { report } => match call {
            Call::Recover { host: Some(host) } => if a == note_abandoned_access(
                g,
                host,
                report.abandoned_count,
            ) {
                Some(Pc::Done { outcome: Outcome::Recover(report) })
            } else {
                None
            },
            _ => None,
        },
        Pc::Done { .. } => None,
    }
}

/// The access by which `host` notes that its latest recovery run abandoned `n` records.
pub open spec fn note_abandoned_access(g: PoolGeometry, host: u16, n: u64) -> Access {
    Access::StoreU64 {
        offset: pool::counter_at(g, host, METRICS_ABANDONED_FOUND),
        order: MemOrder::Relaxed,
        value: n,
    }
}

/// The access that marks `slot` as abandoned.
pub open spec fn abandon_access(g: PoolGeometry, slot: u64) -> Access {
    Access::StoreU8 {
        offset: g.record_at(slot as int),
        order: MemOrder::Release,
        value: STATE_ABANDONED,
    }
}

/// The access that flushes the state of `slot`.
pub open spec fn flush_state_access(g: PoolGeometry, slot: u64) -> Access {
    Access::Flush { offset: g.record_at(slot as int), len: state_line(g, slot as int) }
}

/// How many bytes of the cacheline that holds the state of `slot` lie within the pool.
pub open spec fn state_line(g: PoolGeometry, slot: int) -> int {
    if g.record_at(slot) + CACHELINE <= g.total_size {
        CACHELINE as int
    } else {
        g.total_size - g.record_at(slot)
    }
}

/// No field loaded yet.
pub open spec fn no_fields() -> Fields {
    Fields {
        term: 0,
        index: 0,
        writer_id: 0,
        data_len: 0,
        checksum: 0,
        payload: Seq::empty(),
    }
}

/// The position that `call` reaches from `from` by making the given accesses in turn;
/// `None` if it may not make one of them.
pub open spec fn run(g: PoolGeometry, call: Call, from: Pc, accesses: Seq<Access>) -> Option<Pc>
    decreases accesses.len(),
{
    if accesses.len() == 0 {
        Some(from)
    } else {
        match run(g, call, from, accesses.drop_last()) {
            Some(pc) => step(g, call, pc, accesses.last()),
            None => None,
        }
    }
}

/// Between the traces `before` and `after`, `call` went from `from` to `to`.
#[verifier::opaque]
pub open spec fn reaches(
    g: PoolGeometry,
    call: Call,
    before: Seq<Access>,
    after: Seq<Access>,
    from: Pc,
    to: Pc,
) -> bool {
    &&& before.len() <= after.len()
    &&& after.subrange(0, before.len() as int) == before
    &&& run(g, call, from, after.subrange(before.len() as int, after.len() as int)) == Some(to)
}

/// Between the traces `before` and `after`, `call` was carried out and returned `outcome`.
pub open spec fn carries_out(
    g: PoolGeometry,
    call: Call,
    before: Seq<Access>,
    after: Seq<Access>,
    outcome: Outcome,
) -> bool {
    reaches(g, call, before, after, entry(call), Pc::Done { outcome })
}

/// Between the traces `before` and `after`, the indices from `start` on were read in turn,
/// as many as there are results.
pub open spec fn reads_in_turn(
    g: PoolGeometry,
    host: u16,
    start: u64,
    before: Seq<Access>,
    after: Seq<Access>,
    results: Seq<Result<Option<RecordView>, FenceError>>,
) -> bool
    decreases results.len(),
{
    if results.len() == 0 {
        before == after
    } else {
        exists|mid: Seq<Access>|
            {
                &&& reads_in_turn(g, host, start, before, mid, results.drop_last())
                &&& #[trigger] carries_out(
                    g,
                    Call::Read { host, index: (start + results.len() - 1) as u64 },
                    mid,
                    after,
                    Outcome::Read(results.last()),
                )
            }
    }
}

/// One more read continues a series of reads.
pub proof fn lemma_reads_next(
    g: PoolGeometry,
    host: u16,
    start: u64,
    before: Seq<Access>,
    mid: Seq<Access>,
    after: Seq<Access>,
    results: Seq<Result<Option<RecordView>, FenceError>>,
    next: Result<Option<RecordView>, FenceError>,
)
    requires
        reads_in_turn(g, host, start, before, mid, results),
        carries_out(
            g,
            Call::Read { host, index: (start + results.len()) as u64 },
            mid,
            after,
            Outcome::Read(next),
        ),
    ensures
        reads_in_turn(g, host, start, before, after, results.push(next)),
{
    let all = results.push(next);
    assert(all.drop_last() =~= results);
    assert(carries_out(
        g,
        Call::Read { host, index: (start + all.len() - 1) as u64 },
        mid,
        after,
        Outcome::Read(all.last()),
    ));
}

/// Without an access, an operation stays where it is.
pub proof fn lemma_reaches_here(g: PoolGeometry, call: Call, trace: Seq<Access>, pc: Pc)
    ensures
        reaches(g, call, trace, trace, pc, pc),
{
    reveal(reaches);
    assert(trace.subrange(0, trace.len() as int) =~= trace);
}

/// One more access takes an operation one step on.
pub proof fn lemma_reaches_next(
    g: PoolGeometry,
    call: Call,
    before: Seq<Access>,
    after: Seq<Access>,
    from: Pc,
    pc: Pc,
    a: Access,
)
    requires
        reaches(g, call, before, after, from, pc),
        step(g, call, pc, a) is Some,
    ensures
        reaches(g, call, before, after.push(a), from, step(g, call, pc, a)->0),
{
    reveal(reaches);
    let n = before.len() as int;
    let new = after.push(a);
    assert(new.subrange(0, n) =~= after.subrange(0, n));
    let part = new.subrange(n, new.len() as int);
    assert(part.drop_last() =~= after.subrange(n, after.len() as int));
    assert(part.last() == a);
}

/// Looking at the pool is all that [`Call::Observe`] does.
pub proof fn lemma_observes(
    g: PoolGeometry,
    before: Seq<Access>,
    after: Seq<Access>,
    loads: Seq<Access>,
)
    requires
        reaches(g, Call::Observe, before, after, Pc::Start, Pc::Start),
        forall|i: int| 0 <= i < loads.len() ==> (#[trigger] loads[i]).is_load(),
    ensures
        reaches(g, Call::Observe, before, after + loads, Pc::Start, Pc::Start),
    decreases loads.len(),
{
    if loads.len() == 0 {
        assert(after + loads =~= after);
    } else {
        let less = loads.drop_last();
        lemma_observes(g, before, after, less);
        lemma_reaches_next(
            g,
            Call::Observe,
            before,
            after + less,
            Pc::Start,
            Pc::Start,
            loads.last(),
        );
        assert((after + less).push(loads.last()) =~= after + loads);
    }
}

/// What two stretches of a trace achieve one after the other, they achieve together.
pub proof fn lemma_reaches_on(
    g: PoolGeometry,
    call: Call,
    first: Seq<Access>,
    second: Seq<Access>,
    third: Seq<Access>,
    from: Pc,
    mid: Pc,
    to: Pc,
)
    requires
        reaches(g, call, first, second, from, mid),
        reaches(g, call, second, third, mid, to),
    ensures
        reaches(g, call, first, third, from, to),
{
    reveal(reaches);
    let n = first.len() as int;
    let k = second.len() as int;
    assert(third.subrange(0, n) =~= first) by {
        assert(third.subrange(0, k) == second);
        assert(third.subrange(0, n) =~= second.subrange(0, n));
    }
    let head = second.subrange(n, k);
    let tail = third.subrange(k, third.len() as int);
    assert(third.subrange(n, third.len() as int) =~= head + tail) by {
        assert(third.subrange(0, k) == second);
        assert forall|i: int| n <= i < k implies third[i] == second[i] by {
            assert(third.subrange(0, k)[i] == second[i]);
        }
    }
    lemma_run_concat(g, call, from, head, tail);
}

proof fn lemma_run_concat(
    g: PoolGeometry,
    call: Call,
    from: Pc,
    head: Seq<Access>,
    tail: Seq<Access>,
)
    requires
        run(g, call, from, head) is Some,
    ensures
        run(g, call, from, head + tail) == run(g, call, run(g, call, from, head)->0, tail),
    decreases tail.len(),
{
    if tail.len() == 0 {
        assert(head + tail =~= head);
    } else {
        assert((head + tail).drop_last() =~= head + tail.drop_last());
        assert((head + tail).last() == tail.last());
        lemma_run_concat(g, call, from, head, tail.drop_last());
    }
}

} // verus!

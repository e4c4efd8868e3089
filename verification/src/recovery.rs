//! Crash recovery.
//!
//! After a host crash, some records may be half written. Recovery scans the claimed slots,
//! abandons the records that are unfinished or damaged, and moves the committed tail past
//! the committed slots that follow it, up to the first gap.
//!
//! Recovery is idempotent, and any host can run it at any time.
use crate::backend::{MemOrder, MemoryBackend};
use crate::layout;
use crate::layout::{
    PoolGeometry, CACHELINE, HDR_COMMITTED_TAIL, HDR_RESERVE_TAIL, REC_STATE, STATE_ABANDONED,
    STATE_COMMITTED, STATE_FREE,
};
use crate::memory as mem;
use crate::pool;
use crate::protocol;
use crate::protocol::{Call, FieldsFor, Outcome, Pc, SweepFor};
use crate::record;
use vstd::prelude::*;

verus! {

/// Report produced by a recovery run.
#[derive(Debug, Clone, Copy, PartialEq, Eq, Structural)]
pub struct RecoveryReport {
    /// Number of records that were unfinished or damaged (and are now abandoned).
    pub abandoned_count: u64,
    /// The committed tail after the run.
    pub committed_tail: u64,
    /// Number of slots scanned.
    pub slots_scanned: u64,
}

impl Default for RecoveryReport {
    fn default() -> (report: Self)
        ensures
            report == (RecoveryReport {
                abandoned_count: 0,
                committed_tail: 0,
                slots_scanned: 0,
            }),
    {
        RecoveryReport { abandoned_count: 0, committed_tail: 0, slots_scanned: 0 }
    }
}

/// The state that recovery gives to a slot in state `state`, whose checksum matches if
/// `intact`: free, abandoned and intact committed slots stay as they are, all others
/// (being written, damaged, unknown) are abandoned.
pub fn recovered_state(state: u8, intact: bool) -> (new_state: u8)
    ensures
        new_state == pool::recovered_state(state, intact),
{
    if state == STATE_FREE || (state == STATE_COMMITTED && intact) {
        state
    } else {
        STATE_ABANDONED
    }
}

/// Moves the committed tail past the committed slots that follow it, as part of `goal`.
///
/// A lost race means that another host moved the tail, so the sweep starts over from where
/// the tail is now. It would end without having moved the tail only after 2^64 lost races,
/// more than there can be: each of them is a step forward of the tail.
pub(crate) fn sweep_tail<B: MemoryBackend>(
    backend: &mut B,
    geometry: &PoolGeometry,
    Ghost(call): Ghost<Call>,
    Ghost(goal): Ghost<SweepFor>,
) -> (tail: u64)
    requires
        geometry.fits(old(backend).view().bytes.len()),
    ensures
        final(backend).view().bytes.len() == old(backend).view().bytes.len(),
        final(backend).view().exclusive == old(backend).view().exclusive,
        protocol::reaches(
            *geometry,
            call,
            old(backend).view().trace,
            final(backend).view().trace,
            Pc::SweepLoad { goal, lost: 0 },
            protocol::after_sweep(call, goal, tail),
        ),
        old(backend).view().exclusive ==> {
            &&& tail == pool::swept_tail(*geometry, old(backend).view().bytes)
            &&& final(backend).view().bytes == pool::swept(*geometry, old(backend).view().bytes)
        },
{
    let capacity: u64 = geometry.capacity as u64;
    let ghost g = *geometry;
    let ghost v0 = backend.view();
    let ghost from = Pc::SweepLoad { goal, lost: 0 };
    proof {
        protocol::lemma_reaches_here(g, call, v0.trace, from);
        layout::law_layout(g);
    }
    let mut lost: u64 = 0;
    loop
        invariant
            g == *geometry,
            capacity == g.capacity,
            from == (Pc::SweepLoad { goal, lost: 0 }),
            v0 == old(backend).view(),
            g.fits(backend.view().bytes.len()),
            backend.view().bytes.len() == v0.bytes.len(),
            backend.view().exclusive == v0.exclusive,
            v0.exclusive ==> lost == 0 && backend.view().bytes == v0.bytes,
            protocol::reaches(
                g,
                call,
                v0.trace,
                backend.view().trace,
                from,
                Pc::SweepLoad { goal, lost },
            ),
        decreases u64::MAX - lost,
    {
        let ghost t1 = backend.view().trace;
        let tail: u64 = backend.load_u64(HDR_COMMITTED_TAIL, MemOrder::Acquire);
        proof {
            let a = backend.view().trace.last();
            protocol::lemma_reaches_next(
                g,
                call,
                v0.trace,
                t1,
                from,
                Pc::SweepLoad { goal, lost },
                a,
            );
        }
        let mut next: u64 = tail;
        let mut open: bool = true;
        while next < capacity && open
            invariant
                g == *geometry,
                capacity == g.capacity,
                v0 == old(backend).view(),
                g.fits(backend.view().bytes.len()),
                backend.view().bytes.len() == v0.bytes.len(),
                backend.view().exclusive == v0.exclusive,
                tail <= next,
                next <= capacity || next == tail,
                v0.exclusive ==> backend.view().bytes == v0.bytes && tail == pool::committed_tail(
                    v0.bytes,
                ) && pool::sweep(g, v0.bytes, tail as int) == (if open {
                    pool::sweep(g, v0.bytes, next as int)
                } else {
                    next as int
                }),
                protocol::reaches(
                    g,
                    call,
                    v0.trace,
                    backend.view().trace,
                    from,
                    if open {
                        protocol::go_on_sweep(g, call, goal, lost, tail, next)
                    } else {
                        protocol::stop_sweep(call, goal, lost, tail, next)
                    },
                ),
            decreases capacity - next + (if open {
                1int
            } else {
                0int
            }),
        {
            let at: usize = geometry.slot_offset(next);
            let ghost t2 = backend.view().trace;
            let state: u8 = backend.load_u8(at + REC_STATE, MemOrder::Acquire);
            proof {
                let a = backend.view().trace.last();
                protocol::lemma_reaches_next(
                    g,
                    call,
                    v0.trace,
                    t2,
                    from,
                    protocol::go_on_sweep(g, call, goal, lost, tail, next),
                    a,
                );
            }
            if state == STATE_COMMITTED {
                next = next + 1;
            } else {
                open = false;
            }
        }
        proof {
            pool::lemma_sweep_range(g, v0.bytes, next as int);
            if v0.exclusive {
                assert(pool::sweep(g, v0.bytes, tail as int) == next);
            }
        }
        if next == tail {
            proof {
                if v0.exclusive {
                    mem::lemma_put_same_u64(v0.bytes, HDR_COMMITTED_TAIL as int);
                }
            }
            return tail;
        }
        let ghost t3 = backend.view().trace;
        let swapped: Result<u64, u64> = backend.compare_exchange_u64(
            HDR_COMMITTED_TAIL,
            tail,
            next,
            MemOrder::AcqRel,
            MemOrder::Acquire,
        );
        proof {
            let a = backend.view().trace.last();
            protocol::lemma_reaches_next(
                g,
                call,
                v0.trace,
                t3,
                from,
                Pc::SweepSwap { goal, lost, tail, next },
                a,
            );
        }
        if swapped.is_ok() {
            return next;
        }
        if lost == u64::MAX {
            return tail;
        }
        lost = lost + 1;
    }
}

/// Moves the committed tail past the committed slots that follow it.
///
/// Stops at the first slot that is not committed. Returns the committed tail. Any number
/// of hosts may do this at the same time.
pub fn advance_committed_tail<B: MemoryBackend>(
    backend: &mut B,
    geometry: &PoolGeometry,
) -> (tail: u64)
    requires
        geometry.fits(old(backend).view().bytes.len()),
    ensures
        final(backend).view().bytes.len() == old(backend).view().bytes.len(),
        final(backend).view().exclusive == old(backend).view().exclusive,
        protocol::carries_out(
            *geometry,
            Call::Advance,
            old(backend).view().trace,
            final(backend).view().trace,
            Outcome::Advance(tail),
        ),
        old(backend).view().exclusive ==> {
            &&& tail == pool::swept_tail(*geometry, old(backend).view().bytes)
            &&& final(backend).view().bytes == pool::swept(*geometry, old(backend).view().bytes)
        },
{
    sweep_tail(backend, geometry, Ghost(Call::Advance), Ghost(SweepFor::Nothing))
}

/// Runs recovery as part of `call`, up to the point where the run would be counted.
pub(crate) fn recover_slots<B: MemoryBackend>(
    backend: &mut B,
    geometry: &PoolGeometry,
    Ghost(call): Ghost<Call>,
) -> (report: RecoveryReport)
    requires
        geometry.fits(old(backend).view().bytes.len()),
        call is Recover,
    ensures
        final(backend).view().bytes.len() == old(backend).view().bytes.len(),
        final(backend).view().exclusive == old(backend).view().exclusive,
        report.abandoned_count <= report.slots_scanned <= geometry.capacity,
        protocol::reaches(
            *geometry,
            call,
            old(backend).view().trace,
            final(backend).view().trace,
            Pc::Start,
            protocol::after_sweep(
                call,
                SweepFor::Recover {
                    scanned: report.slots_scanned,
                    abandoned: report.abandoned_count,
                },
                report.committed_tail,
            ),
        ),
        old(backend).view().exclusive ==> {
            let m = old(backend).view().bytes;
            &&& report == recovery_report(*geometry, m)
            &&& final(backend).view().bytes == pool::recovered(*geometry, m)
        },
{
    let ghost g = *geometry;
    let ghost v0 = backend.view();
    let ghost from = Pc::Start;
    let ghost states = pool::recovered_states(g, v0.bytes);
    proof {
        protocol::lemma_reaches_here(g, call, v0.trace, from);
        layout::law_layout(g);
    }
    let reserve_tail: u64 = backend.load_u64(HDR_RESERVE_TAIL, MemOrder::Acquire);
    proof {
        let a = backend.view().trace.last();
        protocol::lemma_reaches_next(g, call, v0.trace, v0.trace, from, from, a);
    }
    let limit: u64 = if reserve_tail <= geometry.capacity as u64 {
        reserve_tail
    } else {
        geometry.capacity as u64
    };
    let mut abandoned: u64 = 0;
    let mut slot: u64 = 0;
    while slot < limit
        invariant
            g == *geometry,
            from == Pc::Start,
            states == pool::recovered_states(g, v0.bytes),
            call is Recover,
            g.fits(backend.view().bytes.len()),
            backend.view().bytes.len() == v0.bytes.len(),
            backend.view().exclusive == v0.exclusive,
            abandoned <= slot <= limit <= g.capacity,
            v0.exclusive ==> backend.view().bytes == pool::with_states(
                g,
                v0.bytes,
                slot as int,
                states,
            ) && abandoned == pool::states_changed(g, v0.bytes, slot as int, states) && limit
                == pool::scan_limit(g, pool::reserve_tail(v0.bytes)),
            protocol::reaches(
                g,
                call,
                v0.trace,
                backend.view().trace,
                from,
                protocol::go_on_recover(slot, limit, abandoned),
            ),
        decreases limit - slot,
    {
        let at: usize = geometry.slot_offset(slot);
        let ghost m = backend.view().bytes;
        let ghost t1 = backend.view().trace;
        proof {
            if v0.exclusive {
                pool::lemma_with_states(g, v0.bytes, slot as int, states);
                assert(pool::state_of(g, m, slot as int) == pool::state_of(
                    g,
                    v0.bytes,
                    slot as int,
                ));
                pool::lemma_fields_agree(g, m, v0.bytes, slot as int);
            }
        }
        let state: u8 = backend.load_u8(at + REC_STATE, MemOrder::Acquire);
        proof {
            let a = backend.view().trace.last();
            protocol::lemma_reaches_next(
                g,
                call,
                v0.trace,
                t1,
                from,
                Pc::RecoverScan { slot, limit, abandoned },
                a,
            );
        }
        let intact: bool = if state == STATE_COMMITTED {
            let ghost goal = FieldsFor::Recover { limit, abandoned };
            let ghost t2 = backend.view().trace;
            proof {
                pool::lemma_in_pool(g);
            }
            let loaded = record::load_fields(backend, geometry, slot, Ghost(call), Ghost(goal));
            proof {
                protocol::lemma_reaches_on(
                    g,
                    call,
                    v0.trace,
                    t2,
                    backend.view().trace,
                    from,
                    Pc::LoadFields { goal, slot, stage: 0, got: protocol::no_fields() },
                    record::after_loading(goal, slot, loaded),
                );
            }
            match loaded {
                Some(fields) => fields.intact(),
                None => false,
            }
        } else {
            false
        };
        let new_state: u8 = recovered_state(state, intact);
        proof {
            if v0.exclusive {
                assert(new_state == states(slot as int));
            }
        }
        if new_state != state {
            let ghost t3 = backend.view().trace;
            backend.store_u8(at + REC_STATE, STATE_ABANDONED, MemOrder::Release);
            proof {
                let a = backend.view().trace.last();
                protocol::lemma_reaches_next(
                    g,
                    call,
                    v0.trace,
                    t3,
                    from,
                    Pc::RecoverStore { slot, limit, abandoned },
                    a,
                );
            }
            let ghost t4 = backend.view().trace;
            backend.flush(at, CACHELINE);
            proof {
                let a = backend.view().trace.last();
                protocol::lemma_reaches_next(
                    g,
                    call,
                    v0.trace,
                    t4,
                    from,
                    Pc::RecoverFlush { slot, limit, abandoned },
                    a,
                );
            }
            abandoned = abandoned + 1;
        } else {
            assert(mem::put_u8(m, at as int, m[at as int]) =~= m);
        }
        slot = slot + 1;
    }
    let ghost t5 = backend.view().trace;
    let ghost goal = SweepFor::Recover { scanned: limit, abandoned };
    let committed_tail: u64 = sweep_tail(backend, geometry, Ghost(call), Ghost(goal));
    proof {
        protocol::lemma_reaches_on(
            g,
            call,
            v0.trace,
            t5,
            backend.view().trace,
            from,
            Pc::SweepLoad { goal, lost: 0 },
            protocol::after_sweep(call, goal, committed_tail),
        );
    }
    RecoveryReport { abandoned_count: abandoned, committed_tail, slots_scanned: limit }
}

/// What a recovery run reports.
pub open spec fn recovery_report(g: PoolGeometry, m: Seq<u8>) -> RecoveryReport {
    RecoveryReport {
        abandoned_count: pool::abandoned_count(g, m) as u64,
        committed_tail: pool::swept_tail(g, pool::mended(g, m)),
        slots_scanned: pool::scan_limit(g, pool::reserve_tail(m)),
    }
}

/// Runs crash recovery on a pool.
///
/// 1. Loads the reserve tail to learn how many slots have ever been claimed.
/// 2. Abandons every claimed slot that is being written, has a checksum that does not
///    match, or is in an unknown state.
/// 3. Moves the committed tail past the committed slots that follow it.
pub fn recover<B: MemoryBackend>(backend: &mut B, geometry: &PoolGeometry) -> (report:
    RecoveryReport)
    requires
        geometry.fits(old(backend).view().bytes.len()),
    ensures
        final(backend).view().bytes.len() == old(backend).view().bytes.len(),
        final(backend).view().exclusive == old(backend).view().exclusive,
        protocol::carries_out(
            *geometry,
            Call::Recover { host: None },
            old(backend).view().trace,
            final(backend).view().trace,
            Outcome::Recover(report),
        ),
        old(backend).view().exclusive ==> {
            let m = old(backend).view().bytes;
            &&& report == recovery_report(*geometry, m)
            &&& final(backend).view().bytes == pool::recovered(*geometry, m)
        },
{
    recover_slots(backend, geometry, Ghost(Call::Recover { host: None }))
}

} // verus!

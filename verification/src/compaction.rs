//! Log compaction.
//!
//! Trimming abandons the committed records up to a given index. The log is flat: trimmed
//! records stay where they are, as abandoned skeletons.
use crate::backend::{MemOrder, MemoryBackend};
use crate::error::FenceError;
use crate::layout;
use crate::layout::{
    PoolGeometry, CACHELINE, HDR_COMMITTED_TAIL, REC_STATE, STATE_ABANDONED, STATE_COMMITTED,
};
use crate::memory as mem;
use crate::pool;
use crate::protocol;
use crate::protocol::{Call, Outcome, Pc};
use vstd::prelude::*;

verus! {

/// Result of a trim.
#[derive(Debug, Clone, Copy, PartialEq, Eq, Structural)]
pub struct TrimResult {
    /// Number of records that the trim abandoned.
    pub trimmed_count: u64,
}

/// The number of trimmed records in what a trim returned.
pub open spec fn trimmed_count(result: Result<TrimResult, FenceError>) -> Result<u64, FenceError> {
    match result {
        Ok(trim) => Ok(trim.trimmed_count),
        Err(error) => Err(error),
    }
}

/// Abandons all committed records with an index up to and including `up_to`.
///
/// Slots that are free, abandoned or being written are left alone. Fails with
/// `TrimBeyondCommitted` if the committed tail lies before `up_to` (or, with a tail past the
/// capacity in a damaged header, if a slot up to `up_to` lies past the pool).
pub fn trim<B: MemoryBackend>(backend: &mut B, geometry: &PoolGeometry, up_to: u64) -> (result:
    Result<TrimResult, FenceError>)
    requires
        geometry.fits(old(backend).view().bytes.len()),
    ensures
        final(backend).view().bytes.len() == old(backend).view().bytes.len(),
        final(backend).view().exclusive == old(backend).view().exclusive,
        protocol::carries_out(
            *geometry,
            Call::Trim { up_to },
            old(backend).view().trace,
            final(backend).view().trace,
            Outcome::Trim(trimmed_count(result)),
        ),
        old(backend).view().exclusive ==> {
            let m = old(backend).view().bytes;
            &&& trimmed_count(result) == pool::trim_result(*geometry, m, up_to)
            &&& final(backend).view().bytes == pool::trimmed(*geometry, m, up_to)
        },
{
    let ghost g = *geometry;
    let ghost v0 = backend.view();
    let ghost call = Call::Trim { up_to };
    let ghost from = Pc::Start;
    let ghost states = pool::trimmed_states(g, v0.bytes);
    proof {
        protocol::lemma_reaches_here(g, call, v0.trace, from);
        layout::law_layout(g);
    }
    let committed_tail: u64 = backend.load_u64(HDR_COMMITTED_TAIL, MemOrder::Acquire);
    proof {
        let a = backend.view().trace.last();
        protocol::lemma_reaches_next(g, call, v0.trace, v0.trace, from, from, a);
    }
    let slots: u64 = up_to % 0x1_0000_0000;
    if up_to > committed_tail || (slots > 0 && geometry.place((slots - 1) as u32)
        >= geometry.total_size) {
        return Err(FenceError::TrimBeyondCommitted { requested: up_to, committed_tail });
    }
    let mut trimmed: u64 = 0;
    let mut slot: u64 = 0;
    while slot < slots
        invariant
            g == *geometry,
            call == (Call::Trim { up_to }),
            from == Pc::Start,
            states == pool::trimmed_states(g, v0.bytes),
            g.fits(backend.view().bytes.len()),
            backend.view().bytes.len() == v0.bytes.len(),
            backend.view().exclusive == v0.exclusive,
            slots == pool::trim_slots(up_to),
            slots > 0 ==> pool::state_in_pool(g, slots - 1),
            trimmed <= slot <= slots <= u32::MAX,
            v0.exclusive ==> backend.view().bytes == pool::with_states(
                g,
                v0.bytes,
                slot as int,
                states,
            ) && trimmed == pool::states_changed(g, v0.bytes, slot as int, states),
            protocol::reaches(
                g,
                call,
                v0.trace,
                backend.view().trace,
                from,
                protocol::go_on_trim(up_to, slot, trimmed),
            ),
        decreases slots - slot,
    {
        let place: u64 = geometry.place(slot as u32);
        proof {
            if slot < slots - 1 {
                layout::lemma_record_order(g, slot as int, slots - 1);
            }
        }
        let at: usize = place as usize;
        let ghost m = backend.view().bytes;
        let ghost t1 = backend.view().trace;
        proof {
            if v0.exclusive {
                pool::lemma_with_states_rest(g, v0.bytes, slot as int, states);
                assert(pool::state_of(g, m, slot as int) == pool::state_of(
                    g,
                    v0.bytes,
                    slot as int,
                ));
            }
        }
        let state: u8 = backend.load_u8(at + REC_STATE, MemOrder::Acquire);
        proof {
            let a = backend.view().trace.last();
            protocol::lemma_reaches_next(
                g,
                call,
                v0.trace,
                t1,
                from,
                Pc::TrimScan { slot, trimmed },
                a,
            );
        }
        if state == STATE_COMMITTED {
            let ghost t2 = backend.view().trace;
            backend.store_u8(at + REC_STATE, STATE_ABANDONED, MemOrder::Release);
            proof {
                let a = backend.view().trace.last();
                protocol::lemma_reaches_next(
                    g,
                    call,
                    v0.trace,
                    t2,
                    from,
                    Pc::TrimStore { slot, trimmed },
                    a,
                );
            }
            let ghost t3 = backend.view().trace;
            let line: usize = if geometry.total_size - place >= CACHELINE as u64 {
                CACHELINE
            } else {
                (geometry.total_size - place) as usize
            };
            backend.flush(at, line);
            proof {
                let a = backend.view().trace.last();
                protocol::lemma_reaches_next(
                    g,
                    call,
                    v0.trace,
                    t3,
                    from,
                    Pc::TrimFlush { slot, trimmed },
                    a,
                );
            }
            trimmed = trimmed + 1;
        } else {
            assert(mem::put_u8(m, at as int, m[at as int]) =~= m);
        }
        slot = slot + 1;
    }
    Ok(TrimResult { trimmed_count: trimmed })
}

} // verus!

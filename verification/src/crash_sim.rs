//! Crash simulation for testing recovery.
//!
//! A writer asks a [`CrashSim`] at each point of interest whether to stop there.
use crate::backend::{Access, MemOrder, MemoryBackend};
use crate::layout::{
    PoolGeometry, HDR_RESERVE_TAIL, REC_INDEX, REC_STATE, REC_TERM, STATE_WRITING,
};
use crate::memory as mem;
use crate::pool;
use crate::recovery;
use std::sync::atomic::{AtomicBool, Ordering};
use std::sync::Arc;
use vstd::prelude::*;
use vstd::string::*;

verus! {

/// Says at which point of the write protocol a writer should stop.
///
/// Whether it does is a flag that all clones share: one host keeps a clone and arms it, the
/// writers check theirs.
#[derive(Debug)]
pub struct CrashSim {
    should_crash: Arc<AtomicBool>,
    crash_point: String,
}

/// Whether a check of `point` tells to stop, given the flag and the point to crash at.
pub fn crashes_at(armed: bool, crash_point: &str, point: &str) -> (crash: bool)
    ensures
        crash == (armed && crash_point@ == point@),
{
    armed && crash_point.to_string() == point.to_string()
}

impl Clone for CrashSim {
    /// A simulator for the same point that shares the flag.
    fn clone(&self) -> (other: Self)
        ensures
            other.point() == self.point(),
            other.flag() == self.flag(),
    {
        CrashSim { should_crash: self.should_crash.clone(), crash_point: self.crash_point.clone() }
    }
}

impl CrashSim {
    /// The flag, by its identity: simulators with the same flag are armed and disarmed
    /// together.
    pub closed spec fn flag(&self) -> AtomicBool {
        *self.should_crash
    }

    /// The point to crash at.
    pub closed spec fn point(&self) -> Seq<char> {
        self.crash_point@
    }

    /// A simulator for the given crash point, disarmed.
    ///
    /// Points in use: `"after_reserve"` (a slot is claimed, nothing written),
    /// `"after_write"` (the payload is written, the record not committed),
    /// `"before_flush"` (the payload is written, not flushed).
    pub fn new(crash_point: &str) -> (sim: Self)
        ensures
            sim.point() == crash_point@,
    {
        CrashSim {
            should_crash: Arc::new(AtomicBool::new(false)),
            crash_point: crash_point.to_string(),
        }
    }

    /// Arms the crash, here and in every clone: checks at its point tell to stop from now on.
    ///
    /// The flag may change through any clone at any time, so no contract tells its value.
    pub fn arm(&self) {
        self.should_crash.store(true, Ordering::SeqCst);
    }

    /// Disarms the crash, here and in every clone.
    pub fn disarm(&self) {
        self.should_crash.store(false, Ordering::SeqCst);
    }

    /// Whether the caller should stop at the given point: loads the flag and decides by
    /// [`crashes_at`]. Checking does not disarm.
    pub fn should_crash_at(&self, point: &str) -> (crash: bool)
        ensures
            crash ==> self.point() == point@,
    {
        crashes_at(self.should_crash.load(Ordering::SeqCst), self.crash_point.as_str(), point)
    }

    /// Checks the given point on behalf of a writer under test.
    ///
    /// The result stands in place of a panic: where it is true, the crash is armed for this
    /// point and the writer is to stop there, with its record as it is.
    pub fn maybe_crash(&self, point: &str) -> (crash: bool)
        ensures
            crash ==> self.point() == point@,
    {
        self.should_crash_at(point)
    }

    /// Writes half a record: claims a slot and begins to write it, but does not commit it.
    ///
    /// Returns the slot. If the pool is full, the slot lies behind the records, and what is
    /// written there goes into the metrics, as far as they reach.
    pub fn simulate_crashed_write<B: MemoryBackend>(
        backend: &mut B,
        capacity: u32,
        payload_size: u32,
        max_hosts: u16,
    ) -> (slot: u64)
        requires
            64 + payload_size <= u32::MAX,
            half_written_geometry(capacity, payload_size, max_hosts).fits(
                old(backend).view().bytes.len(),
            ),
        ensures
            final(backend).view().bytes.len() == old(backend).view().bytes.len(),
            final(backend).view().exclusive == old(backend).view().exclusive,
            final(backend).view().trace == old(backend).view().trace + crashed_write(
                half_written_geometry(capacity, payload_size, max_hosts),
                slot,
            ),
            old(backend).view().exclusive ==> {
                &&& slot == pool::reserve_tail(old(backend).view().bytes)
                &&& final(backend).view().bytes == half_written(
                    half_written_geometry(capacity, payload_size, max_hosts),
                    old(backend).view().bytes,
                )
            },
    {
        let ghost v0 = backend.view();
        let geometry = PoolGeometry::new(capacity, payload_size, max_hosts);
        let slot: u64 = backend.fetch_add_u64(HDR_RESERVE_TAIL, 1, MemOrder::AcqRel);
        let place: u64 = geometry.place((slot % 0x1_0000_0000) as u32);
        if place <= geometry.total_size && geometry.total_size - place >= 24 {
            let at: usize = place as usize;
            backend.store_u8(at + REC_STATE, STATE_WRITING, MemOrder::Release);
            backend.store_u64(at + REC_TERM, 99, MemOrder::Relaxed);
            backend.store_u64(at + REC_INDEX, slot.wrapping_add(1), MemOrder::Relaxed);
        }
        assert(backend.view().trace =~= v0.trace + crashed_write(geometry, slot));
        slot
    }
}

/// The dimensions of the pool with the given parameters.
pub open spec fn half_written_geometry(
    capacity: u32,
    payload_size: u32,
    max_hosts: u16,
) -> PoolGeometry {
    crate::engine::dimensions_of(capacity as int, 64 + payload_size, max_hosts as int)
}

/// Where a crashed write to `slot` writes. Slot numbers have 32 bits.
pub open spec fn crash_at(g: PoolGeometry, slot: u64) -> int {
    g.record_at(slot as int % 0x1_0000_0000)
}

/// The accesses of a crashed write to `slot`.
pub open spec fn crashed_write(g: PoolGeometry, slot: u64) -> Seq<Access> {
    let at = crash_at(g, slot);
    let claim = seq![
        Access::FetchAddU64 {
            offset: HDR_RESERVE_TAIL as int,
            delta: 1,
            order: MemOrder::AcqRel,
            previous: slot,
        },
    ];
    if at + 24 <= g.total_size {
        claim.push(
            Access::StoreU8 { offset: at, order: MemOrder::Release, value: STATE_WRITING },
        ).push(
            Access::StoreU64 { offset: at + REC_TERM, order: MemOrder::Relaxed, value: 99 },
        ).push(
            Access::StoreU64 {
                offset: at + REC_INDEX,
                order: MemOrder::Relaxed,
                value: mem::wrapped_sum(slot, 1),
            },
        )
    } else {
        claim
    }
}

/// The pool after a crashed write.
pub open spec fn half_written(g: PoolGeometry, m: Seq<u8>) -> Seq<u8> {
    let slot = pool::reserve_tail(m);
    let at = crash_at(g, slot);
    let m = mem::put_u64(m, HDR_RESERVE_TAIL as int, mem::wrapped_sum(slot, 1));
    if at + 24 <= g.total_size {
        let m = mem::put_u8(m, at, STATE_WRITING);
        let m = mem::put_u64(m, at + REC_TERM, 99);
        mem::put_u64(m, at + REC_INDEX, mem::wrapped_sum(slot, 1))
    } else {
        m
    }
}

/// A crashed write claims the next slot and leaves it in the middle of being written, with the
/// term and the index of a record there; no other slot and no tail that readers go by changes.
pub proof fn law_crashed_write(g: PoolGeometry, m: Seq<u8>, other: int)
    requires
        g.fits(m.len()),
        pool::reserve_tail(m) < g.capacity,
        0 <= other < g.capacity,
    ensures
        ({
            let after = half_written(g, m);
            let slot = pool::reserve_tail(m);
            let at = g.record_at(slot as int);
            &&& after.len() == m.len()
            &&& pool::reserve_tail(after) == slot + 1
            &&& pool::committed_tail(after) == pool::committed_tail(m)
            &&& pool::state_of(g, after, slot as int) == STATE_WRITING
            &&& mem::u64_at(after, at + REC_TERM) == 99
            &&& mem::u64_at(after, at + REC_INDEX) == slot + 1
            &&& other != slot ==> pool::state_of(g, after, other) == pool::state_of(g, m, other)
                && pool::fields_of(g, after, other) == pool::fields_of(g, m, other)
            &&& mem::agree(after, m, g.record_at(g.capacity as int), m.len() as int)
        }),
{
    broadcast use mem::group_put;

    vstd::bytes::lemma_auto_spec_u64_to_from_le_bytes();
    crate::layout::law_layout(g);
    let slot = pool::reserve_tail(m);
    let at = g.record_at(slot as int);
    assert(crash_at(g, slot) == at);
    assert(64 <= at && at + g.record_size <= g.record_at(g.capacity as int));
    let m1 = mem::put_u64(m, HDR_RESERVE_TAIL as int, mem::wrapped_sum(slot, 1));
    let m2 = mem::put_u8(m1, at, STATE_WRITING);
    let m3 = mem::put_u64(m2, at + REC_TERM, 99);
    let m4 = mem::put_u64(m3, at + REC_INDEX, mem::wrapped_sum(slot, 1));
    let after = half_written(g, m);
    assert(after == m4);
    mem::lemma_put_then_u64(m3, at + REC_INDEX, mem::wrapped_sum(slot, 1));
    mem::lemma_put_then_u64(m2, at + REC_TERM, 99);
    assert(after[at] == STATE_WRITING);
    if other != slot {
        assert(64 <= g.record_at(other));
        assert(g.record_at(other) + g.record_size <= g.record_at(g.capacity as int));
        if other < slot {
            assert(g.record_at(other) + g.record_size <= at);
        } else {
            assert(at + g.record_size <= g.record_at(other));
        }
        assert(mem::agree(
            after,
            m,
            g.record_at(other),
            g.record_at(other) + g.record_size,
        ));
        pool::lemma_fields_agree(g, after, m, other);
    }
}

/// A crashed write is what recovery is for: the next run abandons that slot, and so one record
/// more than it would have abandoned without it.
pub proof fn law_crashed_write_recovered(g: PoolGeometry, m: Seq<u8>)
    requires
        g.fits(m.len()),
        pool::reserve_tail(m) < g.capacity,
    ensures
        ({
            let after = half_written(g, m);
            let slot = pool::reserve_tail(m) as int;
            &&& pool::state_of(g, pool::recovered(g, after), slot)
                == crate::layout::STATE_ABANDONED
            &&& recovery::recovery_report(g, after).abandoned_count == recovery::recovery_report(
                g,
                m,
            ).abandoned_count + 1
            &&& recovery::recovery_report(g, after).slots_scanned == slot + 1
        }),
{
    let after = half_written(g, m);
    let slot = pool::reserve_tail(m) as int;
    law_crashed_write(g, m, slot);
    crate::laws::lemma_recovered(g, after);
    let f = pool::recovered_states(g, m);
    let h = pool::recovered_states(g, after);
    assert forall|s: int| 0 <= s < slot implies #[trigger] f(s) == h(s) && pool::state_of(g, m, s)
        == pool::state_of(g, after, s) by {
        law_crashed_write(g, m, s);
    }
    lemma_same_changes(g, m, after, slot, f, h);
    crate::laws::lemma_states_changed_bound(g, m, slot, f);
}

proof fn lemma_same_changes(
    g: PoolGeometry,
    a: Seq<u8>,
    b: Seq<u8>,
    n: int,
    f: spec_fn(int) -> u8,
    h: spec_fn(int) -> u8,
)
    requires
        forall|s: int|
            0 <= s < n ==> #[trigger] f(s) == h(s) && pool::state_of(g, a, s) == pool::state_of(
                g,
                b,
                s,
            ),
    ensures
        pool::states_changed(g, a, n, f) == pool::states_changed(g, b, n, h),
    decreases n,
{
    if n > 0 {
        lemma_same_changes(g, a, b, n - 1, f, h);
        assert(f(n - 1) == h(n - 1));
    }
}

} // verus!

//! Many hosts at work on one pool, crashes included.
//!
//! A [`System`] is a pool in memory, the medium behind it, and every operation that any host
//! has begun. Operations advance one access at a time, in any order, each as
//! [`protocol::step`] allows; the bytes of an access take effect together. What is written
//! to memory may reach the medium at any moment (aligned words whole), and has reached it
//! once it was flushed. A host may crash at any moment: its operations stop for good, and
//! what they wrote to a record of theirs and did not flush may be lost.
use crate::backend::Access;
use crate::error::FenceError;
use crate::laws;
use crate::layout;
use crate::layout::{
    PoolGeometry, HDR_COMMITTED_TAIL, HEADER_SIZE, REC_CHECKSUM,
    REC_DATA_LEN, REC_INDEX, REC_PAYLOAD, REC_TERM, REC_WRITER_ID, STATE_ABANDONED,
    STATE_COMMITTED, STATE_FREE, STATE_WRITING,
};
use crate::memory as mem;
use crate::pool;
use crate::pool::{Fields, RecordView};
use crate::protocol;
use crate::protocol::{Call, FieldsFor, Outcome, Pc, SweepFor};
use vstd::bytes::*;
use vstd::prelude::*;

verus! {

/// An operation that a host has begun, and how far it has come.
pub struct Activity {
    pub call: Call,
    pub pc: Pc,
    /// The host has not crashed.
    pub alive: bool,
}

/// A pool and everything that was begun on it.
pub struct System {
    pub g: PoolGeometry,
    /// The pool as the hosts see it.
    pub memory: Seq<u8>,
    /// The pool as the medium holds it.
    pub medium: Seq<u8>,
    /// The operations begun so far, oldest first.
    pub calls: Seq<Activity>,
    /// Which operation claimed each slot that was claimed so far.
    pub owner: Seq<int>,
}

/// The slot that an operation has claimed.
pub open spec fn claim(act: Activity) -> Option<u64> {
    match act.pc {
        Pc::Fill { slot, .. } => Some(slot),
        Pc::SweepLoad { goal: SweepFor::Append { slot }, .. } => Some(slot),
        Pc::SweepScan { goal: SweepFor::Append { slot }, .. } => Some(slot),
        Pc::SweepSwap { goal: SweepFor::Append { slot }, .. } => Some(slot),
        Pc::CountAppend { slot } => Some(slot),
        Pc::CountBytes { slot } => Some(slot),
        Pc::Done { outcome: Outcome::Append(Ok(index)) } => Some((index - 1) as u64),
        _ => None,
    }
}

/// How many of the accesses that write its record an operation has behind it.
pub open spec fn stage(act: Activity) -> int {
    match act.pc {
        Pc::Fill { stage, .. } => stage,
        _ => 10,
    }
}

/// An operation that still has to take back a reservation.
pub open spec fn takes_back(act: Activity) -> bool {
    act.pc is Undo
}

/// How many operations still have to take back a reservation.
pub open spec fn taking_back(calls: Seq<Activity>) -> nat
    decreases calls.len(),
{
    if calls.len() == 0 {
        0
    } else {
        taking_back(calls.drop_last()) + (if takes_back(calls.last()) {
            1nat
        } else {
            0nat
        })
    }
}

/// The operation can be begun on a pool of these dimensions.
pub open spec fn valid_call(g: PoolGeometry, call: Call) -> bool {
    match call {
        Call::Append { host, .. } => host < g.max_hosts,
        Call::Read { host, .. } => host < g.max_hosts,
        Call::Recover { host: Some(host) } => host < g.max_hosts,
        _ => true,
    }
}

/// `next` is what the medium may hold after `medium` when memory holds `memory`.
pub open spec fn seeps(medium: Seq<u8>, memory: Seq<u8>, next: Seq<u8>) -> bool {
    &&& next.len() == medium.len()
    &&& forall|i: int|
        0 <= i < next.len() ==> #[trigger] next[i] == medium[i] || next[i] == memory[i]
    &&& forall|x: int|
        0 <= x && x + 8 <= next.len() && x % 8 == 0 ==> #[trigger] mem::u64_at(next, x)
            == mem::u64_at(medium, x) || mem::u64_at(next, x) == mem::u64_at(memory, x)
}

impl System {
    /// The fields of the record that the owner of a slot writes.
    pub open spec fn record_of(self, slot: int) -> Fields {
        match self.calls[self.owner[slot]].call {
            Call::Append { host, term, data } => pool::appended_fields(
                slot as u64,
                host,
                term,
                data,
            ),
            _ => arbitrary(),
        }
    }

    /// The slot was claimed, and its owner has begun to write it.
    pub open spec fn touched(self, slot: int) -> bool {
        0 <= slot < self.owner.len() && stage(self.calls[self.owner[slot]]) >= 1
    }

    /// The slot was claimed, and its owner has committed it.
    pub open spec fn committed(self, slot: int) -> bool {
        0 <= slot < self.owner.len() && stage(self.calls[self.owner[slot]]) >= 9
    }
}

/// A fresh pool: empty, and on the medium as in memory.
pub open spec fn starts(sys: System) -> bool {
    &&& sys.g.fits(sys.memory.len())
    &&& pool::committed_tail(sys.memory) == 0
    &&& pool::reserve_tail(sys.memory) == 0
    &&& forall|s: int|
        0 <= s < sys.g.capacity ==> #[trigger] pool::state_of(sys.g, sys.memory, s) == STATE_FREE
    &&& sys.medium == sys.memory
    &&& sys.calls.len() == 0
    &&& sys.owner.len() == 0
}

/// A host begins an operation.
///
/// The counters of the pool have 64 bits: a pool lives for fewer than 2^64 - 2^32 operations.
pub open spec fn begins(sys: System, call: Call, next: System) -> bool {
    &&& valid_call(sys.g, call)
    &&& sys.calls.len() + 1 < u64::MAX - u32::MAX
    &&& next == System {
        calls: sys.calls.push(Activity { call, pc: protocol::entry(call), alive: true }),
        ..sys
    }
}

/// An operation makes its next access.
pub open spec fn advances(sys: System, id: int, a: Access, next: System) -> bool {
    let act = sys.calls[id];
    let pc = protocol::step(sys.g, act.call, act.pc, a);
    &&& 0 <= id < sys.calls.len()
    &&& act.alive
    &&& pc is Some
    &&& a.answers(sys.memory)
    &&& next.g == sys.g
    &&& next.memory == a.apply(sys.memory)
    &&& seeps(sys.medium, next.memory, next.medium)
    &&& a matches Access::Flush { offset, len } ==> mem::agree(
        next.medium,
        next.memory,
        offset,
        offset + len,
    )
    &&& next.calls == sys.calls.update(id, Activity { pc: pc->0, ..act })
    &&& next.owner == (if act.pc is Start && pc->0 is Fill {
        sys.owner.push(id)
    } else {
        sys.owner
    })
}

/// The host of an operation crashes, and what the operation wrote to its record and did not
/// flush may be lost.
pub open spec fn crashes(sys: System, id: int, next: System) -> bool {
    let act = sys.calls[id];
    &&& 0 <= id < sys.calls.len()
    &&& next.g == sys.g
    &&& next.memory.len() == sys.memory.len()
    &&& forall|i: int|
        0 <= i < sys.memory.len() ==> #[trigger] next.memory[i] == sys.memory[i] || (next.memory[i]
            == sys.medium[i] && (claim(act) matches Some(slot) && sys.g.record_at(slot as int) <= i
            < sys.g.record_at(slot as int) + sys.g.record_size))
    &&& next.medium == sys.medium
    &&& next.calls == sys.calls.update(id, Activity { alive: false, ..act })
    &&& next.owner == sys.owner
}

/// One thing happens.
pub open spec fn goes_on(sys: System, next: System) -> bool {
    ||| exists|call: Call| begins(sys, call, next)
    ||| exists|id: int, a: Access| advances(sys, id, a, next)
    ||| exists|id: int| crashes(sys, id, next)
}

/// A history of a pool: it starts fresh, and then one thing happens after the other.
pub open spec fn history(states: Seq<System>) -> bool {
    &&& states.len() > 0
    &&& starts(states[0])
    &&& forall|i: int| 0 <= i < states.len() - 1 ==> #[trigger] goes_on(states[i], states[i + 1])
}

/// What of its record the owner of a slot has written after so many accesses.
pub open spec fn written(g: PoolGeometry, m: Seq<u8>, slot: int, stage: int, f: Fields) -> bool {
    let at = g.record_at(slot);
    &&& stage >= 2 ==> mem::u64_at(m, at + REC_TERM) == f.term
    &&& stage >= 3 ==> mem::u64_at(m, at + REC_INDEX) == f.index
    &&& stage >= 4 ==> mem::u64_at(m, at + REC_WRITER_ID) == f.writer_id
    &&& stage >= 5 ==> mem::u32_at(m, at + REC_DATA_LEN) == f.data_len
    &&& stage >= 6 ==> mem::bytes_at(m, at + REC_PAYLOAD, f.payload.len() as int) == f.payload
    &&& stage >= 7 ==> mem::u64_at(m, at + REC_CHECKSUM) == f.checksum
}

/// The state of a slot shows that a complete record was announced there.
pub open spec fn settled(state: u8) -> bool {
    state == STATE_COMMITTED || state == STATE_ABANDONED
}

/// What holds of a slot whose owner is `act` and writes `f`.
pub open spec fn owned_slot_ok(
    g: PoolGeometry,
    m: Seq<u8>,
    d: Seq<u8>,
    slot: int,
    act: Activity,
    f: Fields,
) -> bool {
    let at = g.record_at(slot);
    let st = stage(act);
    let ms = pool::state_of(g, m, slot);
    let ds = pool::state_of(g, d, slot);
    &&& st == 0 ==> ms == STATE_FREE && ds == STATE_FREE
    &&& act.alive && 1 <= st <= 8 ==> ms == STATE_WRITING || ms == STATE_ABANDONED
    &&& st <= 8 ==> ms != STATE_COMMITTED && ds != STATE_COMMITTED
    &&& act.alive ==> written(g, m, slot, st, f)
    &&& st >= 8 ==> {
        &&& pool::fields_of(g, m, slot) == f
        &&& mem::agree(d, m, at + 1, at + g.record_size)
        &&& ms == STATE_WRITING || settled(ms)
        &&& ds == STATE_WRITING || settled(ds)
    }
    &&& act.alive && st == 9 ==> settled(ms)
    &&& st >= 10 ==> settled(ms) && settled(ds)
}

/// What holds of every slot.
pub open spec fn slot_ok(sys: System, slot: int) -> bool {
    if slot < sys.owner.len() {
        owned_slot_ok(
            sys.g,
            sys.memory,
            sys.medium,
            slot,
            sys.calls[sys.owner[slot]],
            sys.record_of(slot),
        )
    } else {
        &&& pool::state_of(sys.g, sys.memory, slot) == STATE_FREE
        &&& pool::state_of(sys.g, sys.medium, slot) == STATE_FREE
    }
}

/// What was loaded of a record after so many loads are its fields.
pub open spec fn loaded(g: PoolGeometry, stage: int, got: Fields, f: Fields) -> bool {
    &&& 0 <= stage <= 5
    &&& stage >= 1 ==> got.term == f.term
    &&& stage >= 2 ==> got.index == f.index
    &&& stage >= 3 ==> got.writer_id == f.writer_id
    &&& stage >= 4 ==> got.data_len == f.data_len
    &&& stage >= 5 ==> got.checksum == f.checksum
}

/// The append that owns a slot stays within the payload size.
pub open spec fn append_fits(g: PoolGeometry, call: Call) -> bool {
    call matches Call::Append { data, .. } && data.len() <= g.payload_size
}

/// What moving the committed tail is part of belongs to the operation.
pub open spec fn goal_ok(g: PoolGeometry, call: Call, goal: SweepFor) -> bool {
    match goal {
        SweepFor::Append { slot } => append_fits(g, call) && slot < g.capacity,
        SweepFor::Recover { .. } => call is Recover,
        SweepFor::Nothing => call is Advance,
    }
}

/// What holds of every operation: where it stands fits what it has seen.
pub open spec fn call_ok(sys: System, act: Activity) -> bool {
    let g = sys.g;
    let ct = pool::committed_tail(sys.memory);
    &&& valid_call(g, act.call)
    &&& match act.pc {
        Pc::Start => true,
        Pc::Undo { slot } => act.call is Append,
        Pc::CountRefusal { error } => act.call is Append,
        Pc::Fill { slot, stage } => append_fits(g, act.call) && slot < g.capacity && 0 <= stage
            <= 9,
        Pc::SweepLoad { goal, lost } => goal_ok(g, act.call, goal) && lost <= ct,
        Pc::SweepScan { goal, lost, tail, next } => {
            &&& goal_ok(g, act.call, goal)
            &&& lost <= tail
            &&& tail <= next < g.capacity
            &&& tail <= ct
            &&& forall|s: int| tail <= s < next ==> #[trigger] sys.committed(s)
        },
        Pc::SweepSwap { goal, lost, tail, next } => {
            &&& goal_ok(g, act.call, goal)
            &&& lost <= tail
            &&& tail < next <= g.capacity
            &&& tail <= ct
            &&& forall|s: int| tail <= s < next ==> #[trigger] sys.committed(s)
        },
        Pc::CountAppend { slot } => append_fits(g, act.call) && slot < g.capacity,
        Pc::CountBytes { slot } => append_fits(g, act.call) && slot < g.capacity,
        Pc::ReadState { .. } => act.call matches Call::Read { index, .. } && 0 < index <= g.capacity
            && sys.committed(index - 1),
        Pc::LoadFields { goal, slot, stage, got } => {
            &&& slot < g.capacity
            &&& sys.committed(slot as int)
            &&& loaded(g, stage, got, sys.record_of(slot as int))
            &&& match goal {
                FieldsFor::Read { index: i, .. } => act.call matches Call::Read { index, .. } && i
                    == index && index == slot + 1,
                FieldsFor::Recover { limit, .. } => act.call is Recover && slot < limit
                    <= g.capacity,
            }
        },
        Pc::CountRead { record } => act.call matches Call::Read { index, .. } && 0 < index
            && sys.committed(index - 1) && record == sys.record_of(index - 1).record(),
        Pc::CountDamage => false,
        Pc::TrimScan { slot, .. } => act.call matches Call::Trim { up_to } && slot < up_to
            <= g.capacity && up_to <= ct,
        Pc::TrimStore { slot, .. } => act.call matches Call::Trim { up_to } && slot < up_to
            <= g.capacity && up_to <= ct,
        Pc::TrimFlush { slot, .. } => act.call matches Call::Trim { up_to } && slot < up_to
            <= g.capacity && up_to <= ct,
        Pc::RecoverScan { slot, limit, .. } => act.call is Recover && slot < limit <= g.capacity,
        Pc::RecoverStore { slot, limit, .. } => act.call is Recover && slot < limit <= g.capacity
            && sys.touched(slot as int),
        Pc::RecoverFlush { slot, limit, .. } => act.call is Recover && slot < limit <= g.capacity,
        Pc::CountRun { .. } => act.call is Recover,
        Pc::NoteAbandoned { .. } => act.call is Recover,
        Pc::Done { outcome } => match outcome {
            Outcome::Append(Ok(index)) => append_fits(g, act.call) && 0 < index <= g.capacity,
            Outcome::Read(Ok(Some(record))) => act.call matches Call::Read { index, .. } && 0
                < index && sys.committed(index - 1) && record == sys.record_of(index - 1).record(),
            Outcome::Read(Err(error)) => !(error is ChecksumMismatch),
            _ => true,
        },
    }
}

/// The slots claimed so far and the operations that claimed them correspond.
pub open spec fn owners_ok(sys: System) -> bool {
    &&& forall|s: int|
        0 <= s < sys.owner.len() ==> 0 <= #[trigger] sys.owner[s] < sys.calls.len() && claim(
            sys.calls[sys.owner[s]],
        ) == Some(s as u64)
    &&& forall|id: int|
        0 <= id < sys.calls.len() && claim(#[trigger] sys.calls[id]) is Some ==> claim(
            sys.calls[id],
        )->0 < sys.owner.len() && sys.owner[claim(sys.calls[id])->0 as int] == id
}

/// The tails fit the slots claimed and committed so far.
pub open spec fn tails_ok(sys: System) -> bool {
    let ct = pool::committed_tail(sys.memory);
    &&& sys.owner.len() <= sys.g.capacity
    &&& pool::reserve_tail(sys.memory) == sys.owner.len() + taking_back(sys.calls)
    &&& taking_back(sys.calls) > 0 ==> sys.owner.len() == sys.g.capacity
    &&& sys.calls.len() < u64::MAX - u32::MAX
    &&& ct <= sys.owner.len()
    &&& forall|s: int| 0 <= s < ct ==> #[trigger] sys.committed(s)
    &&& pool::committed_tail(sys.medium) <= ct
}

/// What holds of a pool at any moment, whatever the hosts do and whichever of them crash.
pub open spec fn system_ok(sys: System) -> bool {
    &&& sys.g.fits(sys.memory.len())
    &&& sys.medium.len() == sys.memory.len()
    &&& owners_ok(sys)
    &&& tails_ok(sys)
    &&& forall|s: int| #![trigger sys.g.record_at(s)] 0 <= s < sys.g.capacity ==> slot_ok(sys, s)
    &&& forall|id: int| 0 <= id < sys.calls.len() ==> call_ok(sys, #[trigger] sys.calls[id])
}

proof fn lemma_taking_back_update(calls: Seq<Activity>, i: int, x: Activity)
    requires
        0 <= i < calls.len(),
    ensures
        taking_back(calls.update(i, x)) + (if takes_back(calls[i]) {
            1int
        } else {
            0int
        }) == taking_back(calls) + (if takes_back(x) {
            1int
        } else {
            0int
        }),
    decreases calls.len(),
{
    let new = calls.update(i, x);
    if i == calls.len() - 1 {
        assert(new.drop_last() =~= calls.drop_last());
    } else {
        assert(new.drop_last() =~= calls.drop_last().update(i, x));
        lemma_taking_back_update(calls.drop_last(), i, x);
    }
}

proof fn lemma_taking_back_bound(calls: Seq<Activity>)
    ensures
        taking_back(calls) <= calls.len(),
        forall|i: int|
            0 <= i < calls.len() && takes_back(#[trigger] calls[i]) ==> taking_back(calls) > 0,
    decreases calls.len(),
{
    if calls.len() > 0 {
        lemma_taking_back_bound(calls.drop_last());
        assert forall|i: int| 0 <= i < calls.len() && takes_back(#[trigger] calls[i]) implies
            taking_back(calls) > 0 by {
            if i < calls.len() - 1 {
                assert(calls.drop_last()[i] == calls[i]);
            }
        }
    }
}

/// A slot whose record is not written stays as it is, whatever seeps to the medium.
proof fn lemma_slot_frame(
    g: PoolGeometry,
    m: Seq<u8>,
    d: Seq<u8>,
    m2: Seq<u8>,
    d2: Seq<u8>,
    slot: int,
    act: Activity,
    act2: Activity,
    f: Fields,
)
    requires
        g.fits(m.len()),
        m2.len() == m.len(),
        d.len() == m.len(),
        0 <= slot < g.capacity,
        owned_slot_ok(g, m, d, slot, act, f),
        stage(act2) == stage(act),
        act2.alive ==> act.alive,
        mem::agree(m2, m, g.record_at(slot), g.record_at(slot) + g.record_size),
        seeps(d, m2, d2),
        f.payload.len() <= g.payload_size,
    ensures
        owned_slot_ok(g, m2, d2, slot, act2, f),
{
    layout::law_layout(g);
    let at = g.record_at(slot);
    mem::lemma_agree(m2, m, at, at + g.record_size);
    pool::lemma_fields_agree(g, m2, m, slot);
    assert(m2[at] == m[at]);
    assert(d2[at] == d[at] || d2[at] == m2[at]);
    if stage(act) >= 8 {
        assert forall|i: int| at + 1 <= i < at + g.record_size implies #[trigger] d2[i] == m2[i] by {
            assert(d[i] == m[i]);
        }
        assert(mem::agree(d2, m2, at + 1, at + g.record_size));
    }
}

/// Abandoning a slot whose owner has begun to write it.
proof fn lemma_slot_abandon(
    g: PoolGeometry,
    m: Seq<u8>,
    d: Seq<u8>,
    m2: Seq<u8>,
    d2: Seq<u8>,
    slot: int,
    act: Activity,
    act2: Activity,
    f: Fields,
)
    requires
        g.fits(m.len()),
        d.len() == m.len(),
        0 <= slot < g.capacity,
        owned_slot_ok(g, m, d, slot, act, f),
        stage(act) >= 1,
        stage(act2) == stage(act),
        act2.alive == act.alive,
        m2 == mem::put_u8(m, g.record_at(slot), STATE_ABANDONED),
        seeps(d, m2, d2),
        f.payload.len() <= g.payload_size,
    ensures
        owned_slot_ok(g, m2, d2, slot, act2, f),
{
    layout::law_layout(g);
    let at = g.record_at(slot);
    assert(mem::agree(m2, m, at + 1, at + g.record_size));
    mem::lemma_agree(m2, m, at + 1, at + g.record_size);
    pool::lemma_fields_agree(g, m2, m, slot);
    assert(m2[at] == STATE_ABANDONED);
    assert(d2[at] == d[at] || d2[at] == m2[at]);
    if stage(act) >= 8 {
        assert forall|i: int| at + 1 <= i < at + g.record_size implies #[trigger] d2[i] == m2[i] by {
            assert(d[i] == m[i]);
            assert(m2[i] == m[i]);
        }
        assert(mem::agree(d2, m2, at + 1, at + g.record_size));
    }
}

/// Fields that were all written make up the record.
proof fn lemma_all_written(g: PoolGeometry, m: Seq<u8>, slot: u64, call: Call)
    requires
        g.fits(m.len()),
        slot < g.capacity,
        append_fits(g, call),
        call matches Call::Append { host, term, data } && written(
            g,
            m,
            slot as int,
            8,
            pool::appended_fields(slot, host, term, data),
        ),
    ensures
        call matches Call::Append { host, term, data } && pool::fields_of(g, m, slot as int)
            == pool::appended_fields(slot, host, term, data),
{
    match call {
        Call::Append { host, term, data } => {
            let f = pool::appended_fields(slot, host, term, data);
            assert(pool::fields_of(g, m, slot as int) =~= f);
        },
        _ => {},
    }
}

/// Writing one more field keeps the fields written before.
proof fn lemma_fill_written(
    g: PoolGeometry,
    m: Seq<u8>,
    slot: u64,
    host: u16,
    term: u64,
    data: Seq<u8>,
    stage: int,
)
    requires
        g.fits(m.len()),
        slot < g.capacity,
        data.len() <= g.payload_size,
        1 <= stage <= 6,
        written(g, m, slot as int, stage, pool::appended_fields(slot, host, term, data)),
    ensures
        written(
            g,
            protocol::fill_access(g, host, term, data, slot, stage).apply(m),
            slot as int,
            protocol::next_stage(data, stage),
            pool::appended_fields(slot, host, term, data),
        ),
{
    layout::law_layout(g);
    lemma_auto_spec_u64_to_from_le_bytes();
    lemma_auto_spec_u32_to_from_le_bytes();
    let at = g.record_at(slot as int);
    let f = pool::appended_fields(slot, host, term, data);
    let a = protocol::fill_access(g, host, term, data, slot, stage);
    let m2 = a.apply(m);
    let (from, to) = footprint(a);
    lemma_apply_frame(a, m, at, from);
    lemma_apply_frame(a, m, to, at + g.record_size);
    mem::lemma_agree(m2, m, at, from);
    mem::lemma_agree(m2, m, to, at + g.record_size);
    if stage == 4 {
        let b = spec_u32_to_le_bytes(f.data_len);
        mem::lemma_put_then_bytes(m, at + REC_DATA_LEN, b);
        assert(mem::bytes_at(m2, at + REC_PAYLOAD, 0) =~= Seq::<u8>::empty());
        assert(data.len() == 0 ==> data =~= Seq::<u8>::empty());
    } else if stage == 5 {
        mem::lemma_put_then_bytes(m, at + REC_PAYLOAD, data);
    } else if stage == 1 {
        mem::lemma_put_then_u64(m, at + REC_TERM, f.term);
    } else if stage == 2 {
        mem::lemma_put_then_u64(m, at + REC_INDEX, f.index);
    } else if stage == 3 {
        mem::lemma_put_then_u64(m, at + REC_WRITER_ID, f.writer_id);
    } else {
        mem::lemma_put_then_u64(m, at + REC_CHECKSUM, f.checksum);
    }
}

/// The owner of a slot takes the next step of writing its record.
#[verifier::spinoff_prover]
proof fn lemma_slot_fill(
    g: PoolGeometry,
    m: Seq<u8>,
    d: Seq<u8>,
    m2: Seq<u8>,
    d2: Seq<u8>,
    slot: u64,
    act: Activity,
    act2: Activity,
    a: Access,
)
    requires
        g.fits(m.len()),
        d.len() == m.len(),
        slot < g.capacity,
        append_fits(g, act.call),
        act.alive,
        act2.alive,
        act.pc matches Pc::Fill { slot: s, stage } && s == slot && 0 <= stage <= 9,
        Some(act2.pc) == protocol::step(g, act.call, act.pc, a),
        act.call matches Call::Append { host, term, data } && owned_slot_ok(
            g,
            m,
            d,
            slot as int,
            act,
            pool::appended_fields(slot, host, term, data),
        ),
        m2 == a.apply(m),
        seeps(d, m2, d2),
        a matches Access::Flush { offset, len } ==> mem::agree(d2, m2, offset, offset + len),
    ensures
        act.call matches Call::Append { host, term, data } && owned_slot_ok(
            g,
            m2,
            d2,
            slot as int,
            act2,
            pool::appended_fields(slot, host, term, data),
        ),
{
    broadcast use mem::group_put;

    layout::law_layout(g);
    lemma_auto_spec_u64_to_from_le_bytes();
    lemma_auto_spec_u32_to_from_le_bytes();
    let at = g.record_at(slot as int);
    let st = stage(act);
    match act.call {
        Call::Append { host, term, data } => {
            let f = pool::appended_fields(slot, host, term, data);
            assert(a == protocol::fill_access(g, host, term, data, slot, st));
            assert(d2[at] == d[at] || d2[at] == m2[at]);
            if st == 0 {
            } else if st <= 6 {
                assert(m2[at] == m[at]);
                lemma_fill_written(g, m, slot, host, term, data, st);
            } else if st == 7 {
                lemma_all_written(g, m, slot, act.call);
                assert(d2[at] == m2[at]);
            } else if st == 8 {
                assert(mem::agree(m2, m, at + 1, at + g.record_size));
                mem::lemma_agree(m2, m, at + 1, at + g.record_size);
                pool::lemma_fields_agree(g, m2, m, slot as int);
                assert forall|i: int| at + 1 <= i < at + g.record_size implies #[trigger] d2[i]
                    == m2[i] by {
                    assert(d[i] == m[i]);
                    assert(m2[i] == m[i]);
                }
                assert(mem::agree(d2, m2, at + 1, at + g.record_size));
            } else {
                assert(d2[at] == m2[at]);
                assert forall|i: int| at + 1 <= i < at + g.record_size implies #[trigger] d2[i]
                    == m2[i] by {
                    assert(d[i] == m[i]);
                }
                assert(mem::agree(d2, m2, at + 1, at + g.record_size));
            }
        },
        _ => {},
    }
}

/// The slot to whose record an operation writes with its next access.
pub open spec fn writes_to(act: Activity) -> Option<u64> {
    match act.pc {
        Pc::Fill { slot, .. } => Some(slot),
        Pc::TrimStore { slot, .. } => Some(slot),
        Pc::RecoverStore { slot, .. } => Some(slot),
        _ => None,
    }
}

/// The operation claims a slot or finds the pool full with its next access.
pub open spec fn reserves(g: PoolGeometry, act: Activity) -> bool {
    act.pc is Start && append_fits(g, act.call)
}

/// The bytes that an access may change: from the first number up to the second.
pub open spec fn footprint(a: Access) -> (int, int) {
    match a {
        Access::Write { offset, bytes } => (offset, offset + bytes.len()),
        Access::StoreU64 { offset, .. } => (offset, offset + 8),
        Access::FetchAddU64 { offset, .. } => (offset, offset + 8),
        Access::CompareExchangeU64 { offset, .. } => (offset, offset + 8),
        Access::StoreU8 { offset, .. } => (offset, offset + 1),
        _ => (0, 0),
    }
}

pub(crate) proof fn lemma_apply_frame(a: Access, m: Seq<u8>, x: int, y: int)
    requires
        0 <= x <= y <= m.len(),
        y <= footprint(a).0 || footprint(a).1 <= x,
    ensures
        mem::agree(a.apply(m), m, x, y),
{
    lemma_auto_spec_u64_to_from_le_bytes();
}

/// Every access of the protocol writes to the record that [`writes_to`] tells, to one of the
/// tails, or to the metrics.
proof fn lemma_footprint(sys: System, id: int, a: Access)
    requires
        system_ok(sys),
        0 <= id < sys.calls.len(),
        protocol::step(sys.g, sys.calls[id].call, sys.calls[id].pc, a) is Some,
    ensures
        a.apply(sys.memory).len() == sys.memory.len(),
        match writes_to(sys.calls[id]) {
            Some(slot) => slot < sys.g.capacity && (footprint(a) == (0int, 0int) || (
            sys.g.record_at(slot as int) <= footprint(a).0 && footprint(a).1
                <= sys.g.record_at(slot as int) + sys.g.record_size)),
            None => footprint(a).1 <= HEADER_SIZE || sys.g.record_at(sys.g.capacity as int)
                <= footprint(a).0,
        },
{
    let g = sys.g;
    let act = sys.calls[id];
    assert(call_ok(sys, act));
    layout::law_layout(g);
    lemma_auto_spec_u64_to_from_le_bytes();
    lemma_auto_spec_u32_to_from_le_bytes();
}

/// What an access does to the log.
#[verifier::spinoff_prover]
pub(crate) proof fn lemma_access_effect(sys: System, id: int, a: Access, next: System)
    requires
        system_ok(sys),
        advances(sys, id, a, next),
    ensures
        next.memory.len() == sys.memory.len(),
        forall|s: int|
            #![trigger sys.g.record_at(s)]
            0 <= s < sys.g.capacity && writes_to(sys.calls[id]) != Some(s as u64) ==> mem::agree(
                next.memory,
                sys.memory,
                sys.g.record_at(s),
                sys.g.record_at(s) + sys.g.record_size,
            ),
        pool::reserve_tail(next.memory) == (if reserves(sys.g, sys.calls[id]) {
            mem::wrapped_sum(pool::reserve_tail(sys.memory), 1)
        } else if sys.calls[id].pc is Undo {
            mem::wrapped_sum(pool::reserve_tail(sys.memory), u64::MAX)
        } else {
            pool::reserve_tail(sys.memory)
        }),
        pool::committed_tail(next.memory) == (match sys.calls[id].pc {
            Pc::SweepSwap { tail, next: to, .. } => if pool::committed_tail(sys.memory) == tail {
                to
            } else {
                pool::committed_tail(sys.memory)
            },
            _ => pool::committed_tail(sys.memory),
        }),
{
    broadcast use mem::group_put;

    let g = sys.g;
    let act = sys.calls[id];
    let m = sys.memory;
    let end = g.record_at(g.capacity as int);
    layout::law_layout(g);
    lemma_auto_spec_u64_to_from_le_bytes();
    assert(call_ok(sys, act));
    let (from, to) = footprint(a);
    lemma_footprint(sys, id, a);
    assert(next.memory.len() == m.len());
    assert(HEADER_SIZE <= g.record_at(0) && g.record_at(0) <= end);
    assert forall|s: int|
        #![trigger g.record_at(s)]
        0 <= s < g.capacity && writes_to(act) != Some(s as u64) implies mem::agree(
        next.memory,
        m,
        g.record_at(s),
        g.record_at(s) + g.record_size,
    ) by {
        assert(HEADER_SIZE <= g.record_at(s));
        assert(g.record_at(s) + g.record_size <= end);
        if writes_to(act) is Some {
            let t = writes_to(act)->0 as int;
            if s < t {
                assert(g.record_at(s) + g.record_size <= g.record_at(t));
            } else {
                assert(g.record_at(t) + g.record_size <= g.record_at(s));
            }
        }
        lemma_apply_frame(a, m, g.record_at(s), g.record_at(s) + g.record_size);
    }
    match writes_to(act) {
        Some(slot) => {
            assert(HEADER_SIZE <= g.record_at(slot as int));
        },
        None => {
            assert(HEADER_SIZE <= g.record_at(0));
            assert(g.record_at(0) <= end);
        },
    }
}

/// `next` is the pool at a later moment: claims stay, records only get further, and the
/// committed tail only moves forward.
pub open spec fn later(sys: System, next: System) -> bool {
    &&& next.g == sys.g
    &&& sys.owner.len() <= next.owner.len()
    &&& forall|s: int|
        0 <= s < sys.owner.len() ==> {
            &&& #[trigger] next.owner[s] == sys.owner[s]
            &&& next.calls[sys.owner[s]].call == sys.calls[sys.owner[s]].call
            &&& stage(sys.calls[sys.owner[s]]) <= stage(next.calls[sys.owner[s]])
        }
    &&& pool::committed_tail(sys.memory) <= pool::committed_tail(next.memory)
}

proof fn lemma_later_slots(sys: System, next: System)
    requires
        later(sys, next),
    ensures
        forall|s: int| sys.committed(s) ==> #[trigger] next.committed(s),
        forall|s: int| sys.touched(s) ==> #[trigger] next.touched(s),
        forall|s: int|
            0 <= s < sys.owner.len() ==> #[trigger] next.record_of(s) == sys.record_of(s),
{
    assert forall|s: int| sys.committed(s) implies #[trigger] next.committed(s) by {
        assert(next.owner[s] == sys.owner[s]);
    }
    assert forall|s: int| sys.touched(s) implies #[trigger] next.touched(s) by {
        assert(next.owner[s] == sys.owner[s]);
    }
    assert forall|s: int| 0 <= s < sys.owner.len() implies #[trigger] next.record_of(s)
        == sys.record_of(s) by {
        assert(next.owner[s] == sys.owner[s]);
    }
}

/// What was right for an operation stays right while the others go on.
proof fn lemma_later_call(sys: System, next: System, act: Activity)
    requires
        later(sys, next),
        call_ok(sys, act),
    ensures
        call_ok(next, act),
{
    lemma_later_slots(sys, next);
    assert forall|s: int| sys.committed(s) implies #[trigger] next.committed(s) by {}
    match act.pc {
        Pc::SweepScan { tail, next: to, .. } => {
            assert forall|s: int| tail <= s < to implies #[trigger] next.committed(s) by {
                assert(sys.committed(s));
            }
        },
        Pc::SweepSwap { tail, next: to, .. } => {
            assert forall|s: int| tail <= s < to implies #[trigger] next.committed(s) by {
                assert(sys.committed(s));
            }
        },
        Pc::ReadState { .. } => {
            let index = act.call->Read_index;
            assert(next.committed(index - 1));
        },
        Pc::LoadFields { slot, .. } => {
            assert(next.committed(slot as int));
            assert(next.record_of(slot as int) == sys.record_of(slot as int));
        },
        Pc::CountRead { .. } => {
            let index = act.call->Read_index;
            assert(next.committed(index - 1));
            assert(next.record_of(index - 1) == sys.record_of(index - 1));
        },
        Pc::RecoverStore { slot, .. } => {
            assert(next.touched(slot as int));
        },
        Pc::Done { outcome: Outcome::Read(Ok(Some(_))) } => {
            let index = act.call->Read_index;
            assert(next.committed(index - 1));
            assert(next.record_of(index - 1) == sys.record_of(index - 1));
        },
        _ => {},
    }
}

/// An access takes the pool to a later moment.
pub(crate) proof fn lemma_advance_later(sys: System, id: int, a: Access, next: System)
    requires
        system_ok(sys),
        advances(sys, id, a, next),
    ensures
        later(sys, next),
{
    lemma_access_effect(sys, id, a, next);
    let act = sys.calls[id];
    assert(call_ok(sys, act));
    assert(stage(act) <= stage(next.calls[id]) || claim(act) is None);
    assert forall|s: int| 0 <= s < sys.owner.len() implies {
        &&& #[trigger] next.owner[s] == sys.owner[s]
        &&& next.calls[sys.owner[s]].call == sys.calls[sys.owner[s]].call
        &&& stage(sys.calls[sys.owner[s]]) <= stage(next.calls[sys.owner[s]])
    } by {
        assert(claim(sys.calls[sys.owner[s]]) is Some);
    }
}

/// An operation keeps its claim, and claims a slot only as its owner.
pub(crate) proof fn lemma_advance_owners(sys: System, id: int, a: Access, next: System)
    requires
        system_ok(sys),
        advances(sys, id, a, next),
    ensures
        owners_ok(next),
        next.owner.len() <= sys.g.capacity,
        next.owner.len() > sys.owner.len() ==> {
            &&& next.owner.len() == sys.owner.len() + 1
            &&& pool::reserve_tail(sys.memory) == sys.owner.len()
            &&& taking_back(sys.calls) == 0
            &&& next.calls[id].pc == (Pc::Fill { slot: sys.owner.len() as u64, stage: 0 })
        },
{
    let act = sys.calls[id];
    let act2 = next.calls[id];
    assert(call_ok(sys, act));
    if act.pc is Start && act2.pc is Fill {
        assert(pool::reserve_tail(sys.memory) < sys.g.capacity);
        let slot = sys.owner.len() as u64;
        assert(act2.pc == (Pc::Fill { slot, stage: 0 }));
        assert forall|s: int| 0 <= s < next.owner.len() implies 0 <= #[trigger] next.owner[s]
            < next.calls.len() && claim(next.calls[next.owner[s]]) == Some(s as u64) by {
            if s < sys.owner.len() {
                assert(next.owner[s] == sys.owner[s]);
                assert(claim(sys.calls[sys.owner[s]]) is Some);
            }
        }
        assert forall|i: int| 0 <= i < next.calls.len() && claim(#[trigger] next.calls[i]) is Some
            implies claim(next.calls[i])->0 < next.owner.len() && next.owner[claim(
            next.calls[i],
        )->0 as int] == i by {
            if i != id {
                assert(next.calls[i] == sys.calls[i]);
            }
        }
    } else {
        assert(claim(act2) == claim(act));
        assert forall|s: int| 0 <= s < next.owner.len() implies 0 <= #[trigger] next.owner[s]
            < next.calls.len() && claim(next.calls[next.owner[s]]) == Some(s as u64) by {
            assert(next.owner[s] == sys.owner[s]);
        }
        assert forall|i: int| 0 <= i < next.calls.len() && claim(#[trigger] next.calls[i]) is Some
            implies claim(next.calls[i])->0 < next.owner.len() && next.owner[claim(
            next.calls[i],
        )->0 as int] == i by {
            assert(claim(sys.calls[i]) is Some);
        }
    }
}

/// Every slot is in order after an access.
#[verifier::spinoff_prover]
proof fn lemma_advance_slots(sys: System, id: int, a: Access, next: System)
    requires
        system_ok(sys),
        advances(sys, id, a, next),
    ensures
        forall|s: int|
            #![trigger next.g.record_at(s)]
            0 <= s < next.g.capacity ==> slot_ok(next, s),
{
    let g = sys.g;
    let act = sys.calls[id];
    let act2 = next.calls[id];
    assert(call_ok(sys, act));
    layout::law_layout(g);
    lemma_access_effect(sys, id, a, next);
    lemma_advance_later(sys, id, a, next);
    lemma_later_slots(sys, next);
    lemma_advance_owners(sys, id, a, next);
    assert forall|s: int|
        #![trigger next.g.record_at(s)]
        0 <= s < next.g.capacity implies slot_ok(next, s) by {
        let at = g.record_at(s);
        assert(slot_ok(sys, s));
        assert(next.medium[at] == sys.medium[at] || next.medium[at] == next.memory[at]);
        if s < sys.owner.len() {
            let w = sys.owner[s];
            assert(next.owner[s] == w);
            assert(next.record_of(s) == sys.record_of(s));
            assert(claim(sys.calls[w]) == Some(s as u64));
            assert(call_ok(sys, sys.calls[w]));
            assert(append_fits(g, sys.calls[w].call));
            let f = sys.record_of(s);
            if writes_to(act) == Some(s as u64) {
                if act.pc is Fill {
                    assert(w == id);
                    lemma_slot_fill(
                        g,
                        sys.memory,
                        sys.medium,
                        next.memory,
                        next.medium,
                        s as u64,
                        act,
                        act2,
                        a,
                    );
                } else {
                    assert(w != id);
                    if act.pc is TrimStore {
                        assert(sys.committed(s));
                    }
                    assert(sys.touched(s));
                    lemma_slot_abandon(
                        g,
                        sys.memory,
                        sys.medium,
                        next.memory,
                        next.medium,
                        s,
                        sys.calls[w],
                        next.calls[w],
                        f,
                    );
                }
            } else {
                lemma_slot_frame(
                    g,
                    sys.memory,
                    sys.medium,
                    next.memory,
                    next.medium,
                    s,
                    sys.calls[w],
                    next.calls[w],
                    f,
                );
            }
        } else {
            if writes_to(act) == Some(s as u64) {
                if act.pc is Fill {
                    assert(claim(act) == Some(s as u64));
                } else if act.pc is TrimStore {
                    assert(sys.committed(s));
                } else {
                    assert(sys.touched(s));
                }
            }
            assert(next.memory[at] == sys.memory[at]);
        }
    }
}

/// The tails are in order after an access.
#[verifier::spinoff_prover]
proof fn lemma_advance_tails(sys: System, id: int, a: Access, next: System)
    requires
        system_ok(sys),
        advances(sys, id, a, next),
    ensures
        tails_ok(next),
{
    let act = sys.calls[id];
    let act2 = next.calls[id];
    assert(call_ok(sys, act));
    lemma_access_effect(sys, id, a, next);
    lemma_advance_later(sys, id, a, next);
    lemma_later_slots(sys, next);
    lemma_advance_owners(sys, id, a, next);
    lemma_taking_back_update(sys.calls, id, act2);
    lemma_taking_back_bound(sys.calls);
    assert(takes_back(act) ==> taking_back(sys.calls) > 0) by {
        assert(takes_back(act) == takes_back(sys.calls[id]));
    }
    let ct = pool::committed_tail(sys.memory);
    let ct2 = pool::committed_tail(next.memory);
    assert forall|s: int| 0 <= s < ct2 implies #[trigger] next.committed(s) by {
        if s < ct {
            assert(sys.committed(s));
        } else {
            assert(sys.committed(s));
        }
    }
    if ct2 > ct {
        assert(next.committed(ct2 - 1));
    }
    assert(HDR_COMMITTED_TAIL % 8 == 0);
    layout::law_layout(sys.g);
    assert(pool::committed_tail(next.medium) == pool::committed_tail(sys.medium)
        || pool::committed_tail(next.medium) == ct2);
}

/// A slot that was committed holds the complete record of its owner.
proof fn lemma_committed_slot(sys: System, slot: int)
    requires
        system_ok(sys),
        sys.committed(slot),
    ensures
        0 <= slot < sys.g.capacity,
        append_fits(sys.g, sys.calls[sys.owner[slot]].call),
        pool::fields_of(sys.g, sys.memory, slot) == sys.record_of(slot),
        pool::fields_of(sys.g, sys.medium, slot) == sys.record_of(slot),
        sys.record_of(slot).intact(),
        sys.record_of(slot).index == slot + 1,
        sys.record_of(slot).payload.len() == pool::payload_len(
            sys.g,
            sys.record_of(slot).data_len,
        ),
        pool::state_of(sys.g, sys.medium, slot) == STATE_WRITING || settled(
            pool::state_of(sys.g, sys.medium, slot),
        ),
{
    let g = sys.g;
    let at = g.record_at(slot);
    assert(slot_ok(sys, slot));
    assert(claim(sys.calls[sys.owner[slot]]) == Some(slot as u64));
    assert(call_ok(sys, sys.calls[sys.owner[slot]]));
    pool::lemma_fields_agree(g, sys.medium, sys.memory, slot);
}

/// A slot that shows as committed was committed by its owner; one that shows anything but
/// free was claimed, and its owner has begun to write it.
pub(crate) proof fn lemma_shown(sys: System, slot: int)
    requires
        system_ok(sys),
        0 <= slot < sys.g.capacity,
    ensures
        pool::state_of(sys.g, sys.memory, slot) == STATE_COMMITTED ==> sys.committed(slot),
        pool::state_of(sys.g, sys.medium, slot) == STATE_COMMITTED ==> sys.committed(slot),
        pool::state_of(sys.g, sys.memory, slot) != STATE_FREE ==> sys.touched(slot),
{
    let at = sys.g.record_at(slot);
    assert(slot_ok(sys, slot));
    if slot < sys.owner.len() {
        assert(call_ok(sys, sys.calls[sys.owner[slot]]));
        assert(claim(sys.calls[sys.owner[slot]]) is Some);
    }
}

/// Loading the fields of a committed record gives the fields of that record.
proof fn lemma_advance_fields(sys: System, id: int, a: Access, next: System)
    requires
        system_ok(sys),
        advances(sys, id, a, next),
        sys.calls[id].pc is LoadFields,
    ensures
        call_ok(next, next.calls[id]),
{
    let g = sys.g;
    let act = sys.calls[id];
    assert(call_ok(sys, act));
    lemma_advance_later(sys, id, a, next);
    lemma_later_slots(sys, next);
    match act.pc {
        Pc::LoadFields { goal, slot, stage, got } => {
            let s = slot as int;
            lemma_committed_slot(sys, s);
            assert(next.committed(s));
            assert(next.record_of(s) == sys.record_of(s));
            let f = sys.record_of(s);
            assert(pool::fields_of(g, sys.memory, s) == f);
            match a {
                Access::Read { offset, bytes } => {
                    if stage == 5 {
                        assert(bytes == f.payload);
                        assert(Fields { payload: bytes, ..got } =~= f);
                    }
                },
                Access::LoadU64 { value, .. } => {
                    if stage == 4 && pool::payload_len(g, got.data_len) <= 0 {
                        assert(f.payload =~= Seq::<u8>::empty());
                        assert(Fields { checksum: value, payload: Seq::empty(), ..got } =~= f);
                    }
                },
                _ => {},
            }
        },
        _ => {},
    }
}

/// Sweeping passes committed slots alone.
proof fn lemma_advance_sweep(sys: System, id: int, a: Access, next: System)
    requires
        system_ok(sys),
        advances(sys, id, a, next),
        sys.calls[id].pc is SweepLoad || sys.calls[id].pc is SweepScan || sys.calls[id].pc
            is SweepSwap,
    ensures
        call_ok(next, next.calls[id]),
{
    let g = sys.g;
    let act = sys.calls[id];
    assert(call_ok(sys, act));
    lemma_advance_later(sys, id, a, next);
    lemma_later_slots(sys, next);
    match act.pc {
        Pc::SweepScan { tail, next: to, .. } => {
            lemma_shown(sys, to as int);
            assert forall|s: int| tail <= s < to implies #[trigger] next.committed(s) by {
                assert(sys.committed(s));
            }
            if pool::state_of(g, sys.memory, to as int) == STATE_COMMITTED {
                assert(next.committed(to as int));
                assert forall|s: int| tail <= s < to + 1 implies #[trigger] next.committed(s) by {
                    if s < to {
                        assert(sys.committed(s));
                    }
                }
            }
        },
        _ => {},
    }
}

/// An operation other than in a sweep or while loading fields stands where it should.
#[verifier::spinoff_prover]
proof fn lemma_advance_rest(sys: System, id: int, a: Access, next: System)
    requires
        system_ok(sys),
        advances(sys, id, a, next),
        !(sys.calls[id].pc is SweepLoad || sys.calls[id].pc is SweepScan || sys.calls[id].pc
            is SweepSwap || sys.calls[id].pc is LoadFields),
    ensures
        call_ok(next, next.calls[id]),
{
    let g = sys.g;
    let act = sys.calls[id];
    assert(call_ok(sys, act));
    lemma_advance_later(sys, id, a, next);
    lemma_later_slots(sys, next);
    match act.pc {
        Pc::Start => {
            if let Call::Read { index, .. } = act.call {
                if next.calls[id].pc is ReadState {
                    assert(sys.committed(index - 1));
                    assert(next.committed(index - 1));
                }
            }
        },
        Pc::ReadState { .. } => {
            let index = act.call->Read_index;
            assert(next.committed(index - 1));
        },
        Pc::CountRead { .. } => {
            let index = act.call->Read_index;
            assert(next.committed(index - 1));
            assert(next.record_of(index - 1) == sys.record_of(index - 1));
        },
        Pc::RecoverScan { slot, .. } => {
            lemma_shown(sys, slot as int);
            if pool::state_of(g, sys.memory, slot as int) == STATE_COMMITTED {
                assert(next.committed(slot as int));
            } else if pool::state_of(g, sys.memory, slot as int) != STATE_FREE {
                assert(next.touched(slot as int));
            }
        },
        _ => {},
    }
}

/// An access keeps the system in order.
proof fn lemma_advance(sys: System, id: int, a: Access, next: System)
    requires
        system_ok(sys),
        advances(sys, id, a, next),
    ensures
        system_ok(next),
{
    lemma_access_effect(sys, id, a, next);
    lemma_advance_later(sys, id, a, next);
    lemma_advance_owners(sys, id, a, next);
    lemma_advance_slots(sys, id, a, next);
    lemma_advance_tails(sys, id, a, next);
    assert forall|i: int| 0 <= i < next.calls.len() implies call_ok(
        next,
        #[trigger] next.calls[i],
    ) by {
        assert(call_ok(sys, sys.calls[i]));
        if i != id {
            lemma_later_call(sys, next, sys.calls[i]);
        } else if sys.calls[i].pc is LoadFields {
            lemma_advance_fields(sys, id, a, next);
        } else if sys.calls[i].pc is SweepLoad || sys.calls[i].pc is SweepScan || sys.calls[i].pc
            is SweepSwap {
            lemma_advance_sweep(sys, id, a, next);
        } else {
            lemma_advance_rest(sys, id, a, next);
        }
    }
}

/// A new operation keeps the system in order.
proof fn lemma_begin(sys: System, call: Call, next: System)
    requires
        system_ok(sys),
        begins(sys, call, next),
    ensures
        system_ok(next),
        later(sys, next),
{
    let new = next.calls.last();
    assert(next.calls.drop_last() =~= sys.calls);
    assert(later(sys, next)) by {
        assert forall|s: int| 0 <= s < sys.owner.len() implies {
            &&& #[trigger] next.owner[s] == sys.owner[s]
            &&& next.calls[sys.owner[s]].call == sys.calls[sys.owner[s]].call
            &&& stage(sys.calls[sys.owner[s]]) <= stage(next.calls[sys.owner[s]])
        } by {}
    }
    lemma_later_slots(sys, next);
    assert forall|s: int| #![trigger next.g.record_at(s)] 0 <= s < next.g.capacity implies slot_ok(
        next,
        s,
    ) by {
        let at = sys.g.record_at(s);
        assert(slot_ok(sys, s));
        if s < sys.owner.len() {
            assert(next.owner[s] == sys.owner[s]);
            assert(next.record_of(s) == sys.record_of(s));
        }
    }
    assert forall|s: int| 0 <= s < pool::committed_tail(next.memory) implies #[trigger] next.committed(
        s,
    ) by {
        assert(sys.committed(s));
    }
    assert forall|i: int| 0 <= i < next.calls.len() implies call_ok(
        next,
        #[trigger] next.calls[i],
    ) by {
        if i < sys.calls.len() {
            assert(call_ok(sys, sys.calls[i]));
            lemma_later_call(sys, next, sys.calls[i]);
        }
    }
    assert forall|i: int| 0 <= i < next.calls.len() && claim(#[trigger] next.calls[i]) is Some
        implies claim(next.calls[i])->0 < next.owner.len() && next.owner[claim(
        next.calls[i],
    )->0 as int] == i by {
        if i < sys.calls.len() {
            assert(next.calls[i] == sys.calls[i]);
        }
    }
    assert forall|s: int| 0 <= s < next.owner.len() implies 0 <= #[trigger] next.owner[s]
        < next.calls.len() && claim(next.calls[next.owner[s]]) == Some(s as u64) by {
        assert(next.calls[sys.owner[s]] == sys.calls[sys.owner[s]]);
    }
}

/// A crash keeps the system in order.
#[verifier::spinoff_prover]
proof fn lemma_crash(sys: System, id: int, next: System)
    requires
        system_ok(sys),
        crashes(sys, id, next),
    ensures
        system_ok(next),
        later(sys, next),
{
    let g = sys.g;
    let act = sys.calls[id];
    layout::law_layout(g);
    assert(call_ok(sys, act));
    lemma_taking_back_update(sys.calls, id, next.calls[id]);
    assert(mem::agree(next.memory, sys.memory, 0, HEADER_SIZE as int)) by {
        if claim(act) is Some {
            assert(claim(sys.calls[id])->0 < sys.owner.len());
            assert(HEADER_SIZE <= g.record_at(claim(act)->0 as int));
        }
    }
    mem::lemma_agree(next.memory, sys.memory, 0, HEADER_SIZE as int);
    assert(later(sys, next)) by {
        assert forall|s: int| 0 <= s < sys.owner.len() implies {
            &&& #[trigger] next.owner[s] == sys.owner[s]
            &&& next.calls[sys.owner[s]].call == sys.calls[sys.owner[s]].call
            &&& stage(sys.calls[sys.owner[s]]) <= stage(next.calls[sys.owner[s]])
        } by {}
    }
    lemma_later_slots(sys, next);
    assert forall|s: int| #![trigger next.g.record_at(s)] 0 <= s < next.g.capacity implies slot_ok(
        next,
        s,
    ) by {
        let at = g.record_at(s);
        assert(slot_ok(sys, s));
        assert(next.memory[at] == sys.memory[at] || next.memory[at] == sys.medium[at]);
        if s < sys.owner.len() {
            let w = sys.owner[s];
            let f = sys.record_of(s);
            assert(next.owner[s] == w);
            assert(next.record_of(s) == f);
            assert(claim(sys.calls[w]) == Some(s as u64));
            assert(call_ok(sys, sys.calls[w]));
            if w == id {
                if stage(act) >= 8 {
                    assert forall|i: int| at + 1 <= i < at + g.record_size implies
                        #[trigger] next.memory[i] == sys.memory[i] by {
                        assert(sys.medium[i] == sys.memory[i]);
                    }
                    assert(mem::agree(next.memory, sys.memory, at + 1, at + g.record_size));
                    pool::lemma_fields_agree(g, next.memory, sys.memory, s);
                    assert(mem::agree(next.medium, next.memory, at + 1, at + g.record_size));
                }
            } else {
                assert(mem::agree(next.memory, sys.memory, at, at + g.record_size)) by {
                    if claim(act) is Some {
                        let t = claim(act)->0 as int;
                        assert(t != s);
                        if s < t {
                            assert(g.record_at(s) + g.record_size <= g.record_at(t));
                        } else {
                            assert(g.record_at(t) + g.record_size <= g.record_at(s));
                        }
                    }
                }
                lemma_slot_frame(
                    g,
                    sys.memory,
                    sys.medium,
                    next.memory,
                    next.medium,
                    s,
                    sys.calls[w],
                    next.calls[w],
                    f,
                );
            }
        }
    }
    assert forall|s: int| 0 <= s < pool::committed_tail(next.memory) implies #[trigger] next.committed(
        s,
    ) by {
        assert(sys.committed(s));
    }
    assert forall|i: int| 0 <= i < next.calls.len() implies call_ok(
        next,
        #[trigger] next.calls[i],
    ) by {
        assert(call_ok(sys, sys.calls[i]));
        lemma_later_call(sys, next, sys.calls[i]);
    }
    assert forall|i: int| 0 <= i < next.calls.len() && claim(#[trigger] next.calls[i]) is Some
        implies claim(next.calls[i])->0 < next.owner.len() && next.owner[claim(
        next.calls[i],
    )->0 as int] == i by {
        assert(claim(next.calls[i]) == claim(sys.calls[i]));
    }
    assert forall|s: int| 0 <= s < next.owner.len() implies 0 <= #[trigger] next.owner[s]
        < next.calls.len() && claim(next.calls[next.owner[s]]) == Some(s as u64) by {
        assert(claim(next.calls[sys.owner[s]]) == claim(sys.calls[sys.owner[s]]));
    }
}

/// At every moment of every history of a pool the system is in order: whatever the hosts
/// do, in whatever order their accesses fall, and whichever of them crash.
pub proof fn law_always_in_order(states: Seq<System>, i: int)
    requires
        history(states),
        0 <= i < states.len(),
    ensures
        system_ok(states[i]),
    decreases i,
{
    if i == 0 {
        let sys = states[0];
        assert forall|s: int| #![trigger sys.g.record_at(s)] 0 <= s < sys.g.capacity implies slot_ok(
            sys,
            s,
        ) by {
            assert(pool::state_of(sys.g, sys.memory, s) == STATE_FREE);
        }
    } else {
        law_always_in_order(states, i - 1);
        let before = i - 1;
        assert(goes_on(states[before], states[before + 1]));
        law_stays_in_order(states[before], states[i]);
    }
}

/// Whatever happens next, the system stays in order, claims and records stay, and the
/// committed tail does not move back.
pub proof fn law_stays_in_order(sys: System, next: System)
    requires
        system_ok(sys),
        goes_on(sys, next),
    ensures
        system_ok(next),
        later(sys, next),
        pool::committed_tail(sys.memory) <= pool::committed_tail(next.memory),
{
    if exists|call: Call| begins(sys, call, next) {
        let call = choose|call: Call| begins(sys, call, next);
        lemma_begin(sys, call, next);
    } else if exists|id: int, a: Access| advances(sys, id, a, next) {
        let (id, a) = choose|id: int, a: Access| advances(sys, id, a, next);
        lemma_advance(sys, id, a, next);
        lemma_advance_later(sys, id, a, next);
    } else {
        let id = choose|id: int| crashes(sys, id, next);
        lemma_crash(sys, id, next);
    }
}

/// A host that loses the race for the committed tail sweeps again, from further on: each
/// race lost is a step forward of the tail, so no host ever gives up.
pub proof fn law_lost_race_goes_on(sys: System, id: int, a: Access, next: System)
    requires
        system_ok(sys),
        advances(sys, id, a, next),
        sys.calls[id].pc is SweepSwap,
    ensures
        sys.calls[id].pc matches Pc::SweepSwap { goal, lost, tail, next: to } && {
            let now = pool::committed_tail(sys.memory);
            &&& lost <= tail <= now
            &&& now == tail ==> next.calls[id].pc == protocol::after_sweep(
                sys.calls[id].call,
                goal,
                to,
            )
            &&& now != tail ==> lost + 1 <= now && next.calls[id].pc == (Pc::SweepLoad {
                goal,
                lost: (lost + 1) as u64,
            })
        },
{
    assert(call_ok(sys, sys.calls[id]));
}

/// No two appends return the same index.
pub proof fn law_indices_unique(sys: System, a: int, b: int, index: u64)
    requires
        system_ok(sys),
        0 <= a < sys.calls.len(),
        0 <= b < sys.calls.len(),
        sys.calls[a].pc == (Pc::Done { outcome: Outcome::Append(Ok(index)) }),
        sys.calls[b].pc == (Pc::Done { outcome: Outcome::Append(Ok(index)) }),
    ensures
        a == b,
{
    assert(claim(sys.calls[a]) is Some);
    assert(claim(sys.calls[b]) is Some);
}

/// Operation `w` is the append that wrote and committed `record` under `index`.
pub open spec fn wrote(sys: System, w: int, index: u64, record: RecordView) -> bool {
    &&& 0 <= w < sys.calls.len()
    &&& claim(sys.calls[w]) == Some((index - 1) as u64)
    &&& stage(sys.calls[w]) >= 9
    &&& match sys.calls[w].call {
        Call::Append { host, term, data } => record == RecordView {
            index,
            term,
            writer_id: host as u64,
            data,
        },
        _ => false,
    }
}

/// Readers see complete records only: a read that returns a record returns exactly what
/// one append wrote under that index.
pub proof fn law_reads_complete(sys: System, id: int, index: u64, host: u16, record: RecordView)
    requires
        system_ok(sys),
        0 <= id < sys.calls.len(),
        sys.calls[id].call == (Call::Read { host, index }),
        sys.calls[id].pc == (Pc::Done { outcome: Outcome::Read(Ok(Some(record))) }),
    ensures
        exists|w: int| wrote(sys, w, index, record),
{
    assert(call_ok(sys, sys.calls[id]));
    lemma_committed_slot(sys, index - 1);
    assert(wrote(sys, sys.owner[index - 1], index, record));
}

/// No read ever meets a damaged record.
pub proof fn law_reads_undamaged(sys: System, id: int, error: FenceError)
    requires
        system_ok(sys),
        0 <= id < sys.calls.len(),
        sys.calls[id].pc == (Pc::Done { outcome: Outcome::Read(Err(error)) }),
    ensures
        !(error is ChecksumMismatch),
{
    assert(call_ok(sys, sys.calls[id]));
}

/// A record reaches the medium before anything announces it: once a slot shows as committed
/// or lies before the committed tail, in memory or on the medium, the medium holds the
/// complete record of the append that claimed it.
pub proof fn law_flushed_before_announced(sys: System, slot: int)
    requires
        system_ok(sys),
        0 <= slot < sys.g.capacity,
        slot < pool::committed_tail(sys.memory) || slot < pool::committed_tail(sys.medium)
            || pool::state_of(sys.g, sys.memory, slot) == STATE_COMMITTED || pool::state_of(
            sys.g,
            sys.medium,
            slot,
        ) == STATE_COMMITTED,
    ensures
        0 <= slot < sys.owner.len(),
        sys.calls[sys.owner[slot]].call matches Call::Append { host, term, data } && {
            let f = pool::appended_fields(slot as u64, host, term, data);
            &&& f.intact()
            &&& pool::fields_of(sys.g, sys.medium, slot) == f
            &&& pool::fields_of(sys.g, sys.memory, slot) == f
        },
{
    lemma_shown(sys, slot);
    if slot < pool::committed_tail(sys.memory) {
        assert(sys.committed(slot));
    }
    lemma_committed_slot(sys, slot);
}

/// An append that has returned is durable: the medium holds its complete record, marked as
/// committed (or, by now, as trimmed).
pub proof fn law_returned_append_durable(sys: System, id: int, index: u64)
    requires
        system_ok(sys),
        0 <= id < sys.calls.len(),
        sys.calls[id].pc == (Pc::Done { outcome: Outcome::Append(Ok(index)) }),
    ensures
        0 < index <= sys.g.capacity,
        sys.calls[id].call matches Call::Append { host, term, data } && pool::fields_of(
            sys.g,
            sys.medium,
            index - 1,
        ) == pool::appended_fields((index - 1) as u64, host, term, data),
        settled(pool::state_of(sys.g, sys.medium, index - 1)),
        settled(pool::state_of(sys.g, sys.memory, index - 1)),
{
    assert(call_ok(sys, sys.calls[id]));
    assert(claim(sys.calls[id]) is Some);
    let slot = index - 1;
    assert(sys.owner[slot] == id);
    assert(sys.committed(slot));
    lemma_committed_slot(sys, slot);
    assert(slot_ok(sys, slot)) by {
        let at = sys.g.record_at(slot);
    }
}

/// Recovery after any crash is safe: run on the pool as the crash left it, it keeps every
/// committed record, and abandons only what no append has announced.
pub proof fn law_recovery_after_crash(sys: System, slot: int)
    requires
        system_ok(sys),
        0 <= slot < sys.g.capacity,
    ensures
        pool::state_of(sys.g, sys.memory, slot) == STATE_COMMITTED ==> pool::state_of(
            sys.g,
            pool::recovered(sys.g, sys.memory),
            slot,
        ) == STATE_COMMITTED && pool::fields_of(
            sys.g,
            pool::recovered(sys.g, sys.memory),
            slot,
        ).intact(),
        pool::state_of(sys.g, pool::recovered(sys.g, sys.memory), slot) != STATE_WRITING,
{
    let m = sys.memory;
    laws::lemma_recovered(sys.g, m);
    lemma_shown(sys, slot);
    lemma_taking_back_bound(sys.calls);
    let after = pool::recovered(sys.g, m);
    assert(pool::fields_of(sys.g, after, slot) == pool::fields_of(sys.g, m, slot));
    if pool::state_of(sys.g, m, slot) == STATE_COMMITTED {
        lemma_committed_slot(sys, slot);
    }
    if pool::state_of(sys.g, m, slot) != STATE_FREE {
        assert(slot < sys.owner.len());
    }
}

/// Over the course of a history, claims and records stay, the committed tail does not move
/// back, what has returned has returned, and a crashed host does not come back.
pub proof fn law_history_goes_forward(states: Seq<System>, i: int, j: int)
    requires
        history(states),
        0 <= i <= j < states.len(),
    ensures
        later(states[i], states[j]),
        states[i].calls.len() <= states[j].calls.len(),
        forall|id: int|
            0 <= id < states[i].calls.len() ==> {
                &&& #[trigger] states[j].calls[id].call == states[i].calls[id].call
                &&& states[i].calls[id].pc is Done ==> states[j].calls[id].pc
                    == states[i].calls[id].pc
                &&& states[j].calls[id].alive ==> states[i].calls[id].alive
            },
    decreases j - i,
{
    if i < j {
        let k = j - 1;
        law_history_goes_forward(states, i, k);
        law_always_in_order(states, k);
        assert(goes_on(states[k], states[k + 1]));
        law_stays_in_order(states[k], states[j]);
        lemma_step_keeps_done(states[k], states[j]);
        assert forall|s: int| 0 <= s < states[i].owner.len() implies {
            &&& #[trigger] states[j].owner[s] == states[i].owner[s]
            &&& states[j].calls[states[i].owner[s]].call == states[i].calls[states[i].owner[s]].call
            &&& stage(states[i].calls[states[i].owner[s]]) <= stage(
                states[j].calls[states[i].owner[s]],
            )
        } by {
            assert(states[k].owner[s] == states[i].owner[s]);
        }
        assert forall|id: int| 0 <= id < states[i].calls.len() implies {
            &&& #[trigger] states[j].calls[id].call == states[i].calls[id].call
            &&& states[i].calls[id].pc is Done ==> states[j].calls[id].pc
                == states[i].calls[id].pc
            &&& states[j].calls[id].alive ==> states[i].calls[id].alive
        } by {
            assert(states[k].calls[id].call == states[i].calls[id].call);
        }
    }
}

/// Operations keep their arguments, those that have returned have returned, and those of a
/// crashed host stay stopped.
proof fn lemma_step_keeps_done(sys: System, next: System)
    requires
        goes_on(sys, next),
    ensures
        sys.calls.len() <= next.calls.len(),
        forall|id: int|
            0 <= id < sys.calls.len() ==> {
                &&& #[trigger] next.calls[id].call == sys.calls[id].call
                &&& sys.calls[id].pc is Done ==> next.calls[id].pc == sys.calls[id].pc
                &&& next.calls[id].alive ==> sys.calls[id].alive
            },
{
    if exists|call: Call| begins(sys, call, next) {
        let call = choose|call: Call| begins(sys, call, next);
        assert forall|id: int| 0 <= id < sys.calls.len() implies #[trigger] next.calls[id]
            == sys.calls[id] by {}
    } else if exists|id: int, a: Access| advances(sys, id, a, next) {
        let (id, a) = choose|id: int, a: Access| advances(sys, id, a, next);
    } else {
        let id = choose|id: int| crashes(sys, id, next);
    }
}

/// The log is ordered as it was written: an append that has claimed no slot yet when
/// another one has its index gets a higher index.
pub proof fn law_later_appends_get_higher_indices(
    states: Seq<System>,
    i: int,
    j: int,
    first: int,
    second: int,
)
    requires
        history(states),
        0 <= i <= j < states.len(),
        0 <= first < states[i].calls.len(),
        0 <= second < states[j].calls.len(),
        claim(states[i].calls[first]) is Some,
        second < states[i].calls.len() ==> claim(states[i].calls[second]) is None,
        claim(states[j].calls[second]) is Some,
    ensures
        claim(states[i].calls[first])->0 < claim(states[j].calls[second])->0,
{
    law_always_in_order(states, i);
    law_always_in_order(states, j);
    law_history_goes_forward(states, i, j);
    let slot = claim(states[j].calls[second])->0 as int;
    assert(states[j].owner[slot] == second);
    if slot < states[i].owner.len() {
        assert(states[j].owner[slot] == states[i].owner[slot]);
        assert(claim(states[i].calls[states[i].owner[slot]]) is Some);
        assert(false);
    }
    assert(claim(states[i].calls[first])->0 < states[i].owner.len());
}

/// What an append has returned for stays on the medium: at every later moment, whatever
/// crashes, the medium holds its complete record.
pub proof fn law_returned_append_stays(states: Seq<System>, i: int, j: int, id: int, index: u64)
    requires
        history(states),
        0 <= i <= j < states.len(),
        0 <= id < states[i].calls.len(),
        states[i].calls[id].pc == (Pc::Done { outcome: Outcome::Append(Ok(index)) }),
    ensures
        0 < index <= states[j].g.capacity,
        states[i].calls[id].call matches Call::Append { host, term, data } && pool::fields_of(
            states[j].g,
            states[j].medium,
            index - 1,
        ) == pool::appended_fields((index - 1) as u64, host, term, data),
        settled(pool::state_of(states[j].g, states[j].medium, index - 1)),
{
    law_always_in_order(states, j);
    law_history_goes_forward(states, i, j);
    assert(states[j].calls[id].call == states[i].calls[id].call);
    law_returned_append_durable(states[j], id, index);
}

/// A record that was appended, announced and not trimmed reads back as it was written,
/// whichever host reads it.
pub proof fn law_returned_append_readable(sys: System, id: int, index: u64)
    requires
        system_ok(sys),
        0 <= id < sys.calls.len(),
        sys.calls[id].pc == (Pc::Done { outcome: Outcome::Append(Ok(index)) }),
        index <= pool::committed_tail(sys.memory),
        pool::state_of(sys.g, sys.memory, index - 1) != STATE_ABANDONED,
    ensures
        sys.calls[id].call matches Call::Append { host, term, data } && pool::read_result(
            sys.g,
            sys.memory,
            index,
        ) == Ok::<Option<RecordView>, FenceError>(
            Some(RecordView { index, term, writer_id: host as u64, data }),
        ),
{
    law_returned_append_durable(sys, id, index);
    pool::lemma_slot_named(sys.g, index);
    let slot = index - 1;
    assert(claim(sys.calls[id]) is Some);
    assert(sys.owner[slot] == id);
    assert(sys.committed(slot));
    lemma_committed_slot(sys, slot);
}

/// An append that has returned survives the loss of memory: recovery of what the medium
/// holds keeps its record, unless it was trimmed.
pub proof fn law_returned_append_survives_power_loss(sys: System, id: int, index: u64)
    requires
        system_ok(sys),
        0 <= id < sys.calls.len(),
        sys.calls[id].pc == (Pc::Done { outcome: Outcome::Append(Ok(index)) }),
        pool::state_of(sys.g, sys.medium, index - 1) != STATE_ABANDONED,
    ensures
        ({
            let after = pool::recovered(sys.g, sys.medium);
            &&& pool::state_of(sys.g, after, index - 1) == STATE_COMMITTED
            &&& sys.calls[id].call matches Call::Append { host, term, data }
            &&& pool::fields_of(sys.g, after, index - 1) == pool::appended_fields(
                (index - 1) as u64,
                host,
                term,
                data,
            )
        }),
{
    law_returned_append_durable(sys, id, index);
    laws::lemma_recovered(sys.g, sys.medium);
    let after = pool::recovered(sys.g, sys.medium);
    assert(pool::fields_of(sys.g, after, index - 1) == pool::fields_of(
        sys.g,
        sys.medium,
        index - 1,
    ));
    assert(pool::fields_of(sys.g, sys.medium, index - 1).intact());
}

} // verus!

//! What holds of every operation, access by access, whatever other hosts do in between.
use crate::backend::{Access, MemOrder};
use crate::layout::{
    PoolGeometry, HDR_COMMITTED_TAIL, STATE_ABANDONED, STATE_COMMITTED, STATE_WRITING,
};
use crate::protocol;
use crate::protocol::{Call, FieldsFor, Outcome, Pc, SweepFor};
use vstd::prelude::*;

verus! {

/// How many of the accesses mark a slot as abandoned.
pub open spec fn marks(accesses: Seq<Access>) -> nat
    decreases accesses.len(),
{
    if accesses.len() == 0 {
        0
    } else {
        marks(accesses.drop_last()) + (if accesses.last() matches Access::StoreU8 { value, .. }
            && value == STATE_ABANDONED {
            1nat
        } else {
            0nat
        })
    }
}

/// How far a trim has counted.
spec fn trim_counted(up_to: u64, pc: Pc, n: nat) -> bool {
    match pc {
        Pc::Start => n == 0,
        Pc::TrimScan { slot, trimmed } => n == trimmed && trimmed <= slot < up_to % 0x1_0000_0000,
        Pc::TrimStore { slot, trimmed } => n == trimmed && trimmed <= slot < up_to % 0x1_0000_0000,
        Pc::TrimFlush { slot, trimmed } => n == trimmed + 1 && trimmed <= slot < up_to
            % 0x1_0000_0000,
        Pc::Done { outcome: Outcome::Trim(Ok(trimmed)) } => n == trimmed,
        Pc::Done { outcome: Outcome::Trim(Err(_)) } => n == 0,
        _ => false,
    }
}

proof fn lemma_trim_counts(g: PoolGeometry, up_to: u64, accesses: Seq<Access>)
    requires
        protocol::run(g, Call::Trim { up_to }, Pc::Start, accesses) is Some,
    ensures
        trim_counted(
            up_to,
            protocol::run(g, Call::Trim { up_to }, Pc::Start, accesses)->0,
            marks(accesses),
        ),
    decreases accesses.len(),
{
    if accesses.len() > 0 {
        lemma_trim_counts(g, up_to, accesses.drop_last());
    }
}

/// A trim returns how many slots it marked as abandoned, whatever other hosts do meanwhile;
/// one that is refused marks none.
pub proof fn law_trim_counts_marks(
    g: PoolGeometry,
    up_to: u64,
    before: Seq<Access>,
    after: Seq<Access>,
    outcome: Outcome,
)
    requires
        protocol::carries_out(g, Call::Trim { up_to }, before, after, outcome),
    ensures
        ({
            let made = after.subrange(before.len() as int, after.len() as int);
            outcome matches Outcome::Trim(result) && match result {
                Ok(n) => n == marks(made),
                Err(_) => marks(made) == 0,
            }
        }),
{
    reveal(protocol::reaches);
    lemma_trim_counts(g, up_to, after.subrange(before.len() as int, after.len() as int));
}

/// How far a recovery run has counted.
spec fn recovery_counted(pc: Pc, n: nat) -> bool {
    match pc {
        Pc::Start => n == 0,
        Pc::RecoverScan { slot, limit, abandoned } => n == abandoned && abandoned <= slot < limit
            <= u32::MAX,
        Pc::LoadFields { goal: FieldsFor::Recover { limit, abandoned }, slot, .. } => n == abandoned
            && abandoned <= slot < limit <= u32::MAX,
        Pc::RecoverStore { slot, limit, abandoned } => n == abandoned && abandoned <= slot < limit
            <= u32::MAX,
        Pc::RecoverFlush { slot, limit, abandoned } => n == abandoned + 1 && abandoned <= slot
            < limit <= u32::MAX,
        Pc::SweepLoad { goal: SweepFor::Recover { abandoned, .. }, .. } => n == abandoned,
        Pc::SweepScan { goal: SweepFor::Recover { abandoned, .. }, .. } => n == abandoned,
        Pc::SweepSwap { goal: SweepFor::Recover { abandoned, .. }, .. } => n == abandoned,
        Pc::CountRun { report } => n == report.abandoned_count,
        Pc::NoteAbandoned { report } => n == report.abandoned_count,
        Pc::Done { outcome: Outcome::Recover(report) } => n == report.abandoned_count,
        _ => false,
    }
}

proof fn lemma_recovery_counts(g: PoolGeometry, host: Option<u16>, accesses: Seq<Access>)
    requires
        protocol::run(g, Call::Recover { host }, Pc::Start, accesses) is Some,
    ensures
        recovery_counted(
            protocol::run(g, Call::Recover { host }, Pc::Start, accesses)->0,
            marks(accesses),
        ),
    decreases accesses.len(),
{
    if accesses.len() > 0 {
        lemma_recovery_counts(g, host, accesses.drop_last());
    }
}

/// A recovery run reports how many slots it marked as abandoned, whatever other hosts do
/// meanwhile.
pub proof fn law_recovery_counts_marks(
    g: PoolGeometry,
    host: Option<u16>,
    before: Seq<Access>,
    after: Seq<Access>,
    outcome: Outcome,
)
    requires
        protocol::carries_out(g, Call::Recover { host }, before, after, outcome),
    ensures
        ({
            let made = after.subrange(before.len() as int, after.len() as int);
            outcome matches Outcome::Recover(report) && report.abandoned_count == marks(made)
        }),
{
    reveal(protocol::reaches);
    lemma_recovery_counts(g, host, after.subrange(before.len() as int, after.len() as int));
}

/// Whoever commits or abandons a slot flushes its state right away: the very next access
/// writes back the line that holds it.
pub proof fn law_state_changes_flushed(g: PoolGeometry, call: Call, pc: Pc, a: Access, b: Access)
    requires
        g.wf(),
        protocol::step(g, call, pc, a) is Some,
        a matches Access::StoreU8 { value, .. } && value != STATE_WRITING,
        protocol::step(g, call, protocol::step(g, call, pc, a)->0, b) is Some,
    ensures
        b matches Access::Flush { offset, len } && offset == a->StoreU8_offset && (len == 64
            || offset + len == g.total_size),
{
}

/// A slot is committed only once its whole record was flushed: the access before the one that
/// commits writes back all of the record.
pub proof fn law_record_flushed_before_commit(
    g: PoolGeometry,
    call: Call,
    pc: Pc,
    a: Access,
    b: Access,
)
    requires
        protocol::step(g, call, pc, a) is Some,
        protocol::step(g, call, protocol::step(g, call, pc, a)->0, b) is Some,
        b matches Access::StoreU8 { value, .. } && value == STATE_COMMITTED,
    ensures
        a matches Access::Flush { offset, len } && offset == b->StoreU8_offset && len
            == g.record_size,
{
}

/// What other hosts go by is handed over in order: whoever commits or abandons a slot releases
/// what was written before, whoever looks at a state or a tail acquires it, and claims and
/// moves of the tail do both.
pub proof fn law_handed_over_in_order(g: PoolGeometry, call: Call, pc: Pc, a: Access)
    requires
        g.wf(),
        protocol::step(g, call, pc, a) is Some,
        !(call is Observe),
    ensures
        match a {
            Access::StoreU8 { order, value, .. } => value != STATE_WRITING ==> order
                == MemOrder::Release,
            Access::LoadU8 { order, .. } => order == MemOrder::Acquire,
            Access::LoadU64 { offset, order, .. } => pc is Start || pc is SweepLoad ==> order
                == MemOrder::Acquire,
            Access::FetchAddU64 { order, .. } => pc is Start && (call matches Call::Append {
                data,
                ..
            } && data.len() <= g.payload_size) ==> order == MemOrder::AcqRel,
            Access::CompareExchangeU64 { offset, success, failure, .. } => offset
                == HDR_COMMITTED_TAIL && success == MemOrder::AcqRel && failure
                == MemOrder::Acquire,
            _ => true,
        },
{
}

} // verus!

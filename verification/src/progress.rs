//! Appends that run side by side lose nothing.
//!
//! A history is quiet if hosts append, read and advance the tail, and none of them crashes.
//! Once everything begun in such a history has returned, the committed tail has passed every
//! record: each append that succeeded can be read back, and if the pool had room for all of
//! them, all of them succeeded.
use crate::backend::Access;
use crate::error::FenceError;
use crate::layout;
use crate::layout::{PoolGeometry, STATE_COMMITTED};
use crate::pool;
use crate::pool::RecordView;
use crate::protocol::{Call, Outcome, Pc};
use crate::system;
use crate::system::{Activity, System};
use vstd::prelude::*;

verus! {

/// How many operations satisfy `p`.
pub open spec fn tally(calls: Seq<Activity>, p: spec_fn(Activity) -> bool) -> nat
    decreases calls.len(),
{
    if calls.len() == 0 {
        0
    } else {
        tally(calls.drop_last(), p) + (if p(calls.last()) {
            1nat
        } else {
            0nat
        })
    }
}

/// Operations that are appends.
pub open spec fn appends() -> spec_fn(Activity) -> bool {
    |act: Activity| act.call is Append
}

/// Operations that are appends and have returned an index.
pub open spec fn successes() -> spec_fn(Activity) -> bool {
    |act: Activity| succeeded(act)
}

/// The operation is an append that has returned an index.
pub open spec fn succeeded(act: Activity) -> bool {
    act.pc matches Pc::Done { outcome: Outcome::Append(Ok(_)) }
}

/// The position of an append that has returned `index`.
pub open spec fn returned(index: u64) -> Pc {
    Pc::Done { outcome: Outcome::Append(Ok(index)) }
}

/// Operations that have claimed a slot.
spec fn claimants() -> spec_fn(Activity) -> bool {
    |act: Activity| system::claim(act) is Some
}

/// Hosts append, read and advance the tail; none has crashed.
pub open spec fn quiet(sys: System) -> bool {
    forall|id: int|
        0 <= id < sys.calls.len() ==> {
            &&& (#[trigger] sys.calls[id]).alive
            &&& sys.calls[id].call is Append || sys.calls[id].call is Read || sys.calls[id].call
                is Advance
        }
}

/// Everything that was begun has returned.
pub open spec fn all_returned(sys: System) -> bool {
    forall|id: int| 0 <= id < sys.calls.len() ==> (#[trigger] sys.calls[id]).pc is Done
}

/// No append is lost: the committed tail is the number of appends that have succeeded, their
/// indices are exactly those up to it, each returned once, and each reads back as the record
/// that its append wrote.
pub open spec fn nothing_lost(sys: System) -> bool {
    let ct = pool::committed_tail(sys.memory);
    &&& ct == tally(sys.calls, successes())
    &&& forall|index: u64|
        0 < index <= ct ==> exists|id: int|
            #![trigger sys.calls[id]]
            0 <= id < sys.calls.len() && sys.calls[id].pc == #[trigger] returned(index)
    &&& forall|a: int, b: int|
        0 <= a < sys.calls.len() && 0 <= b < sys.calls.len() && succeeded(#[trigger] sys.calls[a])
            && sys.calls[a].pc == (#[trigger] sys.calls[b]).pc ==> a == b
    &&& forall|id: int, index: u64|
        #![trigger sys.calls[id], returned(index)]
        0 <= id < sys.calls.len() && sys.calls[id].pc == returned(index) ==> {
            &&& 0 < index <= ct
            &&& sys.calls[id].call matches Call::Append { host, term, data }
            &&& pool::read_result(sys.g, sys.memory, index) == Ok::<Option<RecordView>, FenceError>(
                Some(RecordView { index, term, writer_id: host as u64, data }),
            )
        }
}

/// The operation has committed its record and has yet to finish moving the tail, or moves
/// the tail for its own sake.
spec fn sweeping(act: Activity) -> bool {
    match act.pc {
        Pc::Fill { stage, .. } => stage >= 9,
        Pc::SweepLoad { .. } => true,
        Pc::SweepScan { .. } => true,
        Pc::SweepSwap { .. } => true,
        _ => false,
    }
}

spec fn sweeps(sys: System, id: int) -> bool {
    0 <= id < sys.calls.len() && sweeping(sys.calls[id])
}

/// The operation was refused a slot.
spec fn refused(g: PoolGeometry, act: Activity) -> bool {
    &&& system::append_fits(g, act.call)
    &&& match act.pc {
        Pc::Undo { .. } => true,
        Pc::CountRefusal { .. } => true,
        Pc::Done { outcome: Outcome::Append(Err(_)) } => true,
        _ => false,
    }
}

/// What an append returns is the outcome of an append.
spec fn outcome_ok(act: Activity) -> bool {
    act.call is Append ==> (act.pc matches Pc::Done { outcome } ==> outcome is Append)
}

/// What is committed shows as committed.
spec fn shows(sys: System) -> bool {
    forall|s: int|
        #[trigger] sys.committed(s) ==> pool::state_of(sys.g, sys.memory, s) == STATE_COMMITTED
}

/// If the record at the committed tail is committed, somebody is about to move the tail.
spec fn tail_watched(sys: System) -> bool {
    let ct = pool::committed_tail(sys.memory) as int;
    ct < sys.g.capacity && sys.committed(ct) ==> exists|id: int| sweeps(sys, id)
}

/// Whoever is about to move the tail to a record that was committed meanwhile is not the
/// only one at it.
spec fn swap_watched(sys: System, id: int) -> bool {
    sys.calls[id].pc matches Pc::SweepSwap { tail, next, .. } ==> tail == pool::committed_tail(
        sys.memory,
    ) && next < sys.g.capacity && sys.committed(next as int) ==> exists|other: int|
        other != id && sweeps(sys, other)
}

/// What holds at every moment of a quiet history.
spec fn progress_ok(sys: System) -> bool {
    &&& quiet(sys)
    &&& shows(sys)
    &&& tail_watched(sys)
    &&& forall|id: int| #![trigger sys.calls[id]] 0 <= id < sys.calls.len() ==> swap_watched(sys, id)
    &&& forall|id: int|
        0 <= id < sys.calls.len() && refused(sys.g, #[trigger] sys.calls[id]) ==> sys.owner.len()
            == sys.g.capacity
    &&& forall|id: int| 0 <= id < sys.calls.len() ==> outcome_ok(#[trigger] sys.calls[id])
    &&& tally(sys.calls, claimants()) == sys.owner.len()
}

proof fn lemma_tally_update(
    calls: Seq<Activity>,
    p: spec_fn(Activity) -> bool,
    i: int,
    x: Activity,
)
    requires
        0 <= i < calls.len(),
    ensures
        tally(calls.update(i, x), p) + (if p(calls[i]) {
            1int
        } else {
            0int
        }) == tally(calls, p) + (if p(x) {
            1int
        } else {
            0int
        }),
    decreases calls.len(),
{
    let new = calls.update(i, x);
    if i == calls.len() - 1 {
        assert(new.drop_last() =~= calls.drop_last());
    } else {
        assert(new.drop_last() =~= calls.drop_last().update(i, x));
        lemma_tally_update(calls.drop_last(), p, i, x);
    }
}

/// Of two properties the first of which implies the second, the second holds at least as
/// often, and more often if it once holds alone.
proof fn lemma_tally_most(
    calls: Seq<Activity>,
    p: spec_fn(Activity) -> bool,
    q: spec_fn(Activity) -> bool,
)
    requires
        forall|i: int| 0 <= i < calls.len() && p(#[trigger] calls[i]) ==> q(calls[i]),
    ensures
        tally(calls, p) <= tally(calls, q),
        (exists|i: int| 0 <= i < calls.len() && q(#[trigger] calls[i]) && !p(calls[i])) ==> tally(
            calls,
            p,
        ) < tally(calls, q),
    decreases calls.len(),
{
    if calls.len() > 0 {
        let rest = calls.drop_last();
        assert forall|i: int| 0 <= i < rest.len() && p(#[trigger] rest[i]) implies q(rest[i]) by {
            assert(rest[i] == calls[i]);
        }
        lemma_tally_most(rest, p, q);
        assert(p(calls[calls.len() - 1]) ==> q(calls[calls.len() - 1]));
        if exists|i: int| 0 <= i < calls.len() && q(#[trigger] calls[i]) && !p(calls[i]) {
            let i = choose|i: int| 0 <= i < calls.len() && q(#[trigger] calls[i]) && !p(calls[i]);
            if i < rest.len() {
                assert(rest[i] == calls[i]);
            }
        }
    }
}

/// What is committed shows as committed after an access, too.
proof fn lemma_advance_shows(sys: System, id: int, a: Access, next: System)
    requires
        system::system_ok(sys),
        progress_ok(sys),
        system::advances(sys, id, a, next),
    ensures
        shows(next),
        forall|s: int|
            #[trigger] next.committed(s) && !sys.committed(s) ==> sweeping(next.calls[id])
                && sys.calls[id].pc is Fill,
{
    let g = sys.g;
    let act = sys.calls[id];
    assert(system::call_ok(sys, act));
    system::lemma_access_effect(sys, id, a, next);
    system::lemma_advance_later(sys, id, a, next);
    system::lemma_advance_owners(sys, id, a, next);
    layout::law_layout(g);
    assert forall|s: int| #[trigger] next.committed(s) implies pool::state_of(g, next.memory, s)
        == STATE_COMMITTED && (!sys.committed(s) ==> sweeping(next.calls[id]) && act.pc is Fill) by {
        let at = g.record_at(s);
        if s < sys.owner.len() {
            let w = sys.owner[s];
            assert(next.owner[s] == w);
            assert(system::claim(sys.calls[w]) == Some(s as u64));
            if w == id && act.pc is Fill {
                if system::stage(act) == 8 {
                    assert(next.memory[at] == STATE_COMMITTED);
                } else {
                    assert(sys.committed(s));
                }
            } else {
                assert(sys.committed(s));
                assert(system::writes_to(act) != Some(s as u64)) by {
                    if act.pc is Fill {
                        assert(system::claim(act) is Some);
                    }
                }
                assert(next.memory[at] == sys.memory[at]);
            }
        }
    }
}

/// An operation that sweeps goes on, unless it moves the tail, or finds the record at the
/// tail uncommitted, or the tail at the end.
proof fn lemma_sweeper_goes_on(sys: System, id: int, a: Access, next: System)
    requires
        system::system_ok(sys),
        progress_ok(sys),
        system::advances(sys, id, a, next),
        sweeps(sys, id),
        pool::committed_tail(sys.memory) < sys.g.capacity,
        sys.committed(pool::committed_tail(sys.memory) as int),
        pool::committed_tail(next.memory) == pool::committed_tail(sys.memory),
    ensures
        sweeps(next, id),
{
    let act = sys.calls[id];
    let ct = pool::committed_tail(sys.memory);
    assert(system::call_ok(sys, act));
    system::lemma_access_effect(sys, id, a, next);
    match act.pc {
        Pc::SweepScan { tail, next: to, .. } => {
            assert(sys.committed(tail as int));
            assert(pool::state_of(sys.g, sys.memory, tail as int) == STATE_COMMITTED);
        },
        _ => {},
    }
}

/// Somebody is about to move the tail after an access, too, wherever it is needed.
proof fn lemma_advance_watched(sys: System, id: int, a: Access, next: System)
    requires
        system::system_ok(sys),
        progress_ok(sys),
        system::advances(sys, id, a, next),
    ensures
        tail_watched(next),
        forall|x: int| #![trigger next.calls[x]] 0 <= x < next.calls.len() ==> swap_watched(next, x),
{
    let g = sys.g;
    let act = sys.calls[id];
    let ct = pool::committed_tail(sys.memory);
    let ct2 = pool::committed_tail(next.memory);
    assert(system::call_ok(sys, act));
    system::lemma_access_effect(sys, id, a, next);
    system::lemma_advance_later(sys, id, a, next);
    lemma_advance_shows(sys, id, a, next);
    assert(next.calls.len() == sys.calls.len());
    assert forall|x: int| x != id && #[trigger] sweeps(sys, x) implies sweeps(next, x) by {}
    if ct2 < g.capacity && next.committed(ct2 as int) {
        if !sys.committed(ct2 as int) {
            assert(sweeps(next, id));
        } else if ct2 != ct {
            assert(swap_watched(sys, id));
            let other = choose|other: int| other != id && sweeps(sys, other);
            assert(sweeps(next, other));
        } else {
            let w = choose|w: int| sweeps(sys, w);
            assert(sweeps(sys, w));
            if w == id {
                lemma_sweeper_goes_on(sys, id, a, next);
            }
            assert(sweeps(next, w));
        }
    }
    assert forall|x: int| #![trigger next.calls[x]] 0 <= x < next.calls.len() implies swap_watched(
        next,
        x,
    ) by {
        if let Pc::SweepSwap { tail, next: to, .. } = next.calls[x].pc {
            if tail == ct2 && to < g.capacity && next.committed(to as int) {
                if x == id {
                    // It has just found the record at `to` uncommitted.
                    assert(sys.committed(to as int));
                    assert(false);
                } else {
                    assert(system::call_ok(sys, sys.calls[x]));
                    assert(swap_watched(sys, x));
                    assert(ct2 == ct);
                    assert(sys.committed(tail as int));
                    if sys.committed(to as int) {
                        let other = choose|other: int| other != x && sweeps(sys, other);
                        if other == id {
                            lemma_sweeper_goes_on(sys, id, a, next);
                        }
                        assert(other != x && sweeps(next, other));
                    } else {
                        assert(id != x && sweeps(next, id));
                    }
                }
            }
        }
    }
}

/// An access keeps a quiet history in progress.
proof fn lemma_advance_progress(sys: System, id: int, a: Access, next: System)
    requires
        system::system_ok(sys),
        progress_ok(sys),
        system::advances(sys, id, a, next),
    ensures
        progress_ok(next),
{
    let act = sys.calls[id];
    let act2 = next.calls[id];
    assert(system::call_ok(sys, act));
    system::lemma_advance_owners(sys, id, a, next);
    lemma_advance_shows(sys, id, a, next);
    lemma_advance_watched(sys, id, a, next);
    lemma_tally_update(sys.calls, claimants(), id, act2);
    assert(act.alive);
    assert forall|x: int|
        0 <= x < next.calls.len() && refused(sys.g, #[trigger] next.calls[x]) implies next.owner.len()
        == sys.g.capacity by {
        if x == id {
            if act.pc is Start {
                assert(pool::reserve_tail(sys.memory) >= sys.g.capacity);
            } else {
                assert(refused(sys.g, sys.calls[id]));
            }
        } else {
            assert(refused(sys.g, sys.calls[x]));
        }
    }
    assert forall|x: int| 0 <= x < next.calls.len() implies outcome_ok(#[trigger] next.calls[x]) by {
        assert(outcome_ok(sys.calls[x]));
    }
}

/// A new operation keeps a quiet history in progress.
proof fn lemma_begin_progress(sys: System, call: Call, next: System)
    requires
        system::system_ok(sys),
        progress_ok(sys),
        quiet(next),
        system::begins(sys, call, next),
    ensures
        progress_ok(next),
{
    assert(next.calls.drop_last() =~= sys.calls);
    assert forall|s: int| #[trigger] next.committed(s) implies sys.committed(s) by {
        assert(next.calls[sys.owner[s]] == sys.calls[sys.owner[s]]);
    }
    assert forall|x: int| #[trigger] sweeps(sys, x) implies sweeps(next, x) by {}
    if tail_watched(sys) && next.committed(pool::committed_tail(next.memory) as int)
        && pool::committed_tail(next.memory) < next.g.capacity {
        let w = choose|w: int| sweeps(sys, w);
        assert(sweeps(next, w));
    }
    assert forall|x: int| #![trigger next.calls[x]] 0 <= x < next.calls.len() implies swap_watched(
        next,
        x,
    ) by {
        if x < sys.calls.len() {
            assert(swap_watched(sys, x));
            if exists|other: int| other != x && sweeps(sys, other) {
                let other = choose|other: int| other != x && sweeps(sys, other);
                assert(other != x && sweeps(next, other));
            }
        }
    }
    assert forall|x: int|
        0 <= x < next.calls.len() && refused(next.g, #[trigger] next.calls[x]) implies next.owner.len()
        == next.g.capacity by {
        assert(refused(sys.g, sys.calls[x]));
    }
    assert forall|x: int| 0 <= x < next.calls.len() implies outcome_ok(#[trigger] next.calls[x]) by {
        if x < sys.calls.len() {
            assert(outcome_ok(sys.calls[x]));
        }
    }
}

/// A history that is quiet in the end was quiet, and in progress, all along.
proof fn lemma_in_progress(states: Seq<System>, i: int)
    requires
        system::history(states),
        quiet(states.last()),
        0 <= i < states.len(),
    ensures
        progress_ok(states[i]),
    decreases i,
{
    let sys = states[i];
    system::law_history_goes_forward(states, i, states.len() - 1);
    assert(quiet(sys)) by {
        assert forall|id: int| 0 <= id < sys.calls.len() implies {
            &&& (#[trigger] sys.calls[id]).alive
            &&& sys.calls[id].call is Append || sys.calls[id].call is Read || sys.calls[id].call
                is Advance
        } by {
            assert(states.last().calls[id].call == sys.calls[id].call);
        }
    }
    if i > 0 {
        let before = states[i - 1];
        let k = i - 1;
        lemma_in_progress(states, k);
        system::law_always_in_order(states, k);
        assert(system::goes_on(states[k], states[k + 1]));
        if exists|call: Call| system::begins(before, call, sys) {
            let call = choose|call: Call| system::begins(before, call, sys);
            lemma_begin_progress(before, call, sys);
        } else if exists|id: int, a: Access| system::advances(before, id, a, sys) {
            let (id, a) = choose|id: int, a: Access| system::advances(before, id, a, sys);
            lemma_advance_progress(before, id, a, sys);
        } else {
            let id = choose|id: int| system::crashes(before, id, sys);
            assert(!sys.calls[id].alive);
            assert(false);
        }
    }
}

/// Once everything begun in a quiet history has returned, no committed record waits at the
/// committed tail: the tail is at the end of the pool, or at a slot that is not committed.
pub proof fn law_tail_catches_up(states: Seq<System>)
    requires
        system::history(states),
        quiet(states.last()),
        all_returned(states.last()),
    ensures
        ({
            let sys = states.last();
            let ct = pool::committed_tail(sys.memory);
            ct == sys.g.capacity || pool::state_of(sys.g, sys.memory, ct as int)
                != STATE_COMMITTED
        }),
{
    let sys = states.last();
    let last = states.len() - 1;
    system::law_always_in_order(states, last);
    lemma_in_progress(states, last);
    let ct = pool::committed_tail(sys.memory) as int;
    if ct < sys.g.capacity {
        system::lemma_shown(sys, ct);
        if sys.committed(ct) {
            let id = choose|id: int| sweeps(sys, id);
            assert(sys.calls[id].pc is Done);
        }
    }
}

/// Appends that run side by side lose nothing: once everything begun in a quiet history has
/// returned, each append that succeeded reads back with its own term and data.
pub proof fn law_concurrent_appends_readable(states: Seq<System>)
    requires
        system::history(states),
        quiet(states.last()),
        all_returned(states.last()),
    ensures
        nothing_lost(states.last()),
{
    let sys = states.last();
    let last = states.len() - 1;
    system::law_always_in_order(states, last);
    lemma_in_progress(states, last);
    law_tail_catches_up(states);
    let ct = pool::committed_tail(sys.memory);
    assert forall|s: int| 0 <= s < sys.owner.len() implies #[trigger] sys.committed(s) && sys.calls[
    sys.owner[s]].pc == returned((s + 1) as u64) by {
        let w = sys.owner[s];
        assert(system::claim(sys.calls[w]) == Some(s as u64));
        assert(sys.calls[w].pc is Done);
        assert(system::call_ok(sys, sys.calls[w]));
    }
    if ct < sys.owner.len() {
        assert(sys.committed(ct as int));
        assert(false);
    }
    assert forall|i: int| 0 <= i < sys.calls.len() implies claimants()(#[trigger] sys.calls[i])
        == successes()(sys.calls[i]) by {
        assert(sys.calls[i].pc is Done);
    }
    lemma_tally_most(sys.calls, claimants(), successes());
    lemma_tally_most(sys.calls, successes(), claimants());
    assert forall|index: u64| 0 < index <= ct implies exists|id: int|
        #![trigger sys.calls[id]]
        0 <= id < sys.calls.len() && sys.calls[id].pc == #[trigger] returned(index) by {
        assert(sys.committed(index - 1));
        let w = sys.owner[index - 1];
        assert(sys.calls[w].pc == returned(index));
    }
    assert forall|a: int, b: int|
        0 <= a < sys.calls.len() && 0 <= b < sys.calls.len() && succeeded(#[trigger] sys.calls[a])
            && sys.calls[a].pc == (#[trigger] sys.calls[b]).pc implies a == b by {
        assert(system::claim(sys.calls[a]) is Some);
        assert(system::claim(sys.calls[b]) is Some);
    }
    assert forall|id: int, index: u64|
        #![trigger sys.calls[id], returned(index)]
        0 <= id < sys.calls.len() && sys.calls[id].pc == returned(index) implies {
        &&& 0 < index <= ct
        &&& sys.calls[id].call matches Call::Append { host, term, data }
        &&& pool::read_result(sys.g, sys.memory, index) == Ok::<Option<RecordView>, FenceError>(
            Some(RecordView { index, term, writer_id: host as u64, data }),
        )
    } by {
        assert(system::call_ok(sys, sys.calls[id]));
        assert(system::claim(sys.calls[id]) is Some);
        assert(sys.committed(index - 1));
        system::law_returned_append_readable(sys, id, index);
    }
}

/// A pool with room for all appends takes them all: if a quiet history begins no more
/// appends than there are slots, none with too much data, then once everything has returned
/// every append has succeeded, the committed tail is their number, and none is lost.
pub proof fn law_appends_with_room_succeed(states: Seq<System>)
    requires
        system::history(states),
        quiet(states.last()),
        all_returned(states.last()),
        tally(states.last().calls, appends()) <= states.last().g.capacity,
        forall|id: int|
            0 <= id < states.last().calls.len() && (#[trigger] states.last().calls[id]).call
                is Append ==> system::append_fits(states.last().g, states.last().calls[id].call),
    ensures
        ({
            let sys = states.last();
            &&& forall|id: int|
                0 <= id < sys.calls.len() && (#[trigger] sys.calls[id]).call is Append
                    ==> succeeded(sys.calls[id])
            &&& pool::committed_tail(sys.memory) == tally(sys.calls, appends())
            &&& nothing_lost(sys)
        }),
{
    let sys = states.last();
    let last = states.len() - 1;
    system::law_always_in_order(states, last);
    lemma_in_progress(states, last);
    law_concurrent_appends_readable(states);
    assert forall|i: int| 0 <= i < sys.calls.len() && claimants()(#[trigger] sys.calls[i]) implies
        appends()(sys.calls[i]) by {
        assert(system::call_ok(sys, sys.calls[i]));
    }
    assert forall|i: int| 0 <= i < sys.calls.len() && successes()(#[trigger] sys.calls[i]) implies
        appends()(sys.calls[i]) by {
        assert(system::call_ok(sys, sys.calls[i]));
    }
    lemma_tally_most(sys.calls, claimants(), appends());
    assert forall|id: int| 0 <= id < sys.calls.len() && (#[trigger] sys.calls[id]).call is Append
        implies succeeded(sys.calls[id]) by {
        assert(outcome_ok(sys.calls[id]));
        assert(sys.calls[id].pc is Done);
        if !succeeded(sys.calls[id]) {
            assert(refused(sys.g, sys.calls[id]));
            assert(appends()(sys.calls[id]) && !claimants()(sys.calls[id]));
            assert(false);
        }
    }
    lemma_tally_most(sys.calls, appends(), successes());
    lemma_tally_most(sys.calls, successes(), appends());
}

} // verus!

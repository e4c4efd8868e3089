//! Checks of a pool's state, for tests.
//!
//! Each check loads what it checks and, if that is not as expected, says what it found.
use crate::backend::{Access, MemOrder, MemoryBackend};
use crate::layout::{
    PoolGeometry, HDR_COMMITTED_TAIL, HDR_MAGIC, HDR_RESERVE_TAIL, MAGIC, REC_STATE,
    STATE_COMMITTED,
};
use crate::memory as mem;
use crate::pool;
use crate::text;
use vstd::prelude::*;
use vstd::string::*;

verus! {

/// The outcome of a check that found `actual` where `expected` was to be: fine, or the
/// given message.
pub open spec fn verdict(result: Result<(), String>, fine: bool, message: Seq<char>) -> bool {
    match result {
        Ok(_) => fine,
        Err(found) => !fine && found@ == message,
    }
}

/// What is said of a slot in another state than expected.
pub open spec fn state_message(slot: u32, expected: u8, actual: u8) -> Seq<char> {
    "slot "@ + text::decimal(slot as nat) + ": expected state "@ + text::decimal(expected as nat)
        + ", got "@ + text::decimal(actual as nat)
}

/// What is said of a tail that is not as expected.
pub open spec fn tail_message(tail: Seq<char>, expected: u64, actual: u64) -> Seq<char> {
    tail + ": expected "@ + text::decimal(expected as nat) + ", got "@ + text::decimal(
        actual as nat,
    )
}

/// What is said of a wrong magic number.
pub open spec fn magic_message(actual: u64) -> Seq<char> {
    "invalid magic: expected 0x"@ + text::hex(MAGIC as nat, 16) + ", got 0x"@ + text::hex(
        actual as nat,
        16,
    )
}

/// Checks that record `slot` is in the expected state.
pub fn assert_record_state<B: MemoryBackend>(
    backend: &mut B,
    geometry: &PoolGeometry,
    slot: u32,
    expected_state: u8,
) -> (result: Result<(), String>)
    requires
        geometry.fits(old(backend).view().bytes.len()),
        slot < geometry.capacity,
    ensures
        final(backend).view().bytes.len() == old(backend).view().bytes.len(),
        final(backend).view().exclusive == old(backend).view().exclusive,
        final(backend).view().trace.last() matches Access::LoadU8 { offset, order, value } && {
            &&& offset == geometry.record_at(slot as int)
            &&& order == MemOrder::Acquire
            &&& verdict(
                result,
                value == expected_state,
                state_message(slot, expected_state, value),
            )
        },
        final(backend).view().trace == old(backend).view().trace.push(
            final(backend).view().trace.last(),
        ),
        old(backend).view().exclusive ==> {
            let actual = pool::state_of(*geometry, old(backend).view().bytes, slot as int);
            &&& final(backend).view().bytes == old(backend).view().bytes
            &&& verdict(
                result,
                actual == expected_state,
                state_message(slot, expected_state, actual),
            )
        },
{
    let at: usize = geometry.slot_offset(slot as u64);
    let actual: u8 = backend.load_u8(at + REC_STATE, MemOrder::Acquire);
    if actual == expected_state {
        return Ok(());
    }
    let mut message: String = String::new();
    message.append("slot ");
    text::push_decimal(&mut message, slot as u64);
    message.append(": expected state ");
    text::push_decimal(&mut message, expected_state as u64);
    message.append(", got ");
    text::push_decimal(&mut message, actual as u64);
    assert(message@ =~= state_message(slot, expected_state, actual));
    Err(message)
}

/// Checks a tail of the header.
fn check_tail<B: MemoryBackend>(backend: &mut B, offset: usize, name: &str, expected: u64) -> (result:
    Result<(), String>)
    requires
        offset % 8 == 0,
        offset + 8 <= old(backend).view().bytes.len(),
    ensures
        final(backend).view().bytes.len() == old(backend).view().bytes.len(),
        final(backend).view().exclusive == old(backend).view().exclusive,
        final(backend).view().trace.last() matches Access::LoadU64 { offset: at, order, value } && {
            &&& at == offset
            &&& order == MemOrder::Acquire
            &&& verdict(result, value == expected, tail_message(name@, expected, value))
        },
        final(backend).view().trace == old(backend).view().trace.push(
            final(backend).view().trace.last(),
        ),
        old(backend).view().exclusive ==> {
            let actual = mem::u64_at(old(backend).view().bytes, offset as int);
            &&& final(backend).view().bytes == old(backend).view().bytes
            &&& verdict(result, actual == expected, tail_message(name@, expected, actual))
        },
{
    let actual: u64 = backend.load_u64(offset, MemOrder::Acquire);
    if actual == expected {
        return Ok(());
    }
    let mut message: String = String::new();
    message.append(name);
    message.append(": expected ");
    text::push_decimal(&mut message, expected);
    message.append(", got ");
    text::push_decimal(&mut message, actual);
    assert(message@ =~= tail_message(name@, expected, actual));
    Err(message)
}

/// Checks that the committed tail has the expected value.
pub fn assert_committed_tail<B: MemoryBackend>(backend: &mut B, expected: u64) -> (result: Result<
    (),
    String,
>)
    requires
        old(backend).view().bytes.len() >= 64,
    ensures
        final(backend).view().bytes.len() == old(backend).view().bytes.len(),
        final(backend).view().exclusive == old(backend).view().exclusive,
        final(backend).view().trace.last() matches Access::LoadU64 { offset, order, value } && {
            &&& offset == HDR_COMMITTED_TAIL
            &&& order == MemOrder::Acquire
            &&& verdict(result, value == expected, tail_message("committed_tail"@, expected, value))
        },
        final(backend).view().trace == old(backend).view().trace.push(
            final(backend).view().trace.last(),
        ),
        old(backend).view().exclusive ==> {
            let actual = pool::committed_tail(old(backend).view().bytes);
            &&& final(backend).view().bytes == old(backend).view().bytes
            &&& verdict(
                result,
                actual == expected,
                tail_message("committed_tail"@, expected, actual),
            )
        },
{
    check_tail(backend, HDR_COMMITTED_TAIL, "committed_tail", expected)
}

/// Checks that the reserve tail has the expected value.
pub fn assert_reserve_tail<B: MemoryBackend>(backend: &mut B, expected: u64) -> (result: Result<
    (),
    String,
>)
    requires
        old(backend).view().bytes.len() >= 64,
    ensures
        final(backend).view().bytes.len() == old(backend).view().bytes.len(),
        final(backend).view().exclusive == old(backend).view().exclusive,
        final(backend).view().trace.last() matches Access::LoadU64 { offset, order, value } && {
            &&& offset == HDR_RESERVE_TAIL
            &&& order == MemOrder::Acquire
            &&& verdict(result, value == expected, tail_message("reserve_tail"@, expected, value))
        },
        final(backend).view().trace == old(backend).view().trace.push(
            final(backend).view().trace.last(),
        ),
        old(backend).view().exclusive ==> {
            let actual = pool::reserve_tail(old(backend).view().bytes);
            &&& final(backend).view().bytes == old(backend).view().bytes
            &&& verdict(
                result,
                actual == expected,
                tail_message("reserve_tail"@, expected, actual),
            )
        },
{
    check_tail(backend, HDR_RESERVE_TAIL, "reserve_tail", expected)
}

/// Checks that the header has the right magic number.
pub fn assert_valid_magic<B: MemoryBackend>(backend: &mut B) -> (result: Result<(), String>)
    requires
        old(backend).view().bytes.len() >= 64,
    ensures
        final(backend).view().bytes.len() == old(backend).view().bytes.len(),
        final(backend).view().exclusive == old(backend).view().exclusive,
        final(backend).view().trace.last() matches Access::LoadU64 { offset, order, value } && {
            &&& offset == HDR_MAGIC
            &&& order == MemOrder::Relaxed
            &&& verdict(result, value == MAGIC, magic_message(value))
        },
        final(backend).view().trace == old(backend).view().trace.push(
            final(backend).view().trace.last(),
        ),
        old(backend).view().exclusive ==> {
            let actual = mem::u64_at(old(backend).view().bytes, HDR_MAGIC as int);
            &&& final(backend).view().bytes == old(backend).view().bytes
            &&& verdict(result, actual == MAGIC, magic_message(actual))
        },
{
    let magic: u64 = backend.load_u64(HDR_MAGIC, MemOrder::Relaxed);
    if magic == MAGIC {
        return Ok(());
    }
    let mut message: String = String::new();
    message.append("invalid magic: expected 0x");
    text::push_hex(&mut message, MAGIC, 16);
    message.append(", got 0x");
    text::push_hex(&mut message, magic, 16);
    assert(message@ =~= magic_message(magic));
    Err(message)
}

/// The first of the first `count` slots, from `from` on, that is not committed.
pub open spec fn first_uncommitted(g: PoolGeometry, m: Seq<u8>, count: u32, from: u32) -> Option<u32>
    decreases count - from,
{
    if from >= count {
        None
    } else if pool::state_of(g, m, from as int) != STATE_COMMITTED {
        Some(from)
    } else {
        first_uncommitted(g, m, count, (from + 1) as u32)
    }
}

/// The loads of the states of the first `n` slots that found them committed.
pub open spec fn committed_loads(g: PoolGeometry, n: int) -> Seq<Access> {
    Seq::new(
        n as nat,
        |s: int|
            Access::LoadU8 {
                offset: g.record_at(s),
                order: MemOrder::Acquire,
                value: STATE_COMMITTED,
            },
    )
}

/// Checks that the first `count` records are committed.
pub fn assert_committed_range<B: MemoryBackend>(
    backend: &mut B,
    geometry: &PoolGeometry,
    count: u32,
) -> (result: Result<(), String>)
    requires
        geometry.fits(old(backend).view().bytes.len()),
        count <= geometry.capacity,
    ensures
        final(backend).view().bytes.len() == old(backend).view().bytes.len(),
        final(backend).view().exclusive == old(backend).view().exclusive,
        match result {
            Ok(_) => final(backend).view().trace == old(backend).view().trace + committed_loads(
                *geometry,
                count as int,
            ),
            Err(message) => exists|slot: u32, value: u8|
                {
                    &&& slot < count
                    &&& value != STATE_COMMITTED
                    &&& final(backend).view().trace == (old(backend).view().trace
                        + committed_loads(*geometry, slot as int)).push(
                        Access::LoadU8 {
                            offset: geometry.record_at(slot as int),
                            order: MemOrder::Acquire,
                            value,
                        },
                    )
                    &&& message@ == #[trigger] state_message(slot, STATE_COMMITTED, value)
                },
        },
        old(backend).view().exclusive ==> {
            let m = old(backend).view().bytes;
            let first = first_uncommitted(*geometry, m, count, 0);
            &&& final(backend).view().bytes == m
            &&& match first {
                None => result is Ok,
                Some(slot) => verdict(
                    result,
                    false,
                    state_message(
                        slot,
                        STATE_COMMITTED,
                        pool::state_of(*geometry, m, slot as int),
                    ),
                ),
            }
        },
{
    let ghost v0 = backend.view();
    let ghost g = *geometry;
    let mut slot: u32 = 0;
    assert(v0.trace + committed_loads(g, 0) =~= v0.trace);
    while slot < count
        invariant
            g == *geometry,
            v0 == old(backend).view(),
            backend.view().trace == v0.trace + committed_loads(g, slot as int),
            g.fits(backend.view().bytes.len()),
            slot <= count <= g.capacity,
            backend.view().bytes.len() == v0.bytes.len(),
            backend.view().exclusive == v0.exclusive,
            v0.exclusive ==> backend.view().bytes == v0.bytes && first_uncommitted(
                g,
                v0.bytes,
                count,
                0,
            ) == first_uncommitted(g, v0.bytes, count, slot),
        decreases count - slot,
    {
        let checked: Result<(), String> = assert_record_state(
            backend,
            geometry,
            slot,
            STATE_COMMITTED,
        );
        if checked.is_err() {
            return checked;
        }
        assert(backend.view().trace =~= v0.trace + committed_loads(g, slot + 1));
        slot = slot + 1;
    }
    Ok(())
}

/// The first slot that is not committed: all before it are, and there is none exactly if all
/// are.
pub proof fn law_first_uncommitted(g: PoolGeometry, m: Seq<u8>, count: u32, from: u32)
    ensures
        match first_uncommitted(g, m, count, from) {
            Some(slot) => {
                &&& from <= slot < count
                &&& pool::state_of(g, m, slot as int) != STATE_COMMITTED
                &&& forall|s: int|
                    from <= s < slot ==> #[trigger] pool::state_of(g, m, s) == STATE_COMMITTED
            },
            None => forall|s: int|
                from <= s < count ==> #[trigger] pool::state_of(g, m, s) == STATE_COMMITTED,
        },
    decreases count - from,
{
    if from < count && pool::state_of(g, m, from as int) == STATE_COMMITTED {
        law_first_uncommitted(g, m, count, (from + 1) as u32);
    }
}

/// A check succeeds exactly if what it checks is as expected.
pub proof fn law_verdict(result: Result<(), String>, fine: bool, message: Seq<char>)
    requires
        verdict(result, fine, message),
    ensures
        result is Ok <==> fine,
        result matches Err(found) ==> found@ == message,
{
}

} // verus!

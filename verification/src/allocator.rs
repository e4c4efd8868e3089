//! The region allocator: named regions in a shared-memory pool.
//!
//! Regions are placed one after the other behind the catalog: a new region goes after the
//! highest one in use. The space of freed regions is not reused; their catalog entries are.
//!
//! An allocator expects to be the only one at work on its catalog. A crash at any moment
//! leaves a catalog that [`RegionAllocator::recover`] puts in order.
use crate::backend::{Access, MemOrder, MemoryBackend, MemoryView};
use crate::catalog;
use crate::catalog::{
    CatalogEntry, EntryView, Glimpse, RegionState, ALLOC_MAGIC, CATALOG_ENTRY_SIZE, CATALOG_HEADER_SIZE,
    CATALOG_SIZE, CAT_HDR_DATA_START, CAT_HDR_MAGIC, CAT_HDR_REGION_COUNT, CAT_HDR_TOTAL_SIZE,
    ENT_STATE, MAX_NAME_LEN, MAX_REGIONS,
};
use crate::error::FenceError;
use crate::memory as mem;
use crate::region::{RegionHandle, RegionView};
use crate::text;
use vstd::bytes::*;
use vstd::prelude::*;
use vstd::string::*;
use vstd::utf8::*;

verus! {

/// Errors of the allocator.
#[derive(Debug, Clone, PartialEq, Eq)]
#[non_exhaustive]
pub enum AllocError {
    /// No catalog entry is free.
    CatalogFull,
    /// A region of this name exists.
    NameExists { name: String },
    /// Not enough space behind the highest region.
    OutOfSpace { requested: u64, available: u64 },
    /// No region of this name exists.
    NotFound { name: String },
    /// The allocator's state or arguments are invalid.
    InvalidState { detail: String },
    /// The backend failed.
    Backend(FenceError),
}

/// An error of the allocator, as it stands in contracts.
pub enum AllocFailure {
    CatalogFull,
    NameExists { name: Seq<char> },
    OutOfSpace { requested: u64, available: u64 },
    NotFound { name: Seq<char> },
    InvalidState { detail: Seq<char> },
    Backend(FenceError),
}

impl View for AllocError {
    type V = AllocFailure;

    open spec fn view(&self) -> AllocFailure {
        match *self {
            AllocError::CatalogFull => AllocFailure::CatalogFull,
            AllocError::NameExists { name } => AllocFailure::NameExists { name: name@ },
            AllocError::OutOfSpace { requested, available } => AllocFailure::OutOfSpace {
                requested,
                available,
            },
            AllocError::NotFound { name } => AllocFailure::NotFound { name: name@ },
            AllocError::InvalidState { detail } => AllocFailure::InvalidState { detail: detail@ },
            AllocError::Backend(error) => AllocFailure::Backend(error),
        }
    }
}

impl AllocError {
    /// The message that describes the error.
    pub open spec fn message(self) -> Seq<char> {
        match self {
            AllocError::CatalogFull => "catalog full: max "@ + text::decimal(MAX_REGIONS as nat)
                + " regions"@,
            AllocError::NameExists { name } => "region '"@ + name@ + "' already exists"@,
            AllocError::OutOfSpace { requested, available } => "out of space: requested "@
                + text::decimal(requested as nat) + ", available "@ + text::decimal(
                available as nat,
            ),
            AllocError::NotFound { name } => "region '"@ + name@ + "' not found"@,
            AllocError::InvalidState { detail } => "invalid allocator state: "@ + detail@,
            AllocError::Backend(error) => "backend error: "@ + error.message(),
        }
    }

    /// Renders the error for display.
    pub fn to_string(&self) -> (s: String)
        ensures
            s@ == self.message(),
    {
        let mut s: String = String::new();
        match self {
            AllocError::CatalogFull => {
                s.append("catalog full: max ");
                text::push_decimal(&mut s, MAX_REGIONS as u64);
                s.append(" regions");
            },
            AllocError::NameExists { name } => {
                s.append("region '");
                s.append(name.as_str());
                s.append("' already exists");
            },
            AllocError::OutOfSpace { requested, available } => {
                s.append("out of space: requested ");
                text::push_decimal(&mut s, *requested);
                s.append(", available ");
                text::push_decimal(&mut s, *available);
            },
            AllocError::NotFound { name } => {
                s.append("region '");
                s.append(name.as_str());
                s.append("' not found");
            },
            AllocError::InvalidState { detail } => {
                s.append("invalid allocator state: ");
                s.append(detail.as_str());
            },
            AllocError::Backend(error) => {
                s.append("backend error: ");
                let message: String = error.to_string();
                s.append(message.as_str());
            },
        }
        assert(s@ =~= self.message());
        s
    }
}

impl From<FenceError> for AllocError {
    fn from(e: FenceError) -> (error: Self) {
        AllocError::Backend(e)
    }
}

impl vstd::std_specs::convert::FromSpecImpl<FenceError> for AllocError {
    open spec fn obeys_from_spec() -> bool {
        true
    }

    open spec fn from_spec(e: FenceError) -> Self {
        AllocError::Backend(e)
    }
}

/// What an operation of the allocator returned, with its error as it stands in contracts.
pub open spec fn failure<T>(result: Result<T, AllocError>) -> Option<AllocFailure> {
    match result {
        Ok(_) => None,
        Err(error) => Some(error@),
    }
}

/// What an allocation returned, as it stands in contracts.
pub open spec fn outcome(result: Result<RegionHandle, AllocError>) -> Result<
    RegionView,
    AllocFailure,
> {
    match result {
        Ok(handle) => Ok(handle@),
        Err(error) => Err(error@),
    }
}

/// The region that a lookup found.
pub open spec fn found(result: Result<RegionHandle, AllocError>) -> Option<RegionView> {
    match result {
        Ok(handle) => Some(handle@),
        Err(_) => None,
    }
}

/// The region that an entry describes.
pub open spec fn region_of(base: int, m: Seq<u8>, slot: int) -> RegionView {
    let e = catalog::entry_of(base, m, slot);
    RegionView { slot, name: e.name, offset: e.offset, size: e.size }
}

/// Entry `slot` describes a region in use.
pub open spec fn active(base: int, m: Seq<u8>, slot: int) -> bool {
    catalog::entry_of(base, m, slot).state == RegionState::Active
}

/// The regions in use among the first `n` entries, in order.
pub open spec fn regions(base: int, m: Seq<u8>, n: int) -> Seq<RegionView>
    decreases n,
{
    if n <= 0 {
        Seq::empty()
    } else if active(base, m, n - 1) {
        regions(base, m, n - 1).push(region_of(base, m, n - 1))
    } else {
        regions(base, m, n - 1)
    }
}

/// The first region in use, from entry `from` on, that has the given name.
pub open spec fn region_named(base: int, m: Seq<u8>, name: Seq<char>, from: int) -> Option<
    RegionView,
>
    decreases MAX_REGIONS - from,
{
    if from >= MAX_REGIONS {
        None
    } else if active(base, m, from) && catalog::entry_of(base, m, from).name == name {
        Some(region_of(base, m, from))
    } else {
        region_named(base, m, name, from + 1)
    }
}

/// The first free entry from `from` on.
pub open spec fn free_slot(base: int, m: Seq<u8>, from: int) -> Option<int>
    decreases MAX_REGIONS - from,
{
    if from >= MAX_REGIONS {
        None
    } else if catalog::entry_of(base, m, from).state == RegionState::Free {
        Some(from)
    } else {
        free_slot(base, m, from + 1)
    }
}

/// The space of entry `slot` is taken: its region is in use or being allocated.
pub open spec fn takes_space(base: int, m: Seq<u8>, slot: int) -> bool {
    let state = catalog::entry_of(base, m, slot).state;
    state == RegionState::Active || state == RegionState::Allocating
}

/// Where the highest of the regions of the first `n` entries ends; `start` without any.
pub open spec fn highest_end(base: int, m: Seq<u8>, n: int, start: int) -> int
    decreases n,
{
    if n <= 0 {
        start
    } else {
        let below = highest_end(base, m, n - 1, start);
        let e = catalog::entry_of(base, m, n - 1);
        if takes_space(base, m, n - 1) && e.offset + e.size > below {
            e.offset + e.size
        } else {
            below
        }
    }
}

/// The next multiple of 64 from `n` on.
pub open spec fn rounded_up(n: int) -> int {
    (n + 63) / 64 * 64
}

/// Where the catalog says that region data starts.
pub open spec fn data_start(base: int, m: Seq<u8>) -> u64 {
    mem::u64_at(m, base + CAT_HDR_DATA_START)
}

/// The number of regions that the catalog states.
pub open spec fn region_count(base: int, m: Seq<u8>) -> u64 {
    mem::u64_at(m, base + CAT_HDR_REGION_COUNT)
}

/// Where the next region goes.
pub open spec fn next_offset(base: int, m: Seq<u8>) -> int {
    rounded_up(highest_end(base, m, MAX_REGIONS as int, data_start(base, m) as int))
}

/// The region that an allocation makes, or why it fails.
pub open spec fn create_result(
    base: int,
    pool_size: int,
    m: Seq<u8>,
    name: Seq<char>,
    size: u64,
) -> Result<RegionView, AllocFailure> {
    let end = base + pool_size;
    let offset = next_offset(base, m);
    if encode_utf8(name).len() > MAX_NAME_LEN {
        Err(AllocFailure::InvalidState { detail: "name too long: max 24 bytes"@ })
    } else if region_named(base, m, name, 0) is Some {
        Err(AllocFailure::NameExists { name })
    } else if free_slot(base, m, 0) is None {
        Err(AllocFailure::CatalogFull)
    } else if offset + size > end {
        Err(
            AllocFailure::OutOfSpace { requested: size, available: room(offset, end) },
        )
    } else {
        Ok(RegionView { slot: free_slot(base, m, 0)->0, name, offset: offset as u64, size })
    }
}

/// The entry of a region in the given state.
pub open spec fn entry_for(r: RegionView, state: RegionState) -> EntryView {
    EntryView { state, name: r.name, offset: r.offset, size: r.size, created_epoch: 0 }
}

/// The access that sets the state of entry `slot`.
pub open spec fn set_state(base: int, slot: int, state: RegionState) -> Access {
    Access::StoreU8 {
        offset: catalog::entry_at(base, slot) + ENT_STATE,
        order: MemOrder::Release,
        value: state.code(),
    }
}

/// The access that flushes entry `slot`.
pub open spec fn flush_entry(base: int, slot: int) -> Access {
    Access::Flush { offset: catalog::entry_at(base, slot), len: 64 }
}

/// The access that sets the region count.
pub open spec fn set_count(base: int, count: u64) -> Access {
    Access::StoreU64 {
        offset: base + CAT_HDR_REGION_COUNT,
        order: MemOrder::Relaxed,
        value: count,
    }
}

/// The access that flushes the catalog header.
pub open spec fn flush_header(base: int) -> Access {
    Access::Flush { offset: base, len: 64 }
}

/// What an allocation does to the pool, in order: the entry as being allocated, then in
/// use, then the count.
pub open spec fn create_script(base: int, r: RegionView, count: u64) -> Seq<Access> {
    catalog::entry_accesses(base, r.slot, entry_for(r, RegionState::Allocating)).push(
        set_state(base, r.slot, RegionState::Active),
    ).push(flush_entry(base, r.slot)).push(set_count(base, count)).push(flush_header(base))
}

/// What a free does to the pool, in order: the entry as being freed, then free, then the
/// count (unless it was zero).
pub open spec fn free_script(base: int, slot: int, count: u64) -> Seq<Access> {
    let states = seq![
        set_state(base, slot, RegionState::Freeing),
        flush_entry(base, slot),
        set_state(base, slot, RegionState::Free),
        flush_entry(base, slot),
    ];
    if count > 0 {
        states.push(set_count(base, (count - 1) as u64)).push(flush_header(base))
    } else {
        states
    }
}

/// The pool after a region was allocated.
pub open spec fn created(base: int, m: Seq<u8>, r: RegionView) -> Seq<u8> {
    let entered = catalog::with_entry(base, m, r.slot, entry_for(r, RegionState::Active));
    mem::put_u64(
        entered,
        base + CAT_HDR_REGION_COUNT,
        mem::wrapped_sum(region_count(base, m), 1),
    )
}

/// The pool after the region of entry `slot` was freed.
pub open spec fn freed(base: int, m: Seq<u8>, slot: int) -> Seq<u8> {
    let m1 = mem::put_u8(m, catalog::entry_at(base, slot), RegionState::Free.code());
    if region_count(base, m) > 0 {
        mem::put_u64(m1, base + CAT_HDR_REGION_COUNT, (region_count(base, m) - 1) as u64)
    } else {
        m1
    }
}

/// Entry `slot` is in between two states.
pub open spec fn unsettled(base: int, m: Seq<u8>, slot: int) -> bool {
    let state = catalog::entry_of(base, m, slot).state;
    state == RegionState::Allocating || state == RegionState::Freeing
}

/// The pool with the entries below `n` that were in between two states made free.
pub open spec fn mended(base: int, m: Seq<u8>, n: int) -> Seq<u8>
    decreases n,
{
    if n <= 0 {
        m
    } else if unsettled(base, m, n - 1) {
        mem::put_u8(
            mended(base, m, n - 1),
            catalog::entry_at(base, n - 1),
            RegionState::Free.code(),
        )
    } else {
        mended(base, m, n - 1)
    }
}

/// How many of the entries below `n` are in between two states.
pub open spec fn unsettled_count(base: int, m: Seq<u8>, n: int) -> nat
    decreases n,
{
    if n <= 0 {
        0
    } else {
        unsettled_count(base, m, n - 1) + (if unsettled(base, m, n - 1) {
            1nat
        } else {
            0nat
        })
    }
}

/// Entries of regions in use that have the given name.
pub open spec fn is_named(name: Seq<char>) -> spec_fn(EntryView) -> bool {
    |e: EntryView| e.state == RegionState::Active && e.name == name
}

/// Entries that are free.
pub open spec fn is_free() -> spec_fn(EntryView) -> bool {
    |e: EntryView| e.state == RegionState::Free
}

/// The entries were loaded in turn, up to and including the first that is `wanted`; all of
/// them, if none is.
pub open spec fn searched(seen: Seq<Glimpse>, wanted: spec_fn(EntryView) -> bool) -> bool {
    &&& seen.len() <= MAX_REGIONS
    &&& forall|i: int| 0 <= i < seen.len() ==> (#[trigger] seen[i]).wf()
    &&& forall|i: int| 0 <= i < seen.len() - 1 ==> !wanted((#[trigger] seen[i]).entry())
    &&& seen.len() < MAX_REGIONS ==> seen.len() > 0 && wanted(seen.last().entry())
}

/// The entry that a search came upon.
pub open spec fn hit(seen: Seq<Glimpse>, wanted: spec_fn(EntryView) -> bool) -> Option<int> {
    if seen.len() > 0 && wanted(seen.last().entry()) {
        Some(seen.len() - 1)
    } else {
        None
    }
}

/// All entries were loaded in turn.
pub open spec fn scanned(seen: Seq<Glimpse>) -> bool {
    &&& seen.len() == MAX_REGIONS
    &&& forall|i: int| 0 <= i < seen.len() ==> (#[trigger] seen[i]).wf()
}

/// The region that entry `slot` was seen to describe.
pub open spec fn seen_region(seen: Seq<Glimpse>, slot: int) -> RegionView {
    let e = seen[slot].entry();
    RegionView { slot, name: e.name, offset: e.offset, size: e.size }
}

/// The regions that were seen to be in use, in order.
pub open spec fn seen_regions(seen: Seq<Glimpse>) -> Seq<RegionView>
    decreases seen.len(),
{
    if seen.len() == 0 {
        Seq::empty()
    } else if seen.last().entry().state == RegionState::Active {
        seen_regions(seen.drop_last()).push(seen_region(seen, seen.len() - 1))
    } else {
        seen_regions(seen.drop_last())
    }
}

/// Where the highest of the regions that were seen ends; `start` without any.
pub open spec fn seen_end(seen: Seq<Glimpse>, start: int) -> int
    decreases seen.len(),
{
    if seen.len() == 0 {
        start
    } else {
        let below = seen_end(seen.drop_last(), start);
        let e = seen.last().entry();
        if (e.state == RegionState::Active || e.state == RegionState::Allocating) && e.offset
            + e.size > below {
            e.offset + e.size
        } else {
            below
        }
    }
}

/// Entries that are in between two states.
pub open spec fn is_unsettled(e: EntryView) -> bool {
    e.state == RegionState::Allocating || e.state == RegionState::Freeing
}

/// How many entries were seen in between two states.
pub open spec fn seen_unsettled(seen: Seq<Glimpse>) -> nat
    decreases seen.len(),
{
    if seen.len() == 0 {
        0
    } else {
        seen_unsettled(seen.drop_last()) + (if is_unsettled(seen.last().entry()) {
            1nat
        } else {
            0nat
        })
    }
}

/// The access that loads the region count.
pub open spec fn load_count(base: int, count: u64) -> Access {
    Access::LoadU64 { offset: base + CAT_HDR_REGION_COUNT, order: MemOrder::Relaxed, value: count }
}

/// The access that loads where region data starts.
pub open spec fn load_start(base: int, start: u64) -> Access {
    Access::LoadU64 { offset: base + CAT_HDR_DATA_START, order: MemOrder::Relaxed, value: start }
}

/// From the trace `before` to `after`, a region was looked up by name: `found` is the first
/// that was seen in use under this name.
pub open spec fn looks_up(
    base: int,
    name: Seq<char>,
    before: Seq<Access>,
    after: Seq<Access>,
    found: Option<RegionView>,
) -> bool {
    exists|seen: Seq<Glimpse>|
        {
            &&& #[trigger] searched(seen, is_named(name))
            &&& after == before + catalog::scan_loads(base, seen)
            &&& found == (match hit(seen, is_named(name)) {
                Some(slot) => Some(seen_region(seen, slot)),
                None => None,
            })
        }
}

/// From the trace `before` to `after`, all entries were loaded, and `list` are the regions
/// that were seen in use.
pub open spec fn lists(
    base: int,
    before: Seq<Access>,
    after: Seq<Access>,
    list: Seq<RegionView>,
) -> bool {
    exists|seen: Seq<Glimpse>|
        #[trigger] scanned(seen) && after == before + catalog::scan_loads(base, seen) && list
            == seen_regions(seen)
}

/// From the trace `before` to `after`, a free entry was looked for: `slot` is the first that
/// was seen.
pub open spec fn looks_for_room(
    base: int,
    before: Seq<Access>,
    after: Seq<Access>,
    slot: Option<int>,
) -> bool {
    exists|seen: Seq<Glimpse>|
        #[trigger] searched(seen, is_free()) && after == before + catalog::scan_loads(base, seen)
            && slot == hit(seen, is_free())
}

/// From the trace `before` to `after`, all entries were loaded, and `offset` is the next
/// multiple of 64 behind all regions that were seen and behind `start`.
pub open spec fn places(
    base: int,
    start: u64,
    before: Seq<Access>,
    after: Seq<Access>,
    offset: int,
) -> bool {
    exists|seen: Seq<Glimpse>|
        #[trigger] scanned(seen) && after == before + catalog::scan_loads(base, seen) && offset
            == rounded_up(seen_end(seen, start as int))
}

/// The accesses that enter a region and count it; `count` is what was loaded as the count.
pub open spec fn enter_accesses(base: int, r: RegionView, count: u64) -> Seq<Access> {
    catalog::entry_accesses(base, r.slot, entry_for(r, RegionState::Allocating)).push(
        set_state(base, r.slot, RegionState::Active),
    ).push(flush_entry(base, r.slot)).push(load_count(base, count)).push(
        set_count(base, mem::wrapped_sum(count, 1)),
    ).push(flush_header(base))
}

/// From the trace `before` to `after`, an allocation was made or refused, and `result` is
/// what came of it.
///
/// The name is looked up; then a free entry is looked for; then the start of the data and all
/// entries are loaded to place the region. Where one of these refuses, nothing follows.
pub open spec fn allocates(
    base: int,
    pool_size: int,
    name: Seq<char>,
    size: u64,
    before: Seq<Access>,
    after: Seq<Access>,
    result: Result<RegionView, AllocFailure>,
) -> bool {
    if encode_utf8(name).len() > MAX_NAME_LEN {
        &&& after == before
        &&& result == Err::<RegionView, AllocFailure>(
            AllocFailure::InvalidState { detail: "name too long: max 24 bytes"@ },
        )
    } else {
        exists|found: Option<RegionView>, mid: Seq<Access>|
            {
                &&& #[trigger] looks_up(base, name, before, mid, found)
                &&& match found {
                    Some(_) => after == mid && result == Err::<RegionView, AllocFailure>(
                        AllocFailure::NameExists { name },
                    ),
                    None => allocates_new(base, pool_size, name, size, mid, after, result),
                }
            }
    }
}

/// The part of [`allocates`] that follows on the name not being found.
pub open spec fn allocates_new(
    base: int,
    pool_size: int,
    name: Seq<char>,
    size: u64,
    before: Seq<Access>,
    after: Seq<Access>,
    result: Result<RegionView, AllocFailure>,
) -> bool {
    exists|slot: Option<int>, mid: Seq<Access>|
        {
            &&& #[trigger] looks_for_room(base, before, mid, slot)
            &&& match slot {
                Some(slot) => allocates_at(base, pool_size, slot, name, size, mid, after, result),
                None => after == mid && result == Err::<RegionView, AllocFailure>(
                    AllocFailure::CatalogFull,
                ),
            }
        }
}

/// The part of [`allocates`] that follows on entry `slot` being free.
pub open spec fn allocates_at(
    base: int,
    pool_size: int,
    slot: int,
    name: Seq<char>,
    size: u64,
    before: Seq<Access>,
    after: Seq<Access>,
    result: Result<RegionView, AllocFailure>,
) -> bool {
    let end = base + pool_size;
    exists|start: u64, offset: int, mid: Seq<Access>|
        {
            &&& #[trigger] places(base, start, before.push(load_start(base, start)), mid, offset)
            &&& if offset + size > end {
                &&& after == mid
                &&& result == Err::<RegionView, AllocFailure>(
                    AllocFailure::OutOfSpace { requested: size, available: room(offset, end) },
                )
            } else {
                let r = RegionView { slot, name, offset: offset as u64, size };
                &&& result == Ok::<RegionView, AllocFailure>(r)
                &&& exists|count: u64| after == mid + #[trigger] enter_accesses(base, r, count)
            }
        }
}

/// The bytes from `offset` up to `end`.
pub open spec fn room(offset: int, end: int) -> u64 {
    if offset <= end {
        (end - offset) as u64
    } else {
        0
    }
}

/// The accesses that free the region of entry `slot` and count that; `count` is what was
/// loaded as the count.
pub open spec fn release_accesses(base: int, slot: int, count: u64) -> Seq<Access> {
    let states = seq![
        set_state(base, slot, RegionState::Freeing),
        flush_entry(base, slot),
        set_state(base, slot, RegionState::Free),
        flush_entry(base, slot),
        load_count(base, count),
    ];
    if count > 0 {
        states.push(set_count(base, (count - 1) as u64)).push(flush_header(base))
    } else {
        states
    }
}

/// From the trace `before` to `after`, the first region that was seen in use under this name
/// was freed; nothing, if `freed` is false, because none was seen.
pub open spec fn frees(
    base: int,
    name: Seq<char>,
    before: Seq<Access>,
    after: Seq<Access>,
    freed: bool,
) -> bool {
    exists|found: Option<RegionView>, mid: Seq<Access>|
        {
            &&& #[trigger] looks_up(base, name, before, mid, found)
            &&& freed == (found is Some)
            &&& match found {
                Some(r) => exists|count: u64|
                    after == mid + #[trigger] release_accesses(base, r.slot, count),
                None => after == mid,
            }
        }
}

/// The accesses that put the first entries in order, in turn: each is loaded, and made free
/// if it was seen in between two states.
pub open spec fn mend_accesses(base: int, seen: Seq<Glimpse>) -> Seq<Access>
    decreases seen.len(),
{
    if seen.len() == 0 {
        Seq::empty()
    } else {
        let slot = seen.len() - 1;
        let looked = mend_accesses(base, seen.drop_last()) + catalog::entry_loads(
            base,
            slot,
            seen.last(),
        );
        if is_unsettled(seen.last().entry()) {
            looked.push(set_state(base, slot, RegionState::Free)).push(flush_entry(base, slot))
        } else {
            looked
        }
    }
}

/// From the trace `before` to `after`, the catalog was put in order, and `fixed` entries were
/// seen in between two states.
pub open spec fn mends(base: int, before: Seq<Access>, after: Seq<Access>, fixed: nat) -> bool {
    exists|seen: Seq<Glimpse>|
        #[trigger] scanned(seen) && after == before + mend_accesses(base, seen) && fixed
            == seen_unsettled(seen)
}

/// The bytes of an empty entry.
pub open spec fn empty_entry() -> Seq<u8> {
    Seq::new(64, |i: int| 0u8)
}

/// The pool with the first `n` entries emptied.
pub open spec fn emptied(base: int, m: Seq<u8>, n: int) -> Seq<u8>
    decreases n,
{
    if n <= 0 {
        m
    } else {
        mem::put(emptied(base, m, n - 1), catalog::entry_at(base, n - 1), empty_entry())
    }
}

/// The pool with a fresh catalog.
pub open spec fn initialized(base: int, pool_size: int, m: Seq<u8>) -> Seq<u8> {
    let m = mem::put_u64(m, base + CAT_HDR_MAGIC, ALLOC_MAGIC);
    let m = mem::put_u64(m, base + CAT_HDR_REGION_COUNT, 0);
    let m = mem::put_u64(m, base + CAT_HDR_TOTAL_SIZE, pool_size as u64);
    let m = mem::put_u64(m, base + CAT_HDR_DATA_START, (base + CATALOG_SIZE) as u64);
    emptied(base, m, MAX_REGIONS as int)
}

/// What initialization does to the pool, up to the entry before `n`.
pub open spec fn init_script(base: int, pool_size: int, n: int) -> Seq<Access>
    decreases n,
{
    let order = MemOrder::Relaxed;
    if n <= 0 {
        seq![
            Access::StoreU64 { offset: base + CAT_HDR_MAGIC, order, value: ALLOC_MAGIC },
            Access::StoreU64 { offset: base + CAT_HDR_REGION_COUNT, order, value: 0 },
            Access::StoreU64 {
                offset: base + CAT_HDR_TOTAL_SIZE,
                order,
                value: pool_size as u64,
            },
            Access::StoreU64 {
                offset: base + CAT_HDR_DATA_START,
                order,
                value: (base + CATALOG_SIZE) as u64,
            },
            flush_header(base),
        ]
    } else {
        init_script(base, pool_size, n - 1).push(
            Access::Write { offset: catalog::entry_at(base, n - 1), bytes: empty_entry() },
        )
    }
}

/// Writes a fresh catalog at `base`: the header, and all entries zeroed.
///
/// Fails with `OutOfSpace`, and touches nothing, if the catalog does not fit into `pool_size`
/// bytes.
pub fn write_catalog<B: MemoryBackend>(backend: &mut B, base: usize, pool_size: usize) -> (result:
    Result<(), AllocError>)
    requires
        base % 8 == 0,
        base + pool_size <= old(backend).view().bytes.len() <= usize::MAX,
    ensures
        final(backend).view().bytes.len() == old(backend).view().bytes.len(),
        final(backend).view().exclusive == old(backend).view().exclusive,
        pool_size < CATALOG_SIZE ==> {
            &&& failure(result) == Some(
                AllocFailure::OutOfSpace {
                    requested: CATALOG_SIZE as u64,
                    available: pool_size as u64,
                },
            )
            &&& final(backend).view() == old(backend).view()
        },
        pool_size >= CATALOG_SIZE ==> {
            &&& result is Ok
            &&& final(backend).view().trace == old(backend).view().trace + init_script(
                base as int,
                pool_size as int,
                MAX_REGIONS as int,
            ).push(Access::Flush { offset: base + 64, len: 16384 })
            &&& old(backend).view().exclusive ==> final(backend).view().bytes == initialized(
                base as int,
                pool_size as int,
                old(backend).view().bytes,
            )
        },
{
    if pool_size < CATALOG_SIZE {
        return Err(
            AllocError::OutOfSpace {
                requested: CATALOG_SIZE as u64,
                available: pool_size as u64,
            },
        );
    }
    let ghost v0 = backend.view();
    let data_start: usize = base + CATALOG_SIZE;
    backend.store_u64(base + CAT_HDR_MAGIC, ALLOC_MAGIC, MemOrder::Relaxed);
    backend.store_u64(base + CAT_HDR_REGION_COUNT, 0, MemOrder::Relaxed);
    backend.store_u64(base + CAT_HDR_TOTAL_SIZE, pool_size as u64, MemOrder::Relaxed);
    backend.store_u64(base + CAT_HDR_DATA_START, data_start as u64, MemOrder::Relaxed);
    backend.flush(base, CATALOG_HEADER_SIZE);
    let ghost v1 = backend.view();
    assert(v1.trace =~= v0.trace + init_script(base as int, pool_size as int, 0));
    let zeros: [u8; 64] = [0u8; 64];
    assert(zeros@ =~= empty_entry());
    let mut i: usize = 0;
    while i < MAX_REGIONS
        invariant
            i <= MAX_REGIONS,
            zeros@ == empty_entry(),
            v1.exclusive == v0.exclusive,
            catalog::catalog_fits(base as int, backend.view().bytes.len()),
            backend.view().bytes.len() == v0.bytes.len(),
            backend.view().exclusive == v0.exclusive,
            backend.view().trace == v0.trace + init_script(
                base as int,
                pool_size as int,
                i as int,
            ),
            v0.exclusive ==> backend.view().bytes == emptied(base as int, v1.bytes, i as int),
        decreases MAX_REGIONS - i,
    {
        let at: usize = catalog::entry_offset(base, i);
        backend.write(at, zeros.as_slice());
        assert(backend.view().trace =~= v0.trace + init_script(
            base as int,
            pool_size as int,
            i + 1,
        ));
        i = i + 1;
    }
    let entries: usize = MAX_REGIONS * CATALOG_ENTRY_SIZE;
    backend.flush(base + CATALOG_HEADER_SIZE, entries);
    assert(backend.view().trace =~= v0.trace + init_script(
        base as int,
        pool_size as int,
        MAX_REGIONS as int,
    ).push(Access::Flush { offset: base + 64, len: 16384 }));
    Ok(())
}

/// The allocator: a backend and the catalog that lies at `base`.
pub struct RegionAllocator<B: MemoryBackend> {
    backend: B,
    base: usize,
    pool_size: usize,
}

impl<B: MemoryBackend> RegionAllocator<B> {
    /// The pool, as seen through the backend.
    pub closed spec fn pool(&self) -> MemoryView {
        self.backend.view()
    }

    /// Where the catalog starts.
    pub closed spec fn start(&self) -> int {
        self.base as int
    }

    /// The number of bytes managed, from the start of the catalog on.
    pub closed spec fn managed(&self) -> int {
        self.pool_size as int
    }

    /// The catalog lies within the memory.
    pub open spec fn inv(&self) -> bool {
        &&& catalog::catalog_fits(self.start(), self.pool().bytes.len())
        &&& 0 <= self.managed()
        &&& self.start() + self.managed() <= usize::MAX
    }

    /// `self` is the same allocator as `before`, possibly after some operations.
    pub open spec fn follows(&self, before: &Self) -> bool {
        &&& self.inv()
        &&& self.start() == before.start()
        &&& self.managed() == before.managed()
        &&& self.pool().bytes.len() == before.pool().bytes.len()
        &&& self.pool().exclusive == before.pool().exclusive
    }

    /// Initializes a fresh allocator at `base`: writes the catalog header and zeros all
    /// entries.
    ///
    /// Fails with `OutOfSpace` if the catalog does not fit into `pool_size` bytes.
    pub fn init(backend: B, base: usize, pool_size: usize) -> (result: Result<Self, AllocError>)
        requires
            base % 8 == 0,
            base + pool_size <= backend.view().bytes.len() <= usize::MAX,
        ensures
            pool_size < CATALOG_SIZE ==> failure(result) == Some(
                AllocFailure::OutOfSpace {
                    requested: CATALOG_SIZE as u64,
                    available: pool_size as u64,
                },
            ),
            pool_size >= CATALOG_SIZE ==> {
                &&& result matches Ok(allocator)
                &&& allocator.inv()
                &&& allocator.start() == base
                &&& allocator.managed() == pool_size
                &&& allocator.pool().bytes.len() == backend.view().bytes.len()
                &&& allocator.pool().exclusive == backend.view().exclusive
                &&& allocator.pool().trace == backend.view().trace + init_script(
                    base as int,
                    pool_size as int,
                    MAX_REGIONS as int,
                ).push(Access::Flush { offset: base + 64, len: 16384 })
                &&& backend.view().exclusive ==> allocator.pool().bytes == initialized(
                    base as int,
                    pool_size as int,
                    backend.view().bytes,
                )
            },
    {
        let mut backend = backend;
        match write_catalog(&mut backend, base, pool_size) {
            Ok(_) => Ok(RegionAllocator { backend, base, pool_size }),
            Err(error) => Err(error),
        }
    }

    /// Opens an existing allocator.
    ///
    /// Fails with `InvalidState` if the magic number is wrong.
    pub fn open(backend: B, base: usize, pool_size: usize) -> (result: Result<Self, AllocError>)
        requires
            catalog::catalog_fits(base as int, backend.view().bytes.len()),
            base + pool_size <= usize::MAX,
        ensures
            match result {
                Ok(allocator) => {
                    &&& allocator.inv()
                    &&& allocator.start() == base
                    &&& allocator.managed() == pool_size
                    &&& allocator.pool().bytes.len() == backend.view().bytes.len()
                    &&& allocator.pool().exclusive == backend.view().exclusive
                    &&& allocator.pool().trace == backend.view().trace.push(
                        Access::LoadU64 {
                            offset: base + CAT_HDR_MAGIC,
                            order: MemOrder::Relaxed,
                            value: ALLOC_MAGIC,
                        },
                    )
                    &&& backend.view().exclusive ==> allocator.pool().bytes == backend.view().bytes
                },
                Err(error) => exists|magic: u64|
                    magic != ALLOC_MAGIC && error@ == (AllocFailure::InvalidState {
                        detail: #[trigger] bad_magic(magic),
                    }),
            },
            backend.view().exclusive ==> {
                let magic = mem::u64_at(backend.view().bytes, base + CAT_HDR_MAGIC);
                &&& result is Ok <==> magic == ALLOC_MAGIC
                &&& result matches Err(error) ==> error@ == (AllocFailure::InvalidState {
                    detail: bad_magic(magic),
                })
            },
    {
        let mut backend = backend;
        let magic: u64 = backend.load_u64(base + CAT_HDR_MAGIC, MemOrder::Relaxed);
        if magic != ALLOC_MAGIC {
            let mut detail: String = String::new();
            detail.append("bad magic: expected 0x");
            text::push_hex(&mut detail, ALLOC_MAGIC, 16);
            detail.append(", got 0x");
            text::push_hex(&mut detail, magic, 16);
            assert(detail@ =~= bad_magic(magic));
            return Err(AllocError::InvalidState { detail });
        }
        Ok(RegionAllocator { backend, base, pool_size })
    }

    /// Finds a region by name.
    ///
    /// Fails with `NotFound` if no region in use has this name.
    pub fn find_region(&mut self, name: &str) -> (result: Result<RegionHandle, AllocError>)
        requires
            old(self).inv(),
        ensures
            final(self).follows(old(self)),
            looks_up(
                old(self).start(),
                name@,
                old(self).pool().trace,
                final(self).pool().trace,
                found(result),
            ),
            match result {
                Ok(handle) => handle@.name == name@ && handle.slot < MAX_REGIONS,
                Err(error) => error@ == (AllocFailure::NotFound { name: name@ }),
            },
            old(self).pool().exclusive ==> {
                let found = region_named(old(self).start(), old(self).pool().bytes, name@, 0);
                &&& final(self).pool().bytes == old(self).pool().bytes
                &&& result is Ok <==> found is Some
                &&& result matches Ok(handle) ==> found == Some(handle@)
            },
    {
        let ghost before = *self;
        let ghost m = self.pool().bytes;
        let wanted: String = name.to_string();
        let base: usize = self.base;
        let ghost mut seen: Seq<Glimpse> = Seq::empty();
        assert(before.pool().trace + catalog::scan_loads(base as int, seen) =~= before.pool().trace);
        let mut i: usize = 0;
        while i < MAX_REGIONS
            invariant
                i <= MAX_REGIONS,
                before == *old(self),
                base == self.base,
                m == before.pool().bytes,
                wanted@ == name@,
                self.follows(&before),
                seen.len() == i,
                forall|j: int| 0 <= j < i ==> (#[trigger] seen[j]).wf(),
                self.pool().trace == before.pool().trace + catalog::scan_loads(base as int, seen),
                forall|j: int| 0 <= j < i ==> !is_named(name@)((#[trigger] seen[j]).entry()),
                before.pool().exclusive ==> self.pool().bytes == m && region_named(
                    base as int,
                    m,
                    name@,
                    0,
                ) == region_named(base as int, m, name@, i as int),
            decreases MAX_REGIONS - i,
        {
            let ghost t = self.pool().trace;
            let entry = catalog::read_entry(&mut self.backend, base, i);
            proof {
                let more = choose|more: Glimpse|
                    entry@ == more.entry() && #[trigger] catalog::sees(
                        base as int,
                        i as int,
                        t,
                        self.pool().trace,
                        more,
                    );
                catalog::lemma_scan_next(
                    base as int,
                    before.pool().trace,
                    t,
                    self.pool().trace,
                    seen,
                    more,
                );
                assert(seen.push(more).drop_last() =~= seen);
                seen = seen.push(more);
            }
            if entry.state == RegionState::Active && entry.name == wanted {
                assert(hit(seen, is_named(name@)) == Some(i as int));
                assert(searched(seen, is_named(name@)));
                return Ok(
                    RegionHandle {
                        slot: i,
                        name: entry.name,
                        offset: entry.offset,
                        size: entry.size,
                    },
                );
            }
            i = i + 1;
        }
        assert(searched(seen, is_named(name@)));
        Err(AllocError::NotFound { name: wanted })
    }

    /// Lists all regions in use.
    pub fn list_regions(&mut self) -> (list: Vec<RegionHandle>)
        requires
            old(self).inv(),
        ensures
            final(self).follows(old(self)),
            lists(
                old(self).start(),
                old(self).pool().trace,
                final(self).pool().trace,
                list@.map_values(|r: RegionHandle| r@),
            ),
            old(self).pool().exclusive ==> {
                &&& final(self).pool().bytes == old(self).pool().bytes
                &&& list@.map_values(|r: RegionHandle| r@) == regions(
                    old(self).start(),
                    old(self).pool().bytes,
                    MAX_REGIONS as int,
                )
            },
    {
        let ghost before = *self;
        let ghost m = self.pool().bytes;
        let base: usize = self.base;
        let mut list: Vec<RegionHandle> = Vec::new();
        let ghost mut seen: Seq<Glimpse> = Seq::empty();
        assert(before.pool().trace + catalog::scan_loads(base as int, seen) =~= before.pool().trace);
        let mut i: usize = 0;
        assert(list@.map_values(|r: RegionHandle| r@) =~= Seq::<RegionView>::empty());
        while i < MAX_REGIONS
            invariant
                i <= MAX_REGIONS,
                before == *old(self),
                base == self.base,
                m == before.pool().bytes,
                self.follows(&before),
                seen.len() == i,
                forall|j: int| 0 <= j < i ==> (#[trigger] seen[j]).wf(),
                self.pool().trace == before.pool().trace + catalog::scan_loads(base as int, seen),
                list@.map_values(|r: RegionHandle| r@) == seen_regions(seen),
                before.pool().exclusive ==> self.pool().bytes == m && list@.map_values(
                    |r: RegionHandle| r@,
                ) == regions(base as int, m, i as int),
            decreases MAX_REGIONS - i,
        {
            let ghost so_far = list@.map_values(|r: RegionHandle| r@);
            let ghost t = self.pool().trace;
            let entry = catalog::read_entry(&mut self.backend, base, i);
            proof {
                let more = choose|more: Glimpse|
                    entry@ == more.entry() && #[trigger] catalog::sees(
                        base as int,
                        i as int,
                        t,
                        self.pool().trace,
                        more,
                    );
                catalog::lemma_scan_next(
                    base as int,
                    before.pool().trace,
                    t,
                    self.pool().trace,
                    seen,
                    more,
                );
                assert(seen.push(more).drop_last() =~= seen);
                seen = seen.push(more);
            }
            if entry.state == RegionState::Active {
                let handle = RegionHandle {
                    slot: i,
                    name: entry.name,
                    offset: entry.offset,
                    size: entry.size,
                };
                list.push(handle);
                assert(list@.map_values(|r: RegionHandle| r@) =~= so_far.push(handle@));
            }
            i = i + 1;
        }
        assert(scanned(seen));
        list
    }

    /// Finds a free catalog entry.
    fn find_free_slot(&mut self) -> (slot: Option<usize>)
        requires
            old(self).inv(),
        ensures
            final(self).follows(old(self)),
            looks_for_room(
                old(self).start(),
                old(self).pool().trace,
                final(self).pool().trace,
                match slot {
                    Some(i) => Some(i as int),
                    None => None,
                },
            ),
            slot matches Some(i) ==> i < MAX_REGIONS,
            old(self).pool().exclusive ==> {
                let free = free_slot(old(self).start(), old(self).pool().bytes, 0);
                &&& final(self).pool().bytes == old(self).pool().bytes
                &&& slot is Some <==> free is Some
                &&& slot matches Some(i) ==> free == Some(i as int)
            },
    {
        let ghost before = *self;
        let ghost m = self.pool().bytes;
        let base: usize = self.base;
        let ghost mut seen: Seq<Glimpse> = Seq::empty();
        assert(before.pool().trace + catalog::scan_loads(base as int, seen) =~= before.pool().trace);
        let mut i: usize = 0;
        while i < MAX_REGIONS
            invariant
                i <= MAX_REGIONS,
                before == *old(self),
                base == self.base,
                m == before.pool().bytes,
                self.follows(&before),
                seen.len() == i,
                forall|j: int| 0 <= j < i ==> (#[trigger] seen[j]).wf(),
                self.pool().trace == before.pool().trace + catalog::scan_loads(base as int, seen),
                forall|j: int| 0 <= j < i ==> !is_free()((#[trigger] seen[j]).entry()),
                before.pool().exclusive ==> self.pool().bytes == m && free_slot(base as int, m, 0)
                    == free_slot(base as int, m, i as int),
            decreases MAX_REGIONS - i,
        {
            let ghost t = self.pool().trace;
            let entry = catalog::read_entry(&mut self.backend, base, i);
            proof {
                let more = choose|more: Glimpse|
                    entry@ == more.entry() && #[trigger] catalog::sees(
                        base as int,
                        i as int,
                        t,
                        self.pool().trace,
                        more,
                    );
                catalog::lemma_scan_next(
                    base as int,
                    before.pool().trace,
                    t,
                    self.pool().trace,
                    seen,
                    more,
                );
                assert(seen.push(more).drop_last() =~= seen);
                seen = seen.push(more);
            }
            if entry.state == RegionState::Free {
                assert(hit(seen, is_free()) == Some(i as int));
                assert(searched(seen, is_free()));
                return Some(i);
            }
            i = i + 1;
        }
        assert(searched(seen, is_free()));
        None
    }

    /// The offset for the next region: behind all regions in use or being allocated, on a
    /// multiple of 64.
    fn next_free_offset(&mut self, data_start: u64) -> (offset: u128)
        requires
            old(self).inv(),
        ensures
            final(self).follows(old(self)),
            places(
                old(self).start(),
                data_start,
                old(self).pool().trace,
                final(self).pool().trace,
                offset as int,
            ),
            offset <= 0x2_0000_0000_0000_0040,
            offset >= data_start,
            offset % 64 == 0,
            old(self).pool().exclusive ==> {
                &&& final(self).pool().bytes == old(self).pool().bytes
                &&& offset == rounded_up(
                    highest_end(
                        old(self).start(),
                        old(self).pool().bytes,
                        MAX_REGIONS as int,
                        data_start as int,
                    ),
                )
            },
    {
        let ghost before = *self;
        let ghost m = self.pool().bytes;
        let base: usize = self.base;
        let mut max_end: u128 = data_start as u128;
        let ghost mut seen: Seq<Glimpse> = Seq::empty();
        assert(before.pool().trace + catalog::scan_loads(base as int, seen) =~= before.pool().trace);
        let mut i: usize = 0;
        while i < MAX_REGIONS
            invariant
                i <= MAX_REGIONS,
                before == *old(self),
                base == self.base,
                m == before.pool().bytes,
                self.follows(&before),
                data_start <= max_end <= 0x2_0000_0000_0000_0000,
                seen.len() == i,
                forall|j: int| 0 <= j < i ==> (#[trigger] seen[j]).wf(),
                self.pool().trace == before.pool().trace + catalog::scan_loads(base as int, seen),
                max_end == seen_end(seen, data_start as int),
                before.pool().exclusive ==> self.pool().bytes == m && max_end == highest_end(
                    base as int,
                    m,
                    i as int,
                    data_start as int,
                ),
            decreases MAX_REGIONS - i,
        {
            let ghost t = self.pool().trace;
            let entry = catalog::read_entry(&mut self.backend, base, i);
            proof {
                let more = choose|more: Glimpse|
                    entry@ == more.entry() && #[trigger] catalog::sees(
                        base as int,
                        i as int,
                        t,
                        self.pool().trace,
                        more,
                    );
                catalog::lemma_scan_next(
                    base as int,
                    before.pool().trace,
                    t,
                    self.pool().trace,
                    seen,
                    more,
                );
                assert(seen.push(more).drop_last() =~= seen);
                seen = seen.push(more);
            }
            if entry.state == RegionState::Active || entry.state == RegionState::Allocating {
                let end: u128 = entry.offset as u128 + entry.size as u128;
                if end > max_end {
                    max_end = end;
                }
            }
            i = i + 1;
        }
        assert(scanned(seen));
        (max_end + 63) / 64 * 64
    }

    /// Allocates a named region of `size` bytes.
    ///
    /// Fails with `InvalidState` if the name is longer than 24 bytes, with `NameExists` if a
    /// region in use has this name, with `CatalogFull` if no entry is free, and with
    /// `OutOfSpace` if the space behind the highest region does not suffice.
    #[verifier::spinoff_prover]
    pub fn create_region(&mut self, name: &str, size: u64) -> (result: Result<
        RegionHandle,
        AllocError,
    >)
        requires
            old(self).inv(),
        ensures
            final(self).follows(old(self)),
            allocates(
                old(self).start(),
                old(self).managed(),
                name@,
                size,
                old(self).pool().trace,
                final(self).pool().trace,
                outcome(result),
            ),
            match result {
                Ok(handle) => {
                    &&& handle@.name == name@
                    &&& handle.size == size
                    &&& handle.slot < MAX_REGIONS
                    &&& handle.offset % 64 == 0
                    &&& handle.offset + size <= old(self).start() + old(self).managed()
                    &&& exists|count: u64|
                        catalog::carries_out(
                            old(self).pool().trace,
                            final(self).pool().trace,
                            #[trigger] create_script(old(self).start(), handle@, count),
                        )
                },
                Err(_) => catalog::carries_out(
                    old(self).pool().trace,
                    final(self).pool().trace,
                    Seq::empty(),
                ),
            },
            old(self).pool().exclusive ==> {
                let base = old(self).start();
                let m = old(self).pool().bytes;
                let expected = create_result(base, old(self).managed(), m, name@, size);
                match result {
                    Ok(handle) => {
                        &&& expected == Ok::<RegionView, AllocFailure>(handle@)
                        &&& final(self).pool().bytes == created(base, m, handle@)
                    },
                    Err(error) => {
                        &&& expected == Err::<RegionView, AllocFailure>(error@)
                        &&& final(self).pool().bytes == m
                    },
                }
            },
    {
        let ghost t0 = self.pool().trace;
        let ghost m = self.pool().bytes;
        let ghost base = self.start();
        proof {
            catalog::lemma_script_start(t0);
        }
        if name.as_bytes().len() > MAX_NAME_LEN {
            return Err(
                AllocError::InvalidState { detail: "name too long: max 24 bytes".to_string() },
            );
        }
        let existing = self.find_region(name);
        let ghost known = found(existing);
        let ghost t_named = self.pool().trace;
        proof {
            lemma_looks_up_only(base, name@, t0, t0, t_named, known);
        }
        if existing.is_ok() {
            assert(looks_up(base, name@, t0, t_named, known));
            return Err(AllocError::NameExists { name: name.to_string() });
        }
        let free = self.find_free_slot();
        let ghost room_at: Option<int> = match free {
            Some(slot) => Some(slot as int),
            None => None,
        };
        proof {
            lemma_looks_for_room_only(base, t0, t_named, self.pool().trace, room_at);
        }
        let slot: usize = match free {
            Some(slot) => slot,
            None => {
                assert(looks_for_room(base, t_named, self.pool().trace, room_at));
                assert(looks_up(base, name@, t0, t_named, known));
                return Err(AllocError::CatalogFull);
            },
        };
        let ghost t1 = self.pool().trace;
        let data_start: u64 = self.backend.load_u64(
            self.base + CAT_HDR_DATA_START,
            MemOrder::Relaxed,
        );
        proof {
            catalog::lemma_script_next(t0, t1, Seq::empty(), self.pool().trace.last());
        }
        let ghost t_start = self.pool().trace;
        let offset: u128 = self.next_free_offset(data_start);
        let ghost t_placed = self.pool().trace;
        proof {
            lemma_places_only(base, data_start, t0, t_start, t_placed, offset as int);
            assert(t_start == t1.push(load_start(base, data_start)));
            assert(looks_up(base, name@, t0, t_named, known));
            assert(looks_for_room(base, t_named, t1, room_at));
            assert(places(
                base,
                data_start,
                t1.push(load_start(base, data_start)),
                t_placed,
                offset as int,
            ));
        }
        let pool_end: u64 = (self.base + self.pool_size) as u64;
        if offset + size as u128 > pool_end as u128 {
            let available: u64 = if offset <= pool_end as u128 {
                pool_end - offset as u64
            } else {
                0
            };
            return Err(AllocError::OutOfSpace { requested: size, available });
        }
        let handle = RegionHandle { slot, name: name.to_string(), offset: offset as u64, size };
        let entry = CatalogEntry {
            state: RegionState::Allocating,
            name: name.to_string(),
            offset: offset as u64,
            size,
            created_epoch: 0,
        };
        let ghost r = handle@;
        let ghost v2 = self.pool();
        catalog::write_entry(&mut self.backend, self.base, slot, &entry);
        let ghost v3 = self.pool();
        let ghost writing = catalog::entry_accesses(base, slot as int, entry@);
        proof {
            assert(entry@ =~= entry_for(r, RegionState::Allocating));
            catalog::lemma_script_more(t0, v2.trace, Seq::empty(), writing);
            catalog::lemma_entry_accesses_write(base, slot as int, entry@);
            assert(Seq::<Access>::empty() + writing =~= writing);
        }
        let at: usize = catalog::entry_offset(self.base, slot);
        self.backend.store_u8(at + ENT_STATE, RegionState::Active.to_u8(), MemOrder::Release);
        let ghost v4 = self.pool();
        self.backend.flush(at, CATALOG_ENTRY_SIZE);
        let ghost v5 = self.pool();
        let count: u64 = self.backend.load_u64(
            self.base + CAT_HDR_REGION_COUNT,
            MemOrder::Relaxed,
        );
        let ghost v6 = self.pool();
        let new_count: u64 = count.wrapping_add(1);
        self.backend.store_u64(self.base + CAT_HDR_REGION_COUNT, new_count, MemOrder::Relaxed);
        let ghost v7 = self.pool();
        self.backend.flush(self.base, CATALOG_HEADER_SIZE);
        proof {
            let a4 = v4.trace.last();
            let a5 = v5.trace.last();
            let a7 = v7.trace.last();
            catalog::lemma_script_next(t0, v3.trace, writing, a4);
            let s4 = writing.push(a4);
            catalog::lemma_script_next(t0, v4.trace, s4, a5);
            let s5 = s4.push(a5);
            catalog::lemma_script_next(t0, v5.trace, s5, v6.trace.last());
            catalog::lemma_script_next(t0, v6.trace, s5, a7);
            let s7 = s5.push(a7);
            catalog::lemma_script_next(t0, v7.trace, s7, self.pool().trace.last());
            assert(s7.push(self.pool().trace.last()) =~= create_script(base, r, new_count));
            assert(self.pool().trace =~= t_placed + enter_accesses(base, r, count));
            assert(allocates_at(
                base,
                self.managed(),
                slot as int,
                name@,
                size,
                t1,
                self.pool().trace,
                Ok(r),
            ));
            if v2.exclusive {
                lemma_created(base, m, r);
            }
        }
        Ok(handle)
    }

    /// Frees a region by name.
    ///
    /// Fails with `NotFound` if no region in use has this name.
    pub fn free_region(&mut self, name: &str) -> (result: Result<(), AllocError>)
        requires
            old(self).inv(),
        ensures
            final(self).follows(old(self)),
            frees(
                old(self).start(),
                name@,
                old(self).pool().trace,
                final(self).pool().trace,
                result is Ok,
            ),
            match result {
                Ok(_) => exists|slot: int, count: u64|
                    0 <= slot < MAX_REGIONS && catalog::carries_out(
                        old(self).pool().trace,
                        final(self).pool().trace,
                        #[trigger] free_script(old(self).start(), slot, count),
                    ),
                Err(error) => {
                    &&& error@ == (AllocFailure::NotFound { name: name@ })
                    &&& catalog::carries_out(
                        old(self).pool().trace,
                        final(self).pool().trace,
                        Seq::empty(),
                    )
                },
            },
            old(self).pool().exclusive ==> {
                let base = old(self).start();
                let m = old(self).pool().bytes;
                let found = region_named(base, m, name@, 0);
                &&& result is Ok <==> found is Some
                &&& final(self).pool().bytes == (match found {
                    Some(r) => freed(base, m, r.slot),
                    None => m,
                })
            },
    {
        let ghost t0 = self.pool().trace;
        let ghost m = self.pool().bytes;
        let ghost base = self.start();
        proof {
            catalog::lemma_script_start(t0);
        }
        let existing = self.find_region(name);
        let ghost known = found(existing);
        proof {
            lemma_looks_up_only(base, name@, t0, t0, self.pool().trace, known);
            assert(looks_up(base, name@, t0, self.pool().trace, known));
        }
        let handle: RegionHandle = match existing {
            Ok(handle) => handle,
            Err(error) => {
                return Err(error);
            },
        };
        let ghost v0 = self.pool();
        let at: usize = catalog::entry_offset(self.base, handle.slot);
        self.backend.store_u8(at + ENT_STATE, RegionState::Freeing.to_u8(), MemOrder::Release);
        let ghost v1 = self.pool();
        self.backend.flush(at, CATALOG_ENTRY_SIZE);
        let ghost v2 = self.pool();
        self.backend.store_u8(at + ENT_STATE, RegionState::Free.to_u8(), MemOrder::Release);
        let ghost v3 = self.pool();
        self.backend.flush(at, CATALOG_ENTRY_SIZE);
        let ghost v4 = self.pool();
        let count: u64 = self.backend.load_u64(
            self.base + CAT_HDR_REGION_COUNT,
            MemOrder::Relaxed,
        );
        let ghost v5 = self.pool();
        let ghost e = Seq::<Access>::empty();
        let ghost s1 = e.push(v1.trace.last());
        let ghost s2 = s1.push(v2.trace.last());
        let ghost s3 = s2.push(v3.trace.last());
        let ghost s4 = s3.push(v4.trace.last());
        proof {
            catalog::lemma_script_next(t0, v0.trace, e, v1.trace.last());
            catalog::lemma_script_next(t0, v1.trace, s1, v2.trace.last());
            catalog::lemma_script_next(t0, v2.trace, s2, v3.trace.last());
            catalog::lemma_script_next(t0, v3.trace, s3, v4.trace.last());
            catalog::lemma_script_next(t0, v4.trace, s4, v5.trace.last());
            assert(count == 0 ==> s4 =~= free_script(base, handle.slot as int, count));
            if v0.exclusive {
                lemma_region_named_slot(base, m, name@, 0);
                assert(v4.bytes =~= mem::put_u8(m, at as int, RegionState::Free.code()));
                assert(mem::u64_at(v4.bytes, base + CAT_HDR_REGION_COUNT) == region_count(
                    base,
                    m,
                )) by {
                    mem::lemma_put_keeps_u64(
                        m,
                        at as int,
                        seq![RegionState::Free.code()],
                        base + CAT_HDR_REGION_COUNT,
                    );
                }
            }
        }
        if count > 0 {
            self.backend.store_u64(
                self.base + CAT_HDR_REGION_COUNT,
                count - 1,
                MemOrder::Relaxed,
            );
            let ghost v6 = self.pool();
            self.backend.flush(self.base, CATALOG_HEADER_SIZE);
            proof {
                catalog::lemma_script_next(t0, v5.trace, s4, v6.trace.last());
                let s6 = s4.push(v6.trace.last());
                catalog::lemma_script_next(t0, v6.trace, s6, self.pool().trace.last());
                assert(s6.push(self.pool().trace.last()) =~= free_script(
                    base,
                    handle.slot as int,
                    count,
                ));
            }
        }
        proof {
            assert(known == Some(handle@));
            assert(self.pool().trace =~= v0.trace + release_accesses(base, known->0.slot, count));
            assert(looks_up(base, name@, t0, v0.trace, known));
        }
        Ok(())
    }

    /// Puts the catalog in order after a crash: an allocation that did not finish is rolled
    /// back, and a free that did not finish is completed.
    ///
    /// Returns the number of entries put in order.
    pub fn recover(&mut self) -> (fixed: usize)
        requires
            old(self).inv(),
        ensures
            final(self).follows(old(self)),
            fixed <= MAX_REGIONS,
            mends(
                old(self).start(),
                old(self).pool().trace,
                final(self).pool().trace,
                fixed as nat,
            ),
            old(self).pool().exclusive ==> {
                let base = old(self).start();
                let m = old(self).pool().bytes;
                &&& fixed == unsettled_count(base, m, MAX_REGIONS as int)
                &&& final(self).pool().bytes == mended(base, m, MAX_REGIONS as int)
            },
    {
        let ghost before = *self;
        let ghost m = self.pool().bytes;
        let base: usize = self.base;
        let ghost t0 = self.pool().trace;
        let ghost mut seen: Seq<Glimpse> = Seq::empty();
        assert(t0 + mend_accesses(base as int, seen) =~= t0);
        let mut fixed: usize = 0;
        let mut i: usize = 0;
        while i < MAX_REGIONS
            invariant
                i <= MAX_REGIONS,
                fixed <= i,
                before == *old(self),
                base == self.base,
                m == before.pool().bytes,
                t0 == before.pool().trace,
                self.follows(&before),
                seen.len() == i,
                forall|j: int| 0 <= j < i ==> (#[trigger] seen[j]).wf(),
                fixed == seen_unsettled(seen),
                self.pool().trace == t0 + mend_accesses(base as int, seen),
                before.pool().exclusive ==> self.pool().bytes == mended(base as int, m, i as int)
                    && fixed == unsettled_count(base as int, m, i as int),
            decreases MAX_REGIONS - i,
        {
            proof {
                if before.pool().exclusive {
                    lemma_mended_keeps(base as int, m, i as int);
                }
            }
            let ghost t = self.pool().trace;
            let entry = catalog::read_entry(&mut self.backend, base, i);
            let ghost more = choose|more: Glimpse|
                entry@ == more.entry() && #[trigger] catalog::sees(
                    base as int,
                    i as int,
                    t,
                    self.pool().trace,
                    more,
                );
            if entry.state == RegionState::Allocating || entry.state == RegionState::Freeing {
                let at: usize = catalog::entry_offset(base, i);
                self.backend.store_u8(at + ENT_STATE, RegionState::Free.to_u8(), MemOrder::Release);
                self.backend.flush(at, CATALOG_ENTRY_SIZE);
                fixed = fixed + 1;
            }
            proof {
                let longer = seen.push(more);
                assert(longer.drop_last() =~= seen);
                assert(self.pool().trace =~= t0 + mend_accesses(base as int, longer));
                seen = longer;
            }
            i = i + 1;
        }
        assert(scanned(seen));
        fixed
    }

    /// The backend.
    pub fn backend(&self) -> (backend: &B)
        ensures
            backend.view() == self.pool(),
    {
        &self.backend
    }

    /// The backend, to read and write the data of regions with.
    pub fn backend_mut(&mut self) -> (backend: &mut B)
        ensures
            backend.view() == old(self).pool(),
            final(self).pool() == final(backend).view(),
            final(self).start() == old(self).start(),
            final(self).managed() == old(self).managed(),
    {
        &mut self.backend
    }

    /// Gives the backend back.
    pub fn into_backend(self) -> (backend: B)
        ensures
            backend.view() == self.pool(),
    {
        self.backend
    }
}

/// Looking up a name only looks at the pool.
proof fn lemma_looks_up_only(
    base: int,
    name: Seq<char>,
    first: Seq<Access>,
    before: Seq<Access>,
    after: Seq<Access>,
    found: Option<RegionView>,
)
    requires
        catalog::carries_out(first, before, Seq::empty()),
        looks_up(base, name, before, after, found),
    ensures
        catalog::carries_out(first, after, Seq::empty()),
{
    let seen = choose|seen: Seq<Glimpse>|
        #[trigger] searched(seen, is_named(name)) && after == before + catalog::scan_loads(
            base,
            seen,
        );
    catalog::lemma_scan_looks(base, seen);
    catalog::lemma_script_looks(first, before, Seq::empty(), catalog::scan_loads(base, seen));
}

/// Looking for a free entry only looks at the pool.
proof fn lemma_looks_for_room_only(
    base: int,
    first: Seq<Access>,
    before: Seq<Access>,
    after: Seq<Access>,
    slot: Option<int>,
)
    requires
        catalog::carries_out(first, before, Seq::empty()),
        looks_for_room(base, before, after, slot),
    ensures
        catalog::carries_out(first, after, Seq::empty()),
{
    let seen = choose|seen: Seq<Glimpse>|
        #[trigger] searched(seen, is_free()) && after == before + catalog::scan_loads(base, seen);
    catalog::lemma_scan_looks(base, seen);
    catalog::lemma_script_looks(first, before, Seq::empty(), catalog::scan_loads(base, seen));
}

/// Placing a region only looks at the pool.
proof fn lemma_places_only(
    base: int,
    start: u64,
    first: Seq<Access>,
    before: Seq<Access>,
    after: Seq<Access>,
    offset: int,
)
    requires
        catalog::carries_out(first, before, Seq::empty()),
        places(base, start, before, after, offset),
    ensures
        catalog::carries_out(first, after, Seq::empty()),
{
    let seen = choose|seen: Seq<Glimpse>|
        #[trigger] scanned(seen) && after == before + catalog::scan_loads(base, seen);
    catalog::lemma_scan_looks(base, seen);
    catalog::lemma_script_looks(first, before, Seq::empty(), catalog::scan_loads(base, seen));
}

/// A region that was found lies in the catalog.
pub(crate) proof fn lemma_region_named_slot(base: int, m: Seq<u8>, name: Seq<char>, from: int)
    requires
        0 <= from,
    ensures
        region_named(base, m, name, from) matches Some(r) ==> from <= r.slot < MAX_REGIONS && r.name
            == name && active(base, m, r.slot) && r == region_of(base, m, r.slot),
    decreases MAX_REGIONS - from,
{
    if from < MAX_REGIONS {
        lemma_region_named_slot(base, m, name, from + 1);
    }
}

/// Two entries with the same bytes are the same.
pub(crate) proof fn lemma_entry_agree(base: int, a: Seq<u8>, b: Seq<u8>, slot: int)
    requires
        catalog::catalog_fits(base, a.len()),
        a.len() == b.len(),
        0 <= slot < MAX_REGIONS,
        mem::agree(a, b, catalog::entry_at(base, slot), catalog::entry_at(base, slot) + 64),
    ensures
        catalog::entry_of(base, a, slot) == catalog::entry_of(base, b, slot),
{
    let at = catalog::entry_at(base, slot);
    mem::lemma_agree(a, b, at, at + 64);
}

/// Putting entries in order leaves the others alone.
pub(crate) proof fn lemma_mended_keeps(base: int, m: Seq<u8>, n: int)
    requires
        catalog::catalog_fits(base, m.len()),
        0 <= n <= MAX_REGIONS,
    ensures
        mended(base, m, n).len() == m.len(),
        forall|s: int|
            n <= s < MAX_REGIONS ==> #[trigger] catalog::entry_of(base, mended(base, m, n), s)
                == catalog::entry_of(base, m, s),
        mem::agree(mended(base, m, n), m, 0, base + 64),
        mem::agree(mended(base, m, n), m, catalog::entry_at(base, n), m.len() as int),
    decreases n,
{
    if n > 0 {
        lemma_mended_keeps(base, m, n - 1);
    }
    assert forall|s: int| n <= s < MAX_REGIONS implies #[trigger] catalog::entry_of(
        base,
        mended(base, m, n),
        s,
    ) == catalog::entry_of(base, m, s) by {
        lemma_entry_agree(base, mended(base, m, n), m, s);
    }
}

/// The steps of an allocation add up to what [`created`] says.
#[verifier::spinoff_prover]
proof fn lemma_created(base: int, m: Seq<u8>, r: RegionView)
    requires
        catalog::catalog_fits(base, m.len()),
        0 <= r.slot < MAX_REGIONS,
        encode_utf8(r.name).len() <= MAX_NAME_LEN,
    ensures
        ({
            let at = catalog::entry_at(base, r.slot);
            let m1 = catalog::with_entry(base, m, r.slot, entry_for(r, RegionState::Allocating));
            let m2 = mem::put_u8(m1, at + ENT_STATE, RegionState::Active.code());
            &&& mem::u64_at(m2, base + CAT_HDR_REGION_COUNT) == region_count(base, m)
            &&& mem::put_u64(
                m2,
                base + CAT_HDR_REGION_COUNT,
                mem::wrapped_sum(region_count(base, m), 1),
            ) == created(base, m, r)
        }),
{
    lemma_auto_spec_u64_to_from_le_bytes();
    lemma_auto_spec_u16_to_from_le_bytes();
    let at = catalog::entry_at(base, r.slot);
    let m1 = catalog::with_entry(base, m, r.slot, entry_for(r, RegionState::Allocating));
    let m2 = mem::put_u8(m1, at + ENT_STATE, RegionState::Active.code());
    assert(mem::agree(m2, m, base, base + 64));
    mem::lemma_agree(m2, m, base, base + 64);
    assert(m2 =~= catalog::with_entry(base, m, r.slot, entry_for(r, RegionState::Active)));
}

/// What an allocator says of a wrong magic number.
pub open spec fn bad_magic(magic: u64) -> Seq<char> {
    "bad magic: expected 0x"@ + text::hex(ALLOC_MAGIC as nat, 16) + ", got 0x"@ + text::hex(
        magic as nat,
        16,
    )
}

} // verus!

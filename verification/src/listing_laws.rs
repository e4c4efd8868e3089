//! What the region allocator answers: where regions are placed, which are found and listed.
use crate::alloc_laws;
use crate::allocator;
use crate::allocator::{AllocError, AllocFailure};
use crate::catalog;
use crate::catalog::{
    Glimpse, RegionState, ALLOC_MAGIC, CATALOG_SIZE, MAX_REGIONS,
};
use crate::memory as mem;
use crate::region::{RegionHandle, RegionView};
use vstd::bytes::*;
use vstd::prelude::*;
use vstd::utf8::*;

verus! {

/// `r` is what its catalog entry says, byte for byte: the entry is marked as in use, and
/// name, offset and size are those that are stored there.
pub open spec fn as_stored(base: int, m: Seq<u8>, r: RegionView) -> bool {
    let at = base + 64 + 64 * r.slot;
    &&& 0 <= r.slot < MAX_REGIONS
    &&& m[at] == 2
    &&& r.name == catalog::entry_name(m, at, mem::u16_at(m, at + 2))
    &&& r.offset == mem::u64_at(m, at + 32)
    &&& r.size == mem::u64_at(m, at + 40)
}

/// The regions among the first `n` entries: one for each entry in use, as it is stored there,
/// in the order of the entries.
proof fn lemma_regions_stored(base: int, m: Seq<u8>, n: int)
    requires
        0 <= n <= MAX_REGIONS,
    ensures
        ({
            let list = allocator::regions(base, m, n);
            &&& forall|k: int|
                0 <= k < list.len() ==> as_stored(base, m, #[trigger] list[k]) && list[k].slot < n
            &&& forall|j: int, k: int|
                0 <= j < k < list.len() ==> (#[trigger] list[j]).slot < (#[trigger] list[k]).slot
            &&& forall|r: RegionView|
                as_stored(base, m, r) && r.slot < n ==> #[trigger] list.contains(r)
        }),
    decreases n,
{
    let list = allocator::regions(base, m, n);
    if n > 0 {
        lemma_regions_stored(base, m, n - 1);
        let less = allocator::regions(base, m, n - 1);
        assert forall|r: RegionView| as_stored(base, m, r) && r.slot
            < n implies #[trigger] list.contains(r) by {
            if r.slot < n - 1 {
                assert(less.contains(r));
                let k = choose|k: int| 0 <= k < less.len() && less[k] == r;
                assert(list[k] == r);
            } else {
                assert(r =~= allocator::region_of(base, m, n - 1));
                assert(list.last() == r);
                assert(list[list.len() - 1] == r);
            }
        }
        assert forall|k: int| 0 <= k < list.len() implies as_stored(base, m, #[trigger] list[k])
            && list[k].slot < n by {
            if k < less.len() {
                assert(list[k] == less[k]);
            }
        }
        assert forall|j: int, k: int| 0 <= j < k < list.len() implies (#[trigger] list[j]).slot < (
        #[trigger] list[k]).slot by {
            assert(list[j] == less[j]);
            if k < less.len() {
                assert(list[k] == less[k]);
            }
        }
    }
}

/// The list of regions holds exactly the regions that the catalog stores, each with the name,
/// the offset and the size that its entry states, in the order of the entries.
pub proof fn law_list_exact(base: int, m: Seq<u8>)
    ensures
        ({
            let list = allocator::regions(base, m, MAX_REGIONS as int);
            &&& forall|r: RegionView| #[trigger] list.contains(r) <==> as_stored(base, m, r)
            &&& forall|j: int, k: int|
                0 <= j < k < list.len() ==> (#[trigger] list[j]).slot < (#[trigger] list[k]).slot
        }),
{
    let list = allocator::regions(base, m, MAX_REGIONS as int);
    lemma_regions_stored(base, m, MAX_REGIONS as int);
    assert forall|r: RegionView| #[trigger] list.contains(r) implies as_stored(base, m, r) by {
        let k = choose|k: int| 0 <= k < list.len() && list[k] == r;
        assert(as_stored(base, m, list[k]));
    }
}

/// A search by name finds the first entry in use that has this name, as it is stored there;
/// it finds nothing exactly if there is none.
pub proof fn law_find_exact(base: int, m: Seq<u8>, name: Seq<char>)
    ensures
        match allocator::region_named(base, m, name, 0) {
            Some(r) => {
                &&& as_stored(base, m, r)
                &&& r.name == name
                &&& forall|other: RegionView| #[trigger]
                    as_stored(base, m, other) && other.name == name ==> r.slot <= other.slot
            },
            None => forall|other: RegionView| #[trigger]
                as_stored(base, m, other) ==> other.name != name,
        },
{
    lemma_find_from(base, m, name, 0);
}

proof fn lemma_find_from(base: int, m: Seq<u8>, name: Seq<char>, from: int)
    requires
        0 <= from,
    ensures
        match allocator::region_named(base, m, name, from) {
            Some(r) => {
                &&& as_stored(base, m, r)
                &&& r.name == name
                &&& from <= r.slot
                &&& forall|other: RegionView| #[trigger]
                    as_stored(base, m, other) && other.name == name && from <= other.slot ==> r.slot
                        <= other.slot
            },
            None => forall|other: RegionView| #[trigger]
                as_stored(base, m, other) && from <= other.slot ==> other.name != name,
        },
    decreases MAX_REGIONS - from,
{
    if from < MAX_REGIONS {
        lemma_find_from(base, m, name, from + 1);
        let here = allocator::region_of(base, m, from);
        if allocator::active(base, m, from) && here.name == name {
            assert(as_stored(base, m, here));
        } else {
            assert forall|other: RegionView| #[trigger]
                as_stored(base, m, other) && other.name == name && from
                    <= other.slot implies other.slot != from by {
                if other.slot == from {
                    assert(other =~= here);
                }
            }
        }
    }
}

/// Listing and finding agree: where names are distinct, every listed region is the one that a
/// search for its name finds, and every region that a search finds is listed.
pub proof fn law_list_agrees_with_find(base: int, m: Seq<u8>, r: RegionView)
    requires
        alloc_laws::names_distinct(base, m),
    ensures
        allocator::regions(base, m, MAX_REGIONS as int).contains(r) <==> allocator::region_named(
            base,
            m,
            r.name,
            0,
        ) == Some(r),
{
    law_list_exact(base, m);
    law_find_exact(base, m, r.name);
    let list = allocator::regions(base, m, MAX_REGIONS as int);
    if list.contains(r) {
        assert(as_stored(base, m, r));
        let found = allocator::region_named(base, m, r.name, 0)->0;
        assert(allocator::active(base, m, r.slot));
        assert(allocator::active(base, m, found.slot));
        assert(found =~= allocator::region_of(base, m, found.slot));
        assert(r =~= allocator::region_of(base, m, r.slot));
    }
}

/// A region that was allocated is listed as it was returned; all others are listed as before.
pub proof fn law_create_then_list(
    base: int,
    pool_size: int,
    m: Seq<u8>,
    name: Seq<char>,
    size: u64,
    other: RegionView,
)
    requires
        catalog::catalog_fits(base, m.len()),
        allocator::create_result(base, pool_size, m, name, size) is Ok,
    ensures
        ({
            let r = allocator::create_result(base, pool_size, m, name, size)->Ok_0;
            let before = allocator::regions(base, m, MAX_REGIONS as int);
            let after = allocator::regions(base, allocator::created(base, m, r), MAX_REGIONS as int);
            &&& r.name == name
            &&& r.size == size
            &&& after.contains(r)
            &&& after.contains(other) <==> other == r || before.contains(other)
            &&& after.len() == before.len() + 1
        }),
{
    let r = allocator::create_result(base, pool_size, m, name, size)->Ok_0;
    let m2 = allocator::created(base, m, r);
    alloc_laws::lemma_free_slot(base, m, 0);
    alloc_laws::lemma_created_parts(base, m, r);
    alloc_laws::lemma_regions_len(base, m2, m, MAX_REGIONS as int, r.slot);
    law_list_exact(base, m);
    law_list_exact(base, m2);
    lemma_stored(base, m, r);
    lemma_stored(base, m2, r);
    lemma_stored(base, m, other);
    lemma_stored(base, m2, other);
    if other.slot != r.slot && 0 <= other.slot < MAX_REGIONS {
        assert(catalog::entry_of(base, m2, other.slot) == catalog::entry_of(base, m, other.slot));
    }
}

/// A region is as stored exactly if its entry is in use and describes it.
proof fn lemma_stored(base: int, m: Seq<u8>, r: RegionView)
    ensures
        as_stored(base, m, r) <==> {
            &&& 0 <= r.slot < MAX_REGIONS
            &&& allocator::active(base, m, r.slot)
            &&& r == allocator::region_of(base, m, r.slot)
        },
{
    if as_stored(base, m, r) {
        assert(r =~= allocator::region_of(base, m, r.slot));
    }
}

/// A region that was freed is no longer listed; all others are listed as before.
pub proof fn law_free_then_list(base: int, m: Seq<u8>, name: Seq<char>, other: RegionView)
    requires
        catalog::catalog_fits(base, m.len()),
        allocator::region_named(base, m, name, 0) is Some,
    ensures
        ({
            let gone = allocator::region_named(base, m, name, 0)->0;
            let before = allocator::regions(base, m, MAX_REGIONS as int);
            let after = allocator::regions(
                base,
                allocator::freed(base, m, gone.slot),
                MAX_REGIONS as int,
            );
            &&& before.contains(gone)
            &&& after.contains(other) <==> before.contains(other) && other != gone
            &&& after.len() == before.len() - 1
        }),
{
    allocator::lemma_region_named_slot(base, m, name, 0);
    law_find_exact(base, m, name);
    let gone = allocator::region_named(base, m, name, 0)->0;
    let m2 = allocator::freed(base, m, gone.slot);
    alloc_laws::lemma_freed_parts(base, m, gone.slot);
    alloc_laws::lemma_regions_len(base, m2, m, MAX_REGIONS as int, gone.slot);
    law_list_exact(base, m);
    law_list_exact(base, m2);
    lemma_stored(base, m, gone);
    lemma_stored(base, m, other);
    lemma_stored(base, m2, other);
    if other.slot != gone.slot && 0 <= other.slot < MAX_REGIONS {
        assert(catalog::entry_of(base, m2, other.slot) == catalog::entry_of(base, m, other.slot));
    }
}

/// Entry `slot` takes up space up to `end`: it is marked as in use or as being allocated, and
/// `end` is its offset and size together.
pub open spec fn space_up_to(base: int, m: Seq<u8>, slot: int, end: int) -> bool {
    let at = base + 64 + 64 * slot;
    &&& 0 <= slot < MAX_REGIONS
    &&& m[at] == 1 || m[at] == 2
    &&& end == mem::u64_at(m, at + 32) + mem::u64_at(m, at + 40)
}

/// `offset` is the lowest multiple of 64 that lies behind the start of the data and behind
/// every region that takes up space.
pub open spec fn lowest_place(base: int, m: Seq<u8>, offset: int) -> bool {
    let start = mem::u64_at(m, base + 24);
    &&& offset % 64 == 0
    &&& start <= offset
    &&& forall|slot: int, end: int| #[trigger] space_up_to(base, m, slot, end) ==> end <= offset
    &&& start > offset - 64 || exists|slot: int, end: int|
        #[trigger] space_up_to(base, m, slot, end) && end > offset - 64
}

proof fn lemma_end_reached(base: int, m: Seq<u8>, n: int, start: int)
    requires
        0 <= n <= MAX_REGIONS,
    ensures
        ({
            let top = allocator::highest_end(base, m, n, start);
            &&& start <= top
            &&& forall|slot: int, end: int| #[trigger]
                space_up_to(base, m, slot, end) && slot < n ==> end <= top
            &&& top == start || exists|slot: int| #[trigger] space_up_to(base, m, slot, top)
        }),
    decreases n,
{
    if n > 0 {
        lemma_end_reached(base, m, n - 1, start);
        let e = catalog::entry_of(base, m, n - 1);
        let below = allocator::highest_end(base, m, n - 1, start);
        let top = allocator::highest_end(base, m, n, start);
        if allocator::takes_space(base, m, n - 1) {
            assert(space_up_to(base, m, n - 1, e.offset + e.size));
        }
        if top == below && top != start {
            let slot = choose|slot: int| #[trigger] space_up_to(base, m, slot, below);
            assert(space_up_to(base, m, slot, top));
        }
    }
}

/// Where the next region goes.
proof fn lemma_lowest_place(base: int, m: Seq<u8>)
    ensures
        lowest_place(base, m, allocator::next_offset(base, m)),
        forall|offset: int| #[trigger]
            lowest_place(base, m, offset) ==> offset == allocator::next_offset(base, m),
{
    let start = allocator::data_start(base, m) as int;
    let top = allocator::highest_end(base, m, MAX_REGIONS as int, start);
    lemma_end_reached(base, m, MAX_REGIONS as int, start);
    let place = allocator::next_offset(base, m);
    assert(top <= place < top + 64);
    if top != start {
        let slot = choose|slot: int| #[trigger] space_up_to(base, m, slot, top);
        assert(space_up_to(base, m, slot, top) && top > place - 64);
    }
    assert(lowest_place(base, m, place));
    assert forall|offset: int| #[trigger] lowest_place(base, m, offset) implies offset == place by {
        assert(top <= offset);
        assert(offset < top + 64) by {
            if !(start > offset - 64) {
                let (slot, end) = choose|slot: int, end: int|
                    #[trigger] space_up_to(base, m, slot, end) && end > offset - 64;
                assert(end <= top);
            }
        }
    }
}

/// What an allocation answers. It is refused if the name has more than 24 bytes, if a region
/// in use has it, if no entry is free, or if the region would not fit between its place and
/// the end of the pool; the last refusal says how many bytes there are. Otherwise the region
/// gets the first free entry and the lowest place behind all others.
pub proof fn law_create_answers(
    base: int,
    pool_size: int,
    m: Seq<u8>,
    name: Seq<char>,
    size: u64,
)
    requires
        catalog::catalog_fits(base, m.len()),
        0 <= pool_size,
        base + pool_size <= usize::MAX,
    ensures
        ({
            let result = allocator::create_result(base, pool_size, m, name, size);
            let end = base + pool_size;
            let too_long = encode_utf8(name).len() > 24;
            let taken = exists|r: RegionView| #[trigger] as_stored(base, m, r) && r.name == name;
            let full = forall|s: int|
                0 <= s < MAX_REGIONS ==> (#[trigger] catalog::entry_of(base, m, s)).state
                    != RegionState::Free;
            &&& too_long <==> (result matches Err(AllocFailure::InvalidState { detail }) && detail
                == "name too long: max 24 bytes"@)
            &&& (result matches Err(AllocFailure::InvalidState { .. })) ==> too_long
            &&& !too_long && taken <==> result == Err::<RegionView, AllocFailure>(
                AllocFailure::NameExists { name },
            )
            &&& !too_long && !taken && full <==> result == Err::<RegionView, AllocFailure>(
                AllocFailure::CatalogFull,
            )
            &&& result matches Err(AllocFailure::OutOfSpace { requested, available }) ==> {
                &&& requested == size
                &&& exists|offset: int| #[trigger]
                    lowest_place(base, m, offset) && offset + size > end && available == (if offset
                        <= end {
                        end - offset
                    } else {
                        0
                    })
            }
            &&& result matches Ok(r) ==> {
                &&& r.name == name
                &&& r.size == size
                &&& lowest_place(base, m, r.offset as int)
                &&& r.offset + size <= end
                &&& 0 <= r.slot < MAX_REGIONS
                &&& catalog::entry_of(base, m, r.slot).state == RegionState::Free
                &&& forall|s: int|
                    0 <= s < r.slot ==> (#[trigger] catalog::entry_of(base, m, s)).state
                        != RegionState::Free
            }
            &&& !too_long && !taken && !full && (forall|offset: int| #[trigger]
                lowest_place(base, m, offset) ==> offset + size <= end) ==> result is Ok
        }),
{
    let result = allocator::create_result(base, pool_size, m, name, size);
    law_find_exact(base, m, name);
    lemma_lowest_place(base, m);
    lemma_first_free(base, m, 0);
    let place = allocator::next_offset(base, m);
    assert(0 <= place);
}

proof fn lemma_first_free(base: int, m: Seq<u8>, from: int)
    requires
        0 <= from,
    ensures
        match allocator::free_slot(base, m, from) {
            Some(s) => {
                &&& from <= s < MAX_REGIONS
                &&& catalog::entry_of(base, m, s).state == RegionState::Free
                &&& forall|t: int|
                    from <= t < s ==> (#[trigger] catalog::entry_of(base, m, t)).state
                        != RegionState::Free
            },
            None => forall|t: int|
                from <= t < MAX_REGIONS ==> (#[trigger] catalog::entry_of(base, m, t)).state
                    != RegionState::Free,
        },
    decreases MAX_REGIONS - from,
{
    if from < MAX_REGIONS {
        lemma_first_free(base, m, from + 1);
    }
}

/// Recovery returns how many entries it put in order: the size of the set of entries that
/// were marked as being allocated or being freed. Each of these is free after it; every other
/// entry, the header and the data of the regions stay as they were.
pub proof fn law_recovery_count_exact(base: int, m: Seq<u8>, slot: int)
    requires
        catalog::catalog_fits(base, m.len()),
        0 <= slot < MAX_REGIONS,
    ensures
        ({
            let after = allocator::mended(base, m, MAX_REGIONS as int);
            let at = base + 64 + 64 * slot;
            let unfinished = Set::new(
                |s: int|
                    0 <= s < MAX_REGIONS && (m[base + 64 + 64 * s] == 1 || m[base + 64 + 64 * s]
                        == 3),
            );
            &&& unfinished.finite()
            &&& allocator::unsettled_count(base, m, MAX_REGIONS as int) == unfinished.len()
            &&& after.len() == m.len()
            &&& after[at] == (if m[at] == 1 || m[at] == 3 {
                0u8
            } else {
                m[at]
            })
            &&& mem::agree(after, m, at + 1, at + 64)
            &&& mem::agree(after, m, 0, base + 64)
            &&& mem::agree(after, m, base + CATALOG_SIZE, m.len() as int)
        }),
{
    let unfinished = Set::new(
        |s: int|
            0 <= s < MAX_REGIONS && (m[base + 64 + 64 * s] == 1 || m[base + 64 + 64 * s] == 3),
    );
    lemma_unfinished(base, m, MAX_REGIONS as int, unfinished);
    lemma_mended_bytes(base, m, MAX_REGIONS as int, slot);
}

proof fn lemma_unfinished(base: int, m: Seq<u8>, n: int, unfinished: Set<int>)
    requires
        n <= MAX_REGIONS,
        forall|s: int| #[trigger]
            unfinished.contains(s) <==> 0 <= s < n && (m[base + 64 + 64 * s] == 1 || m[base + 64
                + 64 * s] == 3),
    ensures
        unfinished.finite(),
        unfinished.len() == allocator::unsettled_count(base, m, n),
    decreases n,
{
    if n <= 0 {
        assert(unfinished =~= Set::empty());
    } else {
        let fewer = unfinished.remove(n - 1);
        lemma_unfinished(base, m, n - 1, fewer);
        assert(allocator::unsettled(base, m, n - 1) <==> unfinished.contains(n - 1));
        if unfinished.contains(n - 1) {
            assert(unfinished =~= fewer.insert(n - 1));
        } else {
            assert(unfinished =~= fewer);
        }
    }
}

proof fn lemma_mended_bytes(base: int, m: Seq<u8>, n: int, slot: int)
    requires
        catalog::catalog_fits(base, m.len()),
        0 <= n <= MAX_REGIONS,
        0 <= slot < MAX_REGIONS,
    ensures
        ({
            let after = allocator::mended(base, m, n);
            let at = base + 64 + 64 * slot;
            &&& after.len() == m.len()
            &&& after[at] == (if slot < n && (m[at] == 1 || m[at] == 3) {
                0u8
            } else {
                m[at]
            })
            &&& mem::agree(after, m, at + 1, at + 64)
            &&& mem::agree(after, m, 0, base + 64)
            &&& mem::agree(after, m, base + CATALOG_SIZE, m.len() as int)
        }),
    decreases n,
{
    if n > 0 {
        lemma_mended_bytes(base, m, n - 1, slot);
    }
}

/// A fresh catalog states its magic number, no regions, the size that it manages, and that
/// data starts right behind it; all its entries are zero, and nothing outside it changes.
pub proof fn law_fresh_header(base: int, pool_size: int, m: Seq<u8>)
    requires
        catalog::catalog_fits(base, m.len()),
        CATALOG_SIZE <= pool_size,
        base + pool_size <= usize::MAX,
    ensures
        ({
            let after = allocator::initialized(base, pool_size, m);
            &&& after.len() == m.len()
            &&& mem::u64_at(after, base) == ALLOC_MAGIC
            &&& mem::u64_at(after, base + 8) == 0
            &&& mem::u64_at(after, base + 16) == pool_size
            &&& mem::u64_at(after, base + 24) == base + CATALOG_SIZE
            &&& forall|i: int| base + 64 <= i < base + CATALOG_SIZE ==> #[trigger] after[i] == 0
            &&& mem::agree(after, m, 0, base)
            &&& mem::agree(after, m, base + CATALOG_SIZE, m.len() as int)
        }),
{
    broadcast use mem::group_put;

    lemma_auto_spec_u64_to_from_le_bytes();
    let m1 = mem::put_u64(m, base, ALLOC_MAGIC);
    let m2 = mem::put_u64(m1, base + 8, 0);
    let m3 = mem::put_u64(m2, base + 16, pool_size as u64);
    let m4 = mem::put_u64(m3, base + 24, (base + CATALOG_SIZE) as u64);
    let after = allocator::initialized(base, pool_size, m);
    assert(mem::u64_at(m4, base) == ALLOC_MAGIC);
    assert(mem::u64_at(m4, base + 8) == 0);
    assert(mem::u64_at(m4, base + 16) == pool_size);
    alloc_laws::lemma_emptied(base, m4, MAX_REGIONS as int);
    mem::lemma_agree(after, m4, 0, base + 64);
    assert(mem::agree(m4, m, 0, base));
}

/// What is seen of a catalog that nobody writes to in between is what it holds: the same
/// regions, the same highest end, the same number of unfinished entries.
pub proof fn law_seen_is_stored(base: int, m: Seq<u8>, seen: Seq<Glimpse>, start: int)
    requires
        forall|s: int|
            0 <= s < seen.len() ==> (#[trigger] seen[s]).entry() == catalog::entry_of(base, m, s),
    ensures
        allocator::seen_regions(seen) == allocator::regions(base, m, seen.len() as int),
        allocator::seen_end(seen, start) == allocator::highest_end(
            base,
            m,
            seen.len() as int,
            start,
        ),
        allocator::seen_unsettled(seen) == allocator::unsettled_count(base, m, seen.len() as int),
    decreases seen.len(),
{
    if seen.len() > 0 {
        let less = seen.drop_last();
        assert forall|s: int| 0 <= s < less.len() implies (#[trigger] less[s]).entry()
            == catalog::entry_of(base, m, s) by {
            assert(seen[s] == less[s]);
        }
        law_seen_is_stored(base, m, less, start);
        let last = seen[seen.len() - 1];
        assert(last.entry() == catalog::entry_of(base, m, seen.len() - 1));
        assert(allocator::seen_region(seen, seen.len() - 1) =~= allocator::region_of(
            base,
            m,
            seen.len() - 1,
        ));
    }
}

/// `r` is what was seen of its entry: in use, with the offset and the size that were loaded.
pub open spec fn as_seen(seen: Seq<Glimpse>, r: RegionView) -> bool {
    &&& 0 <= r.slot < seen.len()
    &&& seen[r.slot].state == 2
    &&& r.name == seen[r.slot].entry().name
    &&& r.offset == seen[r.slot].offset
    &&& r.size == seen[r.slot].size
}

/// Whatever other hosts write in between, the list of regions holds exactly those that were
/// seen in use, each as it was seen, in the order of the entries.
pub proof fn law_seen_list_exact(seen: Seq<Glimpse>)
    ensures
        ({
            let list = allocator::seen_regions(seen);
            &&& forall|r: RegionView| #[trigger] list.contains(r) <==> as_seen(seen, r)
            &&& forall|j: int, k: int|
                0 <= j < k < list.len() ==> (#[trigger] list[j]).slot < (#[trigger] list[k]).slot
        }),
    decreases seen.len(),
{
    let list = allocator::seen_regions(seen);
    if seen.len() > 0 {
        let less = seen.drop_last();
        let n = less.len() as int;
        let fewer = allocator::seen_regions(less);
        law_seen_list_exact(less);
        let here = allocator::seen_region(seen, n);
        assert forall|r: RegionView| #[trigger] list.contains(r) <==> as_seen(seen, r) by {
            assert(fewer.contains(r) <==> as_seen(less, r));
            if r.slot == n {
                if as_seen(seen, r) {
                    assert(r =~= here);
                    assert(list[fewer.len() as int] == r);
                }
            } else if as_seen(seen, r) {
                assert(less[r.slot] == seen[r.slot]);
                let k = choose|k: int| 0 <= k < fewer.len() && fewer[k] == r;
                assert(list[k] == r);
            }
            if list.contains(r) {
                let k = choose|k: int| 0 <= k < list.len() && list[k] == r;
                if k < fewer.len() {
                    assert(fewer[k] == r);
                    assert(less[r.slot] == seen[r.slot]);
                }
            }
        }
        assert forall|j: int, k: int| 0 <= j < k < list.len() implies (#[trigger] list[j]).slot < (
        #[trigger] list[k]).slot by {
            assert(list[j] == fewer[j]);
            assert(fewer.contains(fewer[j]));
            if k < fewer.len() {
                assert(list[k] == fewer[k]);
            }
        }
    } else {
        assert forall|r: RegionView| #[trigger] list.contains(r) <==> as_seen(seen, r) by {}
    }
}

/// An allocation leaves the region in its entry, byte by byte, and counts it; no other entry
/// and no byte outside the catalog changes.
pub proof fn law_create_writes(
    base: int,
    pool_size: int,
    m: Seq<u8>,
    name: Seq<char>,
    size: u64,
    other: int,
)
    requires
        catalog::catalog_fits(base, m.len()),
        allocator::create_result(base, pool_size, m, name, size) is Ok,
        0 <= other < MAX_REGIONS,
    ensures
        ({
            let r = allocator::create_result(base, pool_size, m, name, size)->Ok_0;
            let after = allocator::created(base, m, r);
            let at = base + 64 + 64 * r.slot;
            let bytes = encode_utf8(name);
            &&& after.len() == m.len()
            &&& after[at] == 2
            &&& mem::u16_at(after, at + 2) == bytes.len()
            &&& mem::bytes_at(after, at + 4, bytes.len() as int) == bytes
            &&& mem::u64_at(after, at + 32) == r.offset
            &&& mem::u64_at(after, at + 40) == size
            &&& mem::u64_at(after, at + 48) == 0
            &&& mem::u64_at(after, base + 8) == mem::wrapped_sum(mem::u64_at(m, base + 8), 1)
            &&& other != r.slot ==> catalog::entry_of(base, after, other) == catalog::entry_of(
                base,
                m,
                other,
            )
            &&& mem::agree(after, m, 0, base + 8)
            &&& mem::agree(after, m, base + 16, base + 64)
            &&& mem::agree(after, m, base + CATALOG_SIZE, m.len() as int)
        }),
{
    let r = allocator::create_result(base, pool_size, m, name, size)->Ok_0;
    let after = allocator::created(base, m, r);
    let at = base + 64 + 64 * r.slot;
    let bytes = encode_utf8(name);
    alloc_laws::lemma_free_slot(base, m, 0);
    alloc_laws::lemma_created_parts(base, m, r);
    lemma_auto_spec_u64_to_from_le_bytes();
    lemma_auto_spec_u16_to_from_le_bytes();
    let e = catalog::entry_of(base, after, r.slot);
    assert(e == allocator::entry_for(r, RegionState::Active));
    assert(mem::bytes_at(after, at + 4, bytes.len() as int) =~= bytes);
    assert(after.subrange(at + 2, at + 4) =~= spec_u16_to_le_bytes(bytes.len() as u16));
}

/// A free marks the entry of the region as free and counts it off, if anything is counted; all
/// other entries, and all bytes outside the catalog, stay as they were.
pub proof fn law_free_writes(base: int, m: Seq<u8>, name: Seq<char>, other: int)
    requires
        catalog::catalog_fits(base, m.len()),
        allocator::region_named(base, m, name, 0) is Some,
        0 <= other < MAX_REGIONS,
    ensures
        ({
            let slot = allocator::region_named(base, m, name, 0)->0.slot;
            let after = allocator::freed(base, m, slot);
            let count = mem::u64_at(m, base + 8);
            &&& after.len() == m.len()
            &&& after[base + 64 + 64 * slot] == 0
            &&& mem::u64_at(after, base + 8) == (if count > 0 {
                count - 1
            } else {
                0
            })
            &&& other != slot ==> catalog::entry_of(base, after, other) == catalog::entry_of(
                base,
                m,
                other,
            )
            &&& mem::agree(after, m, 0, base + 8)
            &&& mem::agree(after, m, base + 16, base + 64)
            &&& mem::agree(after, m, base + CATALOG_SIZE, m.len() as int)
        }),
{
    allocator::lemma_region_named_slot(base, m, name, 0);
    let slot = allocator::region_named(base, m, name, 0)->0.slot;
    alloc_laws::lemma_freed_parts(base, m, slot);
    lemma_auto_spec_u64_to_from_le_bytes();
    let m1 = mem::put_u8(m, catalog::entry_at(base, slot), 0);
}

/// What contracts say of a region is said of its handle as the caller gets it, and what they
/// say of an error, of that error.
pub proof fn law_regions_shown(handle: RegionHandle, error: AllocError)
    ensures
        ({
            let shown = RegionView {
                slot: handle.slot as int,
                name: handle.name@,
                offset: handle.offset,
                size: handle.size,
            };
            &&& allocator::outcome(Ok(handle)) == Ok::<RegionView, AllocFailure>(shown)
            &&& allocator::found(Ok(handle)) == Some(shown)
        }),
        allocator::outcome(Err(error)) is Err,
        allocator::found(Err(error)) is None,
        allocator::failure(Err::<RegionHandle, AllocError>(error)) == Some(
            match error {
                AllocError::CatalogFull => AllocFailure::CatalogFull,
                AllocError::NameExists { name } => AllocFailure::NameExists { name: name@ },
                AllocError::OutOfSpace { requested, available } => AllocFailure::OutOfSpace {
                    requested,
                    available,
                },
                AllocError::NotFound { name } => AllocFailure::NotFound { name: name@ },
                AllocError::InvalidState { detail } => AllocFailure::InvalidState {
                    detail: detail@,
                },
                AllocError::Backend(e) => AllocFailure::Backend(e),
            },
        ),
        allocator::outcome(Err(error)) == Err::<RegionView, AllocFailure>(
            allocator::failure(Err::<RegionHandle, AllocError>(error))->0,
        ),
        allocator::failure(Ok::<RegionHandle, AllocError>(handle)) is None,
{
}

} // verus!

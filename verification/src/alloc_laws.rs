//! What holds of the region allocator as a whole.
use crate::allocator;
use crate::backend::Access;
use crate::catalog;
use crate::catalog::{
    RegionState, ALLOC_MAGIC, CATALOG_SIZE, CAT_HDR_MAGIC, CAT_HDR_REGION_COUNT,
    CAT_HDR_TOTAL_SIZE, MAX_NAME_LEN, MAX_REGIONS,
};
use crate::memory as mem;
use crate::region::RegionView;
use crate::system;
use vstd::bytes::*;
use vstd::prelude::*;
use vstd::utf8::*;

verus! {

/// No two regions in use have the same name.
pub open spec fn names_distinct(base: int, m: Seq<u8>) -> bool {
    forall|i: int, j: int|
        0 <= i < MAX_REGIONS && 0 <= j < MAX_REGIONS && i != j && #[trigger] allocator::active(
            base,
            m,
            i,
        ) && #[trigger] allocator::active(base, m, j) ==> allocator::region_of(base, m, i).name
            != allocator::region_of(base, m, j).name
}

/// What holds, at rest and after any crash and recovery, of a catalog that is only used
/// through one allocator.
///
/// Regions in use lie behind the catalog and within the pool, start on a multiple of 64, do
/// not overlap, and have distinct names.
pub open spec fn layout_ok(base: int, pool_size: int, m: Seq<u8>) -> bool {
    &&& mem::u64_at(m, base + CAT_HDR_MAGIC) == ALLOC_MAGIC
    &&& allocator::data_start(base, m) == base + CATALOG_SIZE
    &&& names_distinct(base, m)
    &&& forall|i: int|
        0 <= i < MAX_REGIONS && #[trigger] allocator::active(base, m, i) ==> {
            let r = allocator::region_of(base, m, i);
            &&& base + CATALOG_SIZE <= r.offset
            &&& r.offset + r.size <= base + pool_size
            &&& r.offset % 64 == 0
        }
    &&& forall|i: int, j: int|
        0 <= i < MAX_REGIONS && 0 <= j < MAX_REGIONS && i != j && #[trigger] allocator::active(
            base,
            m,
            i,
        ) && #[trigger] allocator::active(base, m, j) ==> {
            let a = allocator::region_of(base, m, i);
            let b = allocator::region_of(base, m, j);
            a.offset + a.size <= b.offset || b.offset + b.size <= a.offset
        }
}

/// What holds of such a catalog at rest: besides, the regions in use are counted. A crash
/// between entry and count leaves a count that is off by one.
pub open spec fn catalog_ok(base: int, pool_size: int, m: Seq<u8>) -> bool {
    &&& layout_ok(base, pool_size, m)
    &&& allocator::region_count(base, m) == allocator::regions(base, m, MAX_REGIONS as int).len()
}

/// Two catalogs have the same regions in use, entry by entry.
spec fn same_regions(base: int, a: Seq<u8>, b: Seq<u8>) -> bool {
    forall|s: int|
        #![trigger allocator::active(base, a, s)]
        #![trigger allocator::active(base, b, s)]
        0 <= s < MAX_REGIONS ==> {
            &&& allocator::active(base, a, s) == allocator::active(base, b, s)
            &&& allocator::active(base, b, s) ==> allocator::region_of(base, a, s)
                == allocator::region_of(base, b, s)
        }
}

/// A catalog with the same regions and the same header, but for the count, is in order too.
proof fn lemma_same_layout(base: int, pool_size: int, a: Seq<u8>, b: Seq<u8>)
    requires
        catalog::catalog_fits(base, a.len()),
        a.len() == b.len(),
        same_regions(base, a, b),
        mem::agree(a, b, base, base + CAT_HDR_REGION_COUNT),
        mem::agree(a, b, base + CAT_HDR_TOTAL_SIZE, base + 64),
        layout_ok(base, pool_size, b),
    ensures
        layout_ok(base, pool_size, a),
{
    mem::lemma_agree(a, b, base, base + CAT_HDR_REGION_COUNT);
    mem::lemma_agree(a, b, base + CAT_HDR_TOTAL_SIZE, base + 64);
}

pub(crate) proof fn lemma_regions_len(base: int, a: Seq<u8>, b: Seq<u8>, n: int, slot: int)
    requires
        0 <= n <= MAX_REGIONS,
        forall|s: int|
            0 <= s < MAX_REGIONS && s != slot ==> #[trigger] catalog::entry_of(base, a, s)
                == catalog::entry_of(base, b, s),
    ensures
        allocator::regions(base, a, n).len() + (if 0 <= slot < n && allocator::active(
            base,
            b,
            slot,
        ) {
            1int
        } else {
            0int
        }) == allocator::regions(base, b, n).len() + (if 0 <= slot < n && allocator::active(
            base,
            a,
            slot,
        ) {
            1int
        } else {
            0int
        }),
        allocator::regions(base, a, n).len() <= n,
    decreases n,
{
    if n > 0 {
        lemma_regions_len(base, a, b, n - 1, slot);
        if n - 1 != slot {
            assert(catalog::entry_of(base, a, n - 1) == catalog::entry_of(base, b, n - 1));
        }
    }
}

/// A catalog whose entries read the same lists the same regions.
proof fn lemma_same_regions(base: int, a: Seq<u8>, b: Seq<u8>, n: int)
    requires
        0 <= n <= MAX_REGIONS,
        same_regions(base, a, b),
    ensures
        allocator::regions(base, a, n) == allocator::regions(base, b, n),
    decreases n,
{
    if n > 0 {
        lemma_same_regions(base, a, b, n - 1);
        assert(allocator::active(base, a, n - 1) == allocator::active(base, b, n - 1));
    }
}

/// What an allocation makes of the catalog, part by part.
pub proof fn lemma_created_parts(base: int, m: Seq<u8>, r: RegionView)
    requires
        catalog::catalog_fits(base, m.len()),
        0 <= r.slot < MAX_REGIONS,
        encode_utf8(r.name).len() <= MAX_NAME_LEN,
    ensures
        ({
            let after = allocator::created(base, m, r);
            &&& after.len() == m.len()
            &&& catalog::entry_of(base, after, r.slot) == allocator::entry_for(
                r,
                RegionState::Active,
            )
            &&& forall|s: int|
                0 <= s < MAX_REGIONS && s != r.slot ==> #[trigger] catalog::entry_of(base, after, s)
                    == catalog::entry_of(base, m, s)
            &&& mem::agree(after, m, 0, base + CAT_HDR_REGION_COUNT)
            &&& mem::agree(after, m, base + CAT_HDR_TOTAL_SIZE, base + 64)
            &&& mem::agree(after, m, base + CATALOG_SIZE, m.len() as int)
            &&& allocator::region_count(base, after) == mem::wrapped_sum(
                allocator::region_count(base, m),
                1,
            )
        }),
{
    lemma_auto_spec_u64_to_from_le_bytes();
    lemma_auto_spec_u16_to_from_le_bytes();
    let e = allocator::entry_for(r, RegionState::Active);
    let entered = catalog::with_entry(base, m, r.slot, e);
    let after = allocator::created(base, m, r);
    let at = catalog::entry_at(base, r.slot);
    catalog::lemma_entry_written(base, m, r.slot, e);
    assert(entered.len() == m.len());
    assert(mem::agree(after, entered, base + 64, m.len() as int));
    allocator::lemma_entry_agree(base, after, entered, r.slot);
    assert forall|s: int| 0 <= s < MAX_REGIONS && s != r.slot implies #[trigger] catalog::entry_of(
        base,
        after,
        s,
    ) == catalog::entry_of(base, m, s) by {
        let t = catalog::entry_at(base, s);
        assert(mem::agree(after, m, t, t + 64));
        allocator::lemma_entry_agree(base, after, m, s);
    }
    mem::lemma_put_then_u64(
        entered,
        base + CAT_HDR_REGION_COUNT,
        mem::wrapped_sum(allocator::region_count(base, m), 1),
    );
}

/// What a free makes of the catalog, part by part.
pub proof fn lemma_freed_parts(base: int, m: Seq<u8>, slot: int)
    requires
        catalog::catalog_fits(base, m.len()),
        0 <= slot < MAX_REGIONS,
    ensures
        ({
            let after = allocator::freed(base, m, slot);
            &&& after.len() == m.len()
            &&& catalog::entry_of(base, after, slot).state == RegionState::Free
            &&& forall|s: int|
                0 <= s < MAX_REGIONS && s != slot ==> #[trigger] catalog::entry_of(base, after, s)
                    == catalog::entry_of(base, m, s)
            &&& mem::agree(after, m, 0, base + CAT_HDR_REGION_COUNT)
            &&& mem::agree(after, m, base + CAT_HDR_TOTAL_SIZE, base + 64)
            &&& mem::agree(after, m, base + CATALOG_SIZE, m.len() as int)
            &&& allocator::region_count(base, after) == (if allocator::region_count(base, m) > 0 {
                (allocator::region_count(base, m) - 1) as u64
            } else {
                0
            })
        }),
{
    lemma_auto_spec_u64_to_from_le_bytes();
    let after = allocator::freed(base, m, slot);
    let at = catalog::entry_at(base, slot);
    let m1 = mem::put_u8(m, at, RegionState::Free.code());
    assert(mem::agree(m1, m, base, base + 64));
    mem::lemma_agree(m1, m, base, base + 64);
    assert(after[at] == 0);
    assert forall|s: int| 0 <= s < MAX_REGIONS && s != slot implies #[trigger] catalog::entry_of(
        base,
        after,
        s,
    ) == catalog::entry_of(base, m, s) by {
        let t = catalog::entry_at(base, s);
        assert(mem::agree(after, m, t, t + 64));
        allocator::lemma_entry_agree(base, after, m, s);
    }
    if allocator::region_count(base, m) > 0 {
        mem::lemma_put_then_u64(
            m1,
            base + CAT_HDR_REGION_COUNT,
            (allocator::region_count(base, m) - 1) as u64,
        );
    }
}

/// What recovery makes of the catalog, part by part.
pub proof fn lemma_mended_parts(base: int, m: Seq<u8>, n: int)
    requires
        catalog::catalog_fits(base, m.len()),
        0 <= n <= MAX_REGIONS,
    ensures
        allocator::mended(base, m, n).len() == m.len(),
        mem::agree(allocator::mended(base, m, n), m, 0, base + 64),
        mem::agree(allocator::mended(base, m, n), m, base + CATALOG_SIZE, m.len() as int),
        forall|s: int|
            0 <= s < MAX_REGIONS ==> #[trigger] catalog::entry_of(
                base,
                allocator::mended(base, m, n),
                s,
            ) == (if s < n && allocator::unsettled(base, m, s) {
                catalog::EntryView {
                    state: RegionState::Free,
                    ..catalog::entry_of(base, m, s)
                }
            } else {
                catalog::entry_of(base, m, s)
            }),
    decreases n,
{
    allocator::lemma_mended_keeps(base, m, n);
    if n > 0 {
        lemma_mended_parts(base, m, n - 1);
        let before = allocator::mended(base, m, n - 1);
        let after = allocator::mended(base, m, n);
        assert forall|s: int| 0 <= s < MAX_REGIONS implies #[trigger] catalog::entry_of(
            base,
            after,
            s,
        ) == (if s < n && allocator::unsettled(base, m, s) {
            catalog::EntryView { state: RegionState::Free, ..catalog::entry_of(base, m, s) }
        } else {
            catalog::entry_of(base, m, s)
        }) by {
            let t = catalog::entry_at(base, s);
            assert(catalog::entry_of(base, before, s) == (if s < n - 1 && allocator::unsettled(
                base,
                m,
                s,
            ) {
                catalog::EntryView { state: RegionState::Free, ..catalog::entry_of(base, m, s) }
            } else {
                catalog::entry_of(base, m, s)
            }));
            if s != n - 1 {
                assert(mem::agree(after, before, t, t + 64));
                allocator::lemma_entry_agree(base, after, before, s);
            } else if allocator::unsettled(base, m, s) {
                assert(mem::agree(after, before, t + 1, t + 64));
                mem::lemma_agree(after, before, t + 1, t + 64);
                assert(after[t] == 0);
            }
        }
    }
}

/// What an emptied catalog looks like.
pub(crate) proof fn lemma_emptied(base: int, m: Seq<u8>, n: int)
    requires
        catalog::catalog_fits(base, m.len()),
        0 <= n <= MAX_REGIONS,
    ensures
        allocator::emptied(base, m, n).len() == m.len(),
        mem::agree(allocator::emptied(base, m, n), m, 0, base + 64),
        mem::agree(
            allocator::emptied(base, m, n),
            m,
            catalog::entry_at(base, n),
            m.len() as int,
        ),
        forall|s: int|
            0 <= s < n ==> #[trigger] catalog::entry_of(
                base,
                allocator::emptied(base, m, n),
                s,
            ).state == RegionState::Free,
        forall|i: int|
            base + 64 <= i < catalog::entry_at(base, n) ==> #[trigger] allocator::emptied(
                base,
                m,
                n,
            )[i] == 0,
    decreases n,
{
    if n > 0 {
        lemma_emptied(base, m, n - 1);
    }
    let after = allocator::emptied(base, m, n);
    assert forall|i: int| base + 64 <= i < catalog::entry_at(base, n) implies #[trigger] after[i]
        == 0 by {
        if i < catalog::entry_at(base, n - 1) {
            assert(allocator::emptied(base, m, n - 1)[i] == 0);
        }
    }
    assert forall|s: int| 0 <= s < n implies #[trigger] catalog::entry_of(base, after, s).state
        == RegionState::Free by {
        assert(after[catalog::entry_at(base, s)] == 0);
    }
}

/// A fresh allocator has no regions, and its catalog is in order.
pub proof fn law_fresh_catalog(base: int, pool_size: int, m: Seq<u8>)
    requires
        catalog::catalog_fits(base, m.len()),
        CATALOG_SIZE <= pool_size,
        base + pool_size <= usize::MAX,
    ensures
        catalog_ok(base, pool_size, allocator::initialized(base, pool_size, m)),
        allocator::regions(
            base,
            allocator::initialized(base, pool_size, m),
            MAX_REGIONS as int,
        ).len() == 0,
{
    broadcast use mem::group_put;

    lemma_auto_spec_u64_to_from_le_bytes();
    let m1 = mem::put_u64(m, base + CAT_HDR_MAGIC, ALLOC_MAGIC);
    let m2 = mem::put_u64(m1, base + CAT_HDR_REGION_COUNT, 0);
    let m3 = mem::put_u64(m2, base + CAT_HDR_TOTAL_SIZE, pool_size as u64);
    let m4 = mem::put_u64(
        m3,
        base + catalog::CAT_HDR_DATA_START,
        (base + CATALOG_SIZE) as u64,
    );
    let after = allocator::initialized(base, pool_size, m);
    assert(mem::u64_at(m4, base + CAT_HDR_MAGIC) == ALLOC_MAGIC);
    assert(mem::u64_at(m4, base + CAT_HDR_REGION_COUNT) == 0);
    assert(mem::u64_at(m4, base + catalog::CAT_HDR_DATA_START) == base + CATALOG_SIZE);
    lemma_emptied(base, m4, MAX_REGIONS as int);
    mem::lemma_agree(after, m4, 0, base + 64);
    assert forall|s: int| 0 <= s < MAX_REGIONS implies !(#[trigger] allocator::active(
        base,
        after,
        s,
    )) by {
        assert(catalog::entry_of(base, after, s).state == RegionState::Free);
    }
    lemma_no_regions(base, after, MAX_REGIONS as int);
}

proof fn lemma_no_regions(base: int, m: Seq<u8>, n: int)
    requires
        0 <= n <= MAX_REGIONS,
        forall|s: int| 0 <= s < MAX_REGIONS ==> !(#[trigger] allocator::active(base, m, s)),
    ensures
        allocator::regions(base, m, n).len() == 0,
    decreases n,
{
    if n > 0 {
        lemma_no_regions(base, m, n - 1);
        assert(!allocator::active(base, m, n - 1));
    }
}

pub(crate) proof fn lemma_free_slot(base: int, m: Seq<u8>, from: int)
    requires
        0 <= from,
    ensures
        allocator::free_slot(base, m, from) matches Some(s) ==> from <= s < MAX_REGIONS
            && catalog::entry_of(base, m, s).state == RegionState::Free,
    decreases MAX_REGIONS - from,
{
    if from < MAX_REGIONS {
        lemma_free_slot(base, m, from + 1);
    }
}

pub(crate) proof fn lemma_region_named_none(base: int, m: Seq<u8>, name: Seq<char>, from: int)
    requires
        0 <= from,
    ensures
        allocator::region_named(base, m, name, from) is None <==> forall|s: int|
            from <= s < MAX_REGIONS && #[trigger] allocator::active(base, m, s)
                ==> allocator::region_of(base, m, s).name != name,
    decreases MAX_REGIONS - from,
{
    if from < MAX_REGIONS {
        lemma_region_named_none(base, m, name, from + 1);
        if allocator::active(base, m, from) && catalog::entry_of(base, m, from).name == name {
            assert(allocator::active(base, m, from));
        }
    }
}

proof fn lemma_highest_end(base: int, m: Seq<u8>, n: int, start: int)
    requires
        0 <= n <= MAX_REGIONS,
    ensures
        start <= allocator::highest_end(base, m, n, start),
        forall|s: int|
            0 <= s < n && #[trigger] allocator::active(base, m, s) ==> allocator::region_of(
                base,
                m,
                s,
            ).offset + allocator::region_of(base, m, s).size <= allocator::highest_end(
                base,
                m,
                n,
                start,
            ),
    decreases n,
{
    if n > 0 {
        lemma_highest_end(base, m, n - 1, start);
    }
}

/// Allocation keeps the layout in order: the new region overlaps no other and lies within
/// the pool.
pub proof fn law_create_keeps_layout_ok(
    base: int,
    pool_size: int,
    m: Seq<u8>,
    name: Seq<char>,
    size: u64,
)
    requires
        catalog::catalog_fits(base, m.len()),
        base + pool_size <= usize::MAX,
        layout_ok(base, pool_size, m),
        allocator::create_result(base, pool_size, m, name, size) is Ok,
    ensures
        ({
            let r = allocator::create_result(base, pool_size, m, name, size)->Ok_0;
            &&& layout_ok(base, pool_size, allocator::created(base, m, r))
            &&& r.offset % 64 == 0
        }),
{
    let r = allocator::create_result(base, pool_size, m, name, size)->Ok_0;
    let after = allocator::created(base, m, r);
    lemma_free_slot(base, m, 0);
    lemma_created_parts(base, m, r);
    lemma_region_named_none(base, m, name, 0);
    lemma_highest_end(base, m, MAX_REGIONS as int, allocator::data_start(base, m) as int);
    mem::lemma_agree(after, m, 0, base + CAT_HDR_REGION_COUNT);
    mem::lemma_agree(after, m, base + CAT_HDR_TOTAL_SIZE, base + 64);
    let end = allocator::highest_end(
        base,
        m,
        MAX_REGIONS as int,
        allocator::data_start(base, m) as int,
    );
    assert(end <= r.offset);
    assert forall|i: int| 0 <= i < MAX_REGIONS && i != r.slot implies allocator::active(base, m, i)
        == #[trigger] allocator::active(base, after, i) && allocator::region_of(base, after, i)
        == allocator::region_of(base, m, i) by {
        assert(catalog::entry_of(base, after, i) == catalog::entry_of(base, m, i));
    }
    assert(allocator::region_of(base, after, r.slot) == r);
    assert forall|i: int, j: int|
        0 <= i < MAX_REGIONS && 0 <= j < MAX_REGIONS && i != j && #[trigger] allocator::active(
            base,
            after,
            i,
        ) && #[trigger] allocator::active(base, after, j) implies {
        let a = allocator::region_of(base, after, i);
        let b = allocator::region_of(base, after, j);
        &&& a.name != b.name
        &&& a.offset + a.size <= b.offset || b.offset + b.size <= a.offset
    } by {
        if i != r.slot {
            assert(allocator::active(base, m, i));
        }
        if j != r.slot {
            assert(allocator::active(base, m, j));
        }
    }
    assert forall|i: int| 0 <= i < MAX_REGIONS && #[trigger] allocator::active(
        base,
        after,
        i,
    ) implies {
        let x = allocator::region_of(base, after, i);
        &&& base + CATALOG_SIZE <= x.offset
        &&& x.offset + x.size <= base + pool_size
        &&& x.offset % 64 == 0
    } by {
        if i != r.slot {
            assert(allocator::active(base, m, i));
        }
    }
}

/// Allocation keeps the catalog in order.
pub proof fn law_create_keeps_catalog_ok(
    base: int,
    pool_size: int,
    m: Seq<u8>,
    name: Seq<char>,
    size: u64,
)
    requires
        catalog::catalog_fits(base, m.len()),
        base + pool_size <= usize::MAX,
        catalog_ok(base, pool_size, m),
        allocator::create_result(base, pool_size, m, name, size) is Ok,
    ensures
        ({
            let r = allocator::create_result(base, pool_size, m, name, size)->Ok_0;
            catalog_ok(base, pool_size, allocator::created(base, m, r))
        }),
{
    let r = allocator::create_result(base, pool_size, m, name, size)->Ok_0;
    let after = allocator::created(base, m, r);
    law_create_keeps_layout_ok(base, pool_size, m, name, size);
    lemma_free_slot(base, m, 0);
    lemma_created_parts(base, m, r);
    lemma_regions_len(base, after, m, MAX_REGIONS as int, r.slot);
    lemma_regions_len(base, m, after, MAX_REGIONS as int, r.slot);
}

/// A region that was allocated is found by its name; all others stay as they were.
pub proof fn law_create_then_find(
    base: int,
    pool_size: int,
    m: Seq<u8>,
    name: Seq<char>,
    size: u64,
    other: Seq<char>,
)
    requires
        catalog::catalog_fits(base, m.len()),
        allocator::create_result(base, pool_size, m, name, size) is Ok,
    ensures
        ({
            let r = allocator::create_result(base, pool_size, m, name, size)->Ok_0;
            let after = allocator::created(base, m, r);
            allocator::region_named(base, after, other, 0) == (if other == name {
                Some(r)
            } else {
                allocator::region_named(base, m, other, 0)
            })
        }),
{
    let r = allocator::create_result(base, pool_size, m, name, size)->Ok_0;
    lemma_free_slot(base, m, 0);
    lemma_created_parts(base, m, r);
    lemma_region_named_none(base, m, name, 0);
    lemma_find_after_create(base, m, r, other, 0);
}

proof fn lemma_find_after_create(
    base: int,
    m: Seq<u8>,
    r: RegionView,
    other: Seq<char>,
    from: int,
)
    requires
        catalog::catalog_fits(base, m.len()),
        0 <= from <= MAX_REGIONS,
        0 <= r.slot < MAX_REGIONS,
        encode_utf8(r.name).len() <= MAX_NAME_LEN,
        !allocator::active(base, m, r.slot),
        forall|s: int|
            0 <= s < MAX_REGIONS && #[trigger] allocator::active(base, m, s)
                ==> allocator::region_of(base, m, s).name != r.name,
    ensures
        allocator::region_named(base, allocator::created(base, m, r), other, from) == (if other
            == r.name && from <= r.slot {
            Some(r)
        } else {
            allocator::region_named(base, m, other, from)
        }),
    decreases MAX_REGIONS - from,
{
    lemma_created_parts(base, m, r);
    let after = allocator::created(base, m, r);
    lemma_region_named_none(base, m, r.name, from);
    if from < MAX_REGIONS {
        lemma_find_after_create(base, m, r, other, from + 1);
        if from != r.slot {
            assert(catalog::entry_of(base, after, from) == catalog::entry_of(base, m, from));
            assert(allocator::active(base, m, from) ==> allocator::region_of(base, m, from).name
                != r.name);
        } else {
            assert(allocator::region_of(base, after, from) =~= r);
        }
    }
}

/// A free keeps the layout in order.
pub proof fn law_free_keeps_layout_ok(base: int, pool_size: int, m: Seq<u8>, name: Seq<char>)
    requires
        catalog::catalog_fits(base, m.len()),
        layout_ok(base, pool_size, m),
        allocator::region_named(base, m, name, 0) is Some,
    ensures
        layout_ok(
            base,
            pool_size,
            allocator::freed(base, m, allocator::region_named(base, m, name, 0)->0.slot),
        ),
{
    allocator::lemma_region_named_slot(base, m, name, 0);
    let slot = allocator::region_named(base, m, name, 0)->0.slot;
    let after = allocator::freed(base, m, slot);
    lemma_freed_parts(base, m, slot);
    mem::lemma_agree(after, m, 0, base + CAT_HDR_REGION_COUNT);
    mem::lemma_agree(after, m, base + CAT_HDR_TOTAL_SIZE, base + 64);
    assert forall|i: int| 0 <= i < MAX_REGIONS && i != slot implies allocator::active(base, m, i)
        == #[trigger] allocator::active(base, after, i) && allocator::region_of(base, after, i)
        == allocator::region_of(base, m, i) by {
        assert(catalog::entry_of(base, after, i) == catalog::entry_of(base, m, i));
    }
    assert forall|i: int, j: int|
        0 <= i < MAX_REGIONS && 0 <= j < MAX_REGIONS && i != j && #[trigger] allocator::active(
            base,
            after,
            i,
        ) && #[trigger] allocator::active(base, after, j) implies {
        let a = allocator::region_of(base, after, i);
        let b = allocator::region_of(base, after, j);
        &&& a.name != b.name
        &&& a.offset + a.size <= b.offset || b.offset + b.size <= a.offset
    } by {
        assert(allocator::active(base, m, i));
        assert(allocator::active(base, m, j));
    }
    assert forall|i: int| 0 <= i < MAX_REGIONS && #[trigger] allocator::active(
        base,
        after,
        i,
    ) implies {
        let x = allocator::region_of(base, after, i);
        &&& base + CATALOG_SIZE <= x.offset
        &&& x.offset + x.size <= base + pool_size
        &&& x.offset % 64 == 0
    } by {
        assert(allocator::active(base, m, i));
    }
}

/// A free keeps the catalog in order.
pub proof fn law_free_keeps_catalog_ok(base: int, pool_size: int, m: Seq<u8>, name: Seq<char>)
    requires
        catalog::catalog_fits(base, m.len()),
        catalog_ok(base, pool_size, m),
        allocator::region_named(base, m, name, 0) is Some,
    ensures
        catalog_ok(
            base,
            pool_size,
            allocator::freed(base, m, allocator::region_named(base, m, name, 0)->0.slot),
        ),
{
    allocator::lemma_region_named_slot(base, m, name, 0);
    let slot = allocator::region_named(base, m, name, 0)->0.slot;
    law_free_keeps_layout_ok(base, pool_size, m, name);
    lemma_freed_parts(base, m, slot);
    lemma_regions_len(base, allocator::freed(base, m, slot), m, MAX_REGIONS as int, slot);
}

/// A region that was freed is no longer found; all others stay as they were. Its entry can
/// be used again.
pub proof fn law_free_then_find(base: int, m: Seq<u8>, name: Seq<char>, slot: int)
    requires
        catalog::catalog_fits(base, m.len()),
        names_distinct(base, m),
        allocator::region_named(base, m, name, 0) is Some,
        0 <= slot < MAX_REGIONS,
    ensures
        ({
            let gone = allocator::region_named(base, m, name, 0)->0.slot;
            let after = allocator::freed(base, m, gone);
            &&& allocator::region_named(base, after, name, 0) is None
            &&& catalog::entry_of(base, after, gone).state == RegionState::Free
            &&& slot != gone ==> catalog::entry_of(base, after, slot) == catalog::entry_of(
                base,
                m,
                slot,
            )
        }),
{
    allocator::lemma_region_named_slot(base, m, name, 0);
    let gone = allocator::region_named(base, m, name, 0)->0.slot;
    let after = allocator::freed(base, m, gone);
    lemma_freed_parts(base, m, gone);
    lemma_region_named_none(base, after, name, 0);
    assert forall|s: int| 0 <= s < MAX_REGIONS && #[trigger] allocator::active(
        base,
        after,
        s,
    ) implies allocator::region_of(base, after, s).name != name by {
        assert(catalog::entry_of(base, after, s) == catalog::entry_of(base, m, s) || s == gone);
        assert(allocator::active(base, m, s));
        assert(allocator::active(base, m, gone));
    }
}

/// After recovery every entry is free or in use, and the regions in use are those of before.
pub proof fn law_recovery_settles(base: int, m: Seq<u8>, slot: int)
    requires
        catalog::catalog_fits(base, m.len()),
        0 <= slot < MAX_REGIONS,
    ensures
        ({
            let after = allocator::mended(base, m, MAX_REGIONS as int);
            &&& !allocator::unsettled(base, after, slot)
            &&& allocator::active(base, after, slot) == allocator::active(base, m, slot)
            &&& allocator::region_of(base, after, slot) == allocator::region_of(base, m, slot)
            &&& allocator::regions(base, after, MAX_REGIONS as int) == allocator::regions(
                base,
                m,
                MAX_REGIONS as int,
            )
        }),
{
    let n = MAX_REGIONS as int;
    lemma_mended_parts(base, m, n);
    let after = allocator::mended(base, m, n);
    assert forall|s: int| 0 <= s < MAX_REGIONS implies {
        &&& allocator::active(base, after, s) == #[trigger] allocator::active(base, m, s)
        &&& allocator::region_of(base, after, s) == allocator::region_of(base, m, s)
    } by {
        assert(catalog::entry_of(base, after, s).name == catalog::entry_of(base, m, s).name);
    }
    lemma_same_regions(base, after, m, n);
    assert(allocator::active(base, after, slot) == allocator::active(base, m, slot));
}

/// Recovery keeps the layout in order.
pub proof fn law_recovery_keeps_layout_ok(base: int, pool_size: int, m: Seq<u8>)
    requires
        catalog::catalog_fits(base, m.len()),
        layout_ok(base, pool_size, m),
    ensures
        layout_ok(base, pool_size, allocator::mended(base, m, MAX_REGIONS as int)),
{
    let n = MAX_REGIONS as int;
    let after = allocator::mended(base, m, n);
    lemma_mended_parts(base, m, n);
    lemma_mended_same(base, m);
    lemma_same_layout(base, pool_size, after, m);
}

/// Recovery leaves the regions in use alone.
proof fn lemma_mended_same(base: int, m: Seq<u8>)
    requires
        catalog::catalog_fits(base, m.len()),
    ensures
        same_regions(base, allocator::mended(base, m, MAX_REGIONS as int), m),
{
    let after = allocator::mended(base, m, MAX_REGIONS as int);
    assert forall|s: int|
        #![trigger allocator::active(base, after, s)]
        #![trigger allocator::active(base, m, s)]
        0 <= s < MAX_REGIONS implies {
        &&& allocator::active(base, after, s) == allocator::active(base, m, s)
        &&& allocator::active(base, m, s) ==> allocator::region_of(base, after, s)
            == allocator::region_of(base, m, s)
    } by {
        law_recovery_settles(base, m, s);
    }
}

/// Recovery keeps the catalog in order.
pub proof fn law_recovery_keeps_catalog_ok(base: int, pool_size: int, m: Seq<u8>)
    requires
        catalog::catalog_fits(base, m.len()),
        catalog_ok(base, pool_size, m),
    ensures
        catalog_ok(base, pool_size, allocator::mended(base, m, MAX_REGIONS as int)),
{
    let n = MAX_REGIONS as int;
    let after = allocator::mended(base, m, n);
    law_recovery_keeps_layout_ok(base, pool_size, m);
    lemma_mended_parts(base, m, n);
    mem::lemma_agree(after, m, 0, base + 64);
    law_recovery_settles(base, m, 0);
}

/// Recovery is idempotent: a second run changes nothing and puts nothing in order.
pub proof fn law_recovery_idempotent(base: int, m: Seq<u8>)
    requires
        catalog::catalog_fits(base, m.len()),
    ensures
        ({
            let n = MAX_REGIONS as int;
            let once = allocator::mended(base, m, n);
            &&& allocator::mended(base, once, n) == once
            &&& allocator::unsettled_count(base, once, n) == 0
        }),
{
    let n = MAX_REGIONS as int;
    let once = allocator::mended(base, m, n);
    assert forall|s: int| 0 <= s < MAX_REGIONS implies !(#[trigger] allocator::unsettled(
        base,
        once,
        s,
    )) by {
        law_recovery_settles(base, m, s);
    }
    lemma_settled(base, once, n);
}

proof fn lemma_settled(base: int, m: Seq<u8>, n: int)
    requires
        0 <= n <= MAX_REGIONS,
        forall|s: int| 0 <= s < MAX_REGIONS ==> !(#[trigger] allocator::unsettled(base, m, s)),
    ensures
        allocator::mended(base, m, n) == m,
        allocator::unsettled_count(base, m, n) == 0,
    decreases n,
{
    if n > 0 {
        lemma_settled(base, m, n - 1);
        assert(!allocator::unsettled(base, m, n - 1));
    }
}

/// The contents of memory after the given accesses.
pub open spec fn contents(m: Seq<u8>, accesses: Seq<Access>) -> Seq<u8>
    decreases accesses.len(),
{
    if accesses.len() == 0 {
        m
    } else {
        accesses.last().apply(contents(m, accesses.drop_last()))
    }
}

/// `d` is what the medium may hold after the given accesses, if it held `m` before, as
/// memory did: written bytes may have arrived or not, flushed ones have.
pub open spec fn may_hold(m: Seq<u8>, accesses: Seq<Access>, d: Seq<u8>) -> bool
    decreases accesses.len(),
{
    if accesses.len() == 0 {
        d == m
    } else {
        exists|before: Seq<u8>| #[trigger]
            arrives(before, contents(m, accesses), accesses.last(), d) && may_hold(
                m,
                accesses.drop_last(),
                before,
            )
    }
}

/// The medium may go from `before` to `d` by access `a`, after which memory holds `m`.
pub open spec fn arrives(before: Seq<u8>, m: Seq<u8>, a: Access, d: Seq<u8>) -> bool {
    &&& system::seeps(before, m, d)
    &&& a matches Access::Flush { offset, len } ==> mem::agree(d, m, offset, offset + len)
}

proof fn lemma_before(m: Seq<u8>, accesses: Seq<Access>, d: Seq<u8>) -> (before: Seq<u8>)
    requires
        accesses.len() > 0,
        may_hold(m, accesses, d),
    ensures
        arrives(before, contents(m, accesses), accesses.last(), d),
        may_hold(m, accesses.drop_last(), before),
        contents(m, accesses) == accesses.last().apply(contents(m, accesses.drop_last())),
{
    choose|before: Seq<u8>| #[trigger]
        arrives(before, contents(m, accesses), accesses.last(), d) && may_hold(
            m,
            accesses.drop_last(),
            before,
        )
}

/// The fields of an entry, once written, are those of the entry.
proof fn lemma_field_contents(base: int, m: Seq<u8>, slot: int, e: catalog::EntryView)
    requires
        catalog::catalog_fits(base, m.len()),
        0 <= slot < MAX_REGIONS,
    ensures
        ({
            let at = catalog::entry_at(base, slot);
            let after = contents(m, catalog::field_accesses(base, slot, e));
            &&& after.len() == m.len()
            &&& mem::agree(after, catalog::with_entry(base, m, slot, e), at + 1, at + 64)
        }),
{
    lemma_auto_spec_u64_to_from_le_bytes();
    lemma_auto_spec_u16_to_from_le_bytes();
    let at = catalog::entry_at(base, slot);
    let name = catalog::stored_name(e.name);
    let all = catalog::field_accesses(base, slot, e);
    let n = all.len() as int;
    let s4 = all.drop_last();
    let s3 = s4.drop_last();
    let s2 = s3.drop_last();
    reveal_with_fuel(contents, 6);
    if name.len() > 0 {
        let s1 = s2.drop_last();
        assert(s1.drop_last().len() == 0);
    } else {
        assert(s2.drop_last().len() == 0);
    }
}

/// Every access that writes a field of an entry stays within the entry, past its state.
proof fn lemma_field_footprints(base: int, slot: int, e: catalog::EntryView)
    ensures
        forall|i: int|
            0 <= i < catalog::field_accesses(base, slot, e).len() ==> {
                let a = #[trigger] catalog::field_accesses(base, slot, e)[i];
                &&& catalog::entry_at(base, slot) + 1 <= system::footprint(a).0
                &&& system::footprint(a).1 <= catalog::entry_at(base, slot) + 64
                &&& !(a is Flush)
            },
{
    lemma_auto_spec_u64_to_from_le_bytes();
    lemma_auto_spec_u16_to_from_le_bytes();
}

/// Where memory `mm` and medium `d` may stand after `q` accesses of an allocation.
spec fn create_progress(base: int, m: Seq<u8>, r: RegionView, q: int, mm: Seq<u8>, d: Seq<u8>) -> bool {
    let at = catalog::entry_at(base, r.slot);
    let e = allocator::entry_for(r, RegionState::Allocating);
    let n = catalog::field_accesses(base, r.slot, e).len();
    &&& mm.len() == m.len()
    &&& d.len() == m.len()
    &&& forall|i: int|
        #![trigger mm[i]]
        #![trigger d[i]]
        0 <= i < m.len() && !(at <= i < at + 64) && !(base + 8 <= i < base + 16) ==> mm[i] == m[i]
            && d[i] == m[i]
    &&& q <= n + 1 ==> mm[at] == m[at] && d[at] == m[at]
    &&& q >= n ==> mem::agree(mm, catalog::with_entry(base, m, r.slot, e), at + 1, at + 64)
    &&& q > n ==> mem::agree(d, mm, at + 1, at + 64)
    &&& n + 2 <= q <= n + 3 ==> mm[at] == 1
    &&& q == n + 2 ==> d[at] == m[at] || d[at] == 1
    &&& q == n + 3 ==> d[at] == 1
    &&& q >= n + 4 ==> mm[at] == 2 && (d[at] == 1 || d[at] == 2)
}

#[verifier::spinoff_prover]
proof fn lemma_create_progress(
    base: int,
    m: Seq<u8>,
    r: RegionView,
    count: u64,
    q: int,
    d: Seq<u8>,
)
    requires
        catalog::catalog_fits(base, m.len()),
        0 <= r.slot < MAX_REGIONS,
        0 <= q <= allocator::create_script(base, r, count).len(),
        may_hold(m, allocator::create_script(base, r, count).take(q), d),
    ensures
        create_progress(
            base,
            m,
            r,
            q,
            contents(m, allocator::create_script(base, r, count).take(q)),
            d,
        ),
    decreases q,
{
    lemma_auto_spec_u64_to_from_le_bytes();
    let script = allocator::create_script(base, r, count);
    let at = catalog::entry_at(base, r.slot);
    let e = allocator::entry_for(r, RegionState::Allocating);
    let fields = catalog::field_accesses(base, r.slot, e);
    let n = fields.len() as int;
    let done = script.take(q);
    if q == 0 {
        lemma_field_footprints(base, r.slot, e);
        assert(n > 0);
    } else {
        assert(done.drop_last() =~= script.take(q - 1));
        let a = script[q - 1];
        assert(done.last() == a);
        let mm = contents(m, done);
        let before_mm = contents(m, script.take(q - 1));
        let before = lemma_before(m, done, d);
        lemma_create_progress(base, m, r, count, q - 1, before);
        assert(mm == a.apply(before_mm));
        lemma_field_footprints(base, r.slot, e);
        if q <= n {
            assert(a == fields[q - 1]);
            system::lemma_apply_frame(a, before_mm, 0, at + 1);
            system::lemma_apply_frame(a, before_mm, at + 64, m.len() as int);
        }
        if q == n {
            assert(script.take(n) =~= fields);
            lemma_field_contents(base, m, r.slot, e);
        }
        assert(mm.len() == m.len());
        assert forall|i: int|
            #![trigger mm[i]]
            #![trigger d[i]]
            0 <= i < m.len() && !(at <= i < at + 64) && !(base + 8 <= i < base + 16) implies mm[i]
            == m[i] && d[i] == m[i] by {
            assert(before_mm[i] == m[i] && before[i] == m[i]);
            assert(d[i] == before[i] || d[i] == mm[i]);
        }
        assert(d[at] == before[at] || d[at] == mm[at]);
        if q > n + 1 {
            assert(mem::agree(d, mm, at + 1, at + 64)) by {
                assert forall|i: int| at + 1 <= i < at + 64 implies #[trigger] d[i] == mm[i] by {
                    assert(before[i] == before_mm[i]);
                    assert(mm[i] == before_mm[i]);
                }
            }
        }
    }
}

/// Two catalogs whose entries other than `slot` have the same bytes have the same regions,
/// if they agree on `slot`.
proof fn lemma_listed(base: int, d: Seq<u8>, after: Seq<u8>, slot: int)
    requires
        catalog::catalog_fits(base, d.len()),
        after.len() == d.len(),
        0 <= slot < MAX_REGIONS,
        forall|i: int|
            base + 64 <= i < base + CATALOG_SIZE && !(catalog::entry_at(base, slot) <= i
                < catalog::entry_at(base, slot) + 64) ==> #[trigger] d[i] == after[i],
        allocator::active(base, d, slot) == allocator::active(base, after, slot),
        allocator::active(base, d, slot) ==> allocator::region_of(base, d, slot)
            == allocator::region_of(base, after, slot),
    ensures
        same_regions(base, d, after),
{
    assert forall|s: int|
        #![trigger allocator::active(base, d, s)]
        #![trigger allocator::active(base, after, s)]
        0 <= s < MAX_REGIONS implies {
        &&& allocator::active(base, d, s) == allocator::active(base, after, s)
        &&& allocator::active(base, after, s) ==> allocator::region_of(base, d, s)
            == allocator::region_of(base, after, s)
    } by {
        if s != slot {
            let t = catalog::entry_at(base, s);
            assert(mem::agree(d, after, t, t + 64));
            allocator::lemma_entry_agree(base, d, after, s);
        }
    }
}

/// What is on the medium after a crash in an allocation has the regions of before or those
/// and the new one; its header is that of before, but for the count.
proof fn lemma_create_crash(
    base: int,
    m: Seq<u8>,
    r: RegionView,
    count: u64,
    q: int,
    d: Seq<u8>,
)
    requires
        catalog::catalog_fits(base, m.len()),
        0 <= r.slot < MAX_REGIONS,
        encode_utf8(r.name).len() <= MAX_NAME_LEN,
        catalog::entry_of(base, m, r.slot).state == RegionState::Free,
        0 <= q <= allocator::create_script(base, r, count).len(),
        may_hold(m, allocator::create_script(base, r, count).take(q), d),
    ensures
        d.len() == m.len(),
        mem::agree(d, m, 0, base + CAT_HDR_REGION_COUNT),
        mem::agree(d, m, base + CAT_HDR_TOTAL_SIZE, base + 64),
        same_regions(base, d, m) || same_regions(base, d, allocator::created(base, m, r)),
{
    let at = catalog::entry_at(base, r.slot);
    let e = allocator::entry_for(r, RegionState::Allocating);
    lemma_create_progress(base, m, r, count, q, d);
    let mm = contents(m, allocator::create_script(base, r, count).take(q));
    assert(mem::agree(d, m, 0, base + CAT_HDR_REGION_COUNT));
    assert(mem::agree(d, m, base + CAT_HDR_TOTAL_SIZE, base + 64));
    assert forall|i: int|
        base + 64 <= i < base + CATALOG_SIZE && !(at <= i < at + 64) implies #[trigger] d[i]
        == m[i] by {
        assert(mm[i] == m[i]);
    }
    if d[at] == 2 {
        let entered = catalog::with_entry(base, m, r.slot, allocator::entry_for(r, RegionState::Active));
        let whole = allocator::created(base, m, r);
        lemma_created_parts(base, m, r);
        lemma_auto_spec_u64_to_from_le_bytes();
        lemma_auto_spec_u16_to_from_le_bytes();
        assert forall|i: int| base + 64 <= i < base + CATALOG_SIZE implies #[trigger] d[i]
            == whole[i] by {
            if at + 1 <= i < at + 64 {
                assert(d[i] == mm[i]);
                assert(mm[i] == catalog::with_entry(base, m, r.slot, e)[i]);
                assert(entered[i] == catalog::with_entry(base, m, r.slot, e)[i]);
            }
        }
        assert(mem::agree(d, whole, at, at + 64));
        allocator::lemma_entry_agree(base, d, whole, r.slot);
        lemma_listed(base, d, whole, r.slot);
    } else {
        lemma_listed(base, d, m, r.slot);
    }
}
/// Allocation is atomic with respect to crashes: wherever in it a crash falls, and whatever
/// had reached the medium by then, recovery leaves either the regions of before or those
/// and the new one, complete.
pub proof fn law_create_survives_crash(
    base: int,
    m: Seq<u8>,
    r: RegionView,
    count: u64,
    q: int,
    d: Seq<u8>,
)
    requires
        catalog::catalog_fits(base, m.len()),
        0 <= r.slot < MAX_REGIONS,
        encode_utf8(r.name).len() <= MAX_NAME_LEN,
        catalog::entry_of(base, m, r.slot).state == RegionState::Free,
        0 <= q <= allocator::create_script(base, r, count).len(),
        may_hold(m, allocator::create_script(base, r, count).take(q), d),
    ensures
        ({
            let n = MAX_REGIONS as int;
            let after = allocator::mended(base, d, n);
            ||| allocator::regions(base, after, n) == allocator::regions(base, m, n)
            ||| allocator::regions(base, after, n) == allocator::regions(
                base,
                allocator::created(base, m, r),
                n,
            )
        }),
{
    let n = MAX_REGIONS as int;
    lemma_create_crash(base, m, r, count, q, d);
    law_recovery_settles(base, d, r.slot);
    if same_regions(base, d, m) {
        lemma_same_regions(base, d, m, n);
    } else {
        lemma_same_regions(base, d, allocator::created(base, m, r), n);
    }
}

/// The layout survives a crash in an allocation: what recovery makes of the medium is in
/// order, and the allocator can go on with it.
pub proof fn law_layout_survives_crash_in_create(
    base: int,
    pool_size: int,
    m: Seq<u8>,
    name: Seq<char>,
    size: u64,
    count: u64,
    q: int,
    d: Seq<u8>,
)
    requires
        catalog::catalog_fits(base, m.len()),
        base + pool_size <= usize::MAX,
        layout_ok(base, pool_size, m),
        allocator::create_result(base, pool_size, m, name, size) matches Ok(r) && 0 <= q
            <= allocator::create_script(base, r, count).len() && may_hold(
            m,
            allocator::create_script(base, r, count).take(q),
            d,
        ),
    ensures
        layout_ok(base, pool_size, allocator::mended(base, d, MAX_REGIONS as int)),
{
    let r = allocator::create_result(base, pool_size, m, name, size)->Ok_0;
    let whole = allocator::created(base, m, r);
    lemma_free_slot(base, m, 0);
    lemma_create_crash(base, m, r, count, q, d);
    if same_regions(base, d, m) {
        lemma_same_layout(base, pool_size, d, m);
    } else {
        law_create_keeps_layout_ok(base, pool_size, m, name, size);
        lemma_created_parts(base, m, r);
        lemma_same_layout(base, pool_size, d, whole);
    }
    law_recovery_keeps_layout_ok(base, pool_size, d);
}

/// Where memory `mm` and medium `d` may stand after `q` accesses of a free.
spec fn free_progress(base: int, m: Seq<u8>, slot: int, q: int, mm: Seq<u8>, d: Seq<u8>) -> bool {
    let at = catalog::entry_at(base, slot);
    &&& mm.len() == m.len()
    &&& d.len() == m.len()
    &&& forall|i: int|
        #![trigger mm[i]]
        #![trigger d[i]]
        0 <= i < m.len() && i != at && !(base + 8 <= i < base + 16) ==> mm[i] == m[i] && d[i]
            == m[i]
    &&& q == 0 ==> mm[at] == m[at] && d[at] == m[at]
    &&& q == 1 ==> mm[at] == 3 && (d[at] == m[at] || d[at] == 3)
    &&& q == 2 ==> mm[at] == 3 && d[at] == 3
    &&& q >= 3 ==> mm[at] == 0 && (d[at] == 3 || d[at] == 0)
}

proof fn lemma_free_progress(base: int, m: Seq<u8>, slot: int, count: u64, q: int, d: Seq<u8>)
    requires
        catalog::catalog_fits(base, m.len()),
        0 <= slot < MAX_REGIONS,
        0 <= q <= allocator::free_script(base, slot, count).len(),
        may_hold(m, allocator::free_script(base, slot, count).take(q), d),
    ensures
        free_progress(
            base,
            m,
            slot,
            q,
            contents(m, allocator::free_script(base, slot, count).take(q)),
            d,
        ),
    decreases q,
{
    lemma_auto_spec_u64_to_from_le_bytes();
    let script = allocator::free_script(base, slot, count);
    let at = catalog::entry_at(base, slot);
    let done = script.take(q);
    if q > 0 {
        assert(done.drop_last() =~= script.take(q - 1));
        let a = script[q - 1];
        assert(done.last() == a);
        let mm = contents(m, done);
        let before_mm = contents(m, script.take(q - 1));
        let before = lemma_before(m, done, d);
        lemma_free_progress(base, m, slot, count, q - 1, before);
        assert(mm == a.apply(before_mm));
        assert forall|i: int|
            #![trigger mm[i]]
            #![trigger d[i]]
            0 <= i < m.len() && i != at && !(base + 8 <= i < base + 16) implies mm[i] == m[i]
            && d[i] == m[i] by {
            assert(before_mm[i] == m[i] && before[i] == m[i]);
            assert(d[i] == before[i] || d[i] == mm[i]);
        }
        assert(d[at] == before[at] || d[at] == mm[at]);
    }
}

/// What is on the medium after a crash in a free has the regions of before or those without
/// the freed one; its header is that of before, but for the count.
proof fn lemma_free_crash(base: int, m: Seq<u8>, slot: int, count: u64, q: int, d: Seq<u8>)
    requires
        catalog::catalog_fits(base, m.len()),
        0 <= slot < MAX_REGIONS,
        allocator::active(base, m, slot),
        0 <= q <= allocator::free_script(base, slot, count).len(),
        may_hold(m, allocator::free_script(base, slot, count).take(q), d),
    ensures
        d.len() == m.len(),
        mem::agree(d, m, 0, base + CAT_HDR_REGION_COUNT),
        mem::agree(d, m, base + CAT_HDR_TOTAL_SIZE, base + 64),
        same_regions(base, d, m) || same_regions(base, d, allocator::freed(base, m, slot)),
{
    let at = catalog::entry_at(base, slot);
    lemma_free_progress(base, m, slot, count, q, d);
    let mm = contents(m, allocator::free_script(base, slot, count).take(q));
    assert(mem::agree(d, m, 0, base + CAT_HDR_REGION_COUNT));
    assert(mem::agree(d, m, base + CAT_HDR_TOTAL_SIZE, base + 64));
    assert forall|i: int| base + 64 <= i < base + CATALOG_SIZE && i != at implies #[trigger] d[i]
        == m[i] by {
        assert(mm[i] == m[i]);
    }
    if d[at] == m[at] {
        assert(mem::agree(d, m, at, at + 64));
        allocator::lemma_entry_agree(base, d, m, slot);
        lemma_listed(base, d, m, slot);
    } else {
        let after = allocator::freed(base, m, slot);
        lemma_freed_parts(base, m, slot);
        assert forall|i: int|
            base + 64 <= i < base + CATALOG_SIZE && !(at <= i < at + 64) implies #[trigger] d[i]
            == after[i] by {
            lemma_auto_spec_u64_to_from_le_bytes();
        }
        lemma_listed(base, d, after, slot);
    }
}

/// A free is atomic with respect to crashes: wherever in it a crash falls, recovery leaves
/// either the regions of before or those without the freed one.
pub proof fn law_free_survives_crash(
    base: int,
    m: Seq<u8>,
    slot: int,
    count: u64,
    q: int,
    d: Seq<u8>,
)
    requires
        catalog::catalog_fits(base, m.len()),
        0 <= slot < MAX_REGIONS,
        allocator::active(base, m, slot),
        0 <= q <= allocator::free_script(base, slot, count).len(),
        may_hold(m, allocator::free_script(base, slot, count).take(q), d),
    ensures
        ({
            let n = MAX_REGIONS as int;
            let after = allocator::mended(base, d, n);
            ||| allocator::regions(base, after, n) == allocator::regions(base, m, n)
            ||| allocator::regions(base, after, n) == allocator::regions(
                base,
                allocator::freed(base, m, slot),
                n,
            )
        }),
{
    let n = MAX_REGIONS as int;
    lemma_free_crash(base, m, slot, count, q, d);
    law_recovery_settles(base, d, slot);
    if same_regions(base, d, m) {
        lemma_same_regions(base, d, m, n);
    } else {
        lemma_same_regions(base, d, allocator::freed(base, m, slot), n);
    }
}

/// The layout survives a crash in a free: what recovery makes of the medium is in order, and
/// the allocator can go on with it.
pub proof fn law_layout_survives_crash_in_free(
    base: int,
    pool_size: int,
    m: Seq<u8>,
    name: Seq<char>,
    count: u64,
    q: int,
    d: Seq<u8>,
)
    requires
        catalog::catalog_fits(base, m.len()),
        layout_ok(base, pool_size, m),
        allocator::region_named(base, m, name, 0) matches Some(r) && 0 <= q
            <= allocator::free_script(base, r.slot, count).len() && may_hold(
            m,
            allocator::free_script(base, r.slot, count).take(q),
            d,
        ),
    ensures
        layout_ok(base, pool_size, allocator::mended(base, d, MAX_REGIONS as int)),
{
    allocator::lemma_region_named_slot(base, m, name, 0);
    let slot = allocator::region_named(base, m, name, 0)->0.slot;
    lemma_free_crash(base, m, slot, count, q, d);
    if same_regions(base, d, m) {
        lemma_same_layout(base, pool_size, d, m);
    } else {
        law_free_keeps_layout_ok(base, pool_size, m, name);
        lemma_freed_parts(base, m, slot);
        lemma_same_layout(base, pool_size, d, allocator::freed(base, m, slot));
    }
    law_recovery_keeps_layout_ok(base, pool_size, d);
}

} // verus!

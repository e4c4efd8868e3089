//! The catalog of the region allocator.
//!
//! The catalog lies at a fixed offset of the pool and lists all regions: a header, then one
//! entry of one cacheline per region. Each change of an entry's state is flushed on its own.
use crate::backend::{Access, MemOrder, MemoryBackend};
use crate::memory as mem;
use vstd::bytes::*;
use vstd::prelude::*;
use vstd::slice::*;
use vstd::string::*;
use vstd::utf8::*;

verus! {

/// Magic number of the catalog: "FENCE_AL".
pub const ALLOC_MAGIC: u64 = 0x46454E43455F414C;

/// Size of the catalog header (one cacheline).
pub const CATALOG_HEADER_SIZE: usize = 64;

/// Size of a catalog entry (one cacheline).
pub const CATALOG_ENTRY_SIZE: usize = 64;

/// Maximum length of a region name in bytes.
pub const MAX_NAME_LEN: usize = 24;

/// Number of entries in the catalog.
pub const MAX_REGIONS: usize = 256;

/// Size of header and entries together.
pub const CATALOG_SIZE: usize = 16448;

/// Life cycle of a region: free, allocating, active, freeing, free.
///
/// After a crash, an allocation that did not finish is rolled back, and a free that did not
/// finish is completed: both end up free.
#[derive(Debug, Clone, Copy, PartialEq, Eq, Structural)]
pub enum RegionState {
    /// The entry is unused.
    Free,
    /// Allocation in progress.
    Allocating,
    /// The region is in use.
    Active,
    /// Free in progress.
    Freeing,
}

impl RegionState {
    /// The byte that stands for the state.
    pub open spec fn code(self) -> u8 {
        match self {
            RegionState::Free => 0,
            RegionState::Allocating => 1,
            RegionState::Active => 2,
            RegionState::Freeing => 3,
        }
    }

    /// The byte that stands for the state.
    pub fn to_u8(self) -> (val: u8)
        ensures
            val == self.code(),
    {
        match self {
            RegionState::Free => 0,
            RegionState::Allocating => 1,
            RegionState::Active => 2,
            RegionState::Freeing => 3,
        }
    }

    /// The state that a byte stands for.
    pub fn from_u8(val: u8) -> (state: Option<Self>)
        ensures
            state matches Some(s) ==> s.code() == val,
            state is None <==> val > 3,
    {
        match val {
            0 => Some(RegionState::Free),
            1 => Some(RegionState::Allocating),
            2 => Some(RegionState::Active),
            3 => Some(RegionState::Freeing),
            _ => None,
        }
    }
}

/// The state that a byte of the catalog stands for; an unknown byte counts as free.
pub open spec fn state_from(val: u8) -> RegionState {
    if val == 1 {
        RegionState::Allocating
    } else if val == 2 {
        RegionState::Active
    } else if val == 3 {
        RegionState::Freeing
    } else {
        RegionState::Free
    }
}

/// The catalog header, field by field.
#[derive(Debug, Clone, Copy)]
pub struct CatalogHeader {
    /// [`ALLOC_MAGIC`].
    pub magic: u64,
    /// Number of regions.
    pub region_count: u64,
    /// Number of bytes managed.
    pub total_pool_size: u64,
    /// Where region data starts, after the catalog.
    pub data_start_offset: u64,
}

/// Offset of the magic number within the catalog header.
pub const CAT_HDR_MAGIC: usize = 0;

/// Offset of the region count within the catalog header.
pub const CAT_HDR_REGION_COUNT: usize = 8;

/// Offset of the managed size within the catalog header.
pub const CAT_HDR_TOTAL_SIZE: usize = 16;

/// Offset of the data start within the catalog header.
pub const CAT_HDR_DATA_START: usize = 24;

/// A catalog entry.
#[derive(Debug, Clone)]
pub struct CatalogEntry {
    /// Where the region stands in its life cycle.
    pub state: RegionState,
    /// Name of the region.
    pub name: String,
    /// Absolute byte offset of the region's data in the pool.
    pub offset: u64,
    /// Size of the region in bytes.
    pub size: u64,
    /// Epoch in which the region was allocated.
    pub created_epoch: u64,
}

/// A catalog entry, as it stands in contracts.
#[verifier::ext_equal]
pub struct EntryView {
    pub state: RegionState,
    pub name: Seq<char>,
    pub offset: u64,
    pub size: u64,
    pub created_epoch: u64,
}

impl View for CatalogEntry {
    type V = EntryView;

    open spec fn view(&self) -> EntryView {
        EntryView {
            state: self.state,
            name: self.name@,
            offset: self.offset,
            size: self.size,
            created_epoch: self.created_epoch,
        }
    }
}

/// Offset of the state (one byte) within an entry.
pub const ENT_STATE: usize = 0;

/// Offset of the name's length (16 bits) within an entry.
pub const ENT_NAME_LEN: usize = 2;

/// Offset of the name (24 bytes) within an entry.
pub const ENT_NAME: usize = 4;

/// Offset of the region's offset within an entry.
pub const ENT_OFFSET: usize = 32;

/// Offset of the region's size within an entry.
pub const ENT_SIZE: usize = 40;

/// Offset of the epoch within an entry.
pub const ENT_EPOCH: usize = 48;

/// Where entry `index` of the catalog at `base` starts.
pub open spec fn entry_at(base: int, index: int) -> int {
    base + 64 + index * 64
}

/// Byte offset of entry `index` of the catalog at `base`.
pub fn entry_offset(base: usize, index: usize) -> (offset: usize)
    requires
        base + 64 + index * 64 <= usize::MAX,
    ensures
        offset == entry_at(base as int, index as int),
        offset == base + CATALOG_HEADER_SIZE + index * 64,
{
    base + CATALOG_HEADER_SIZE + index * CATALOG_ENTRY_SIZE
}

/// What `String::from_utf8_lossy` makes of a byte string.
pub uninterp spec fn decoded_lossy(bytes: Seq<u8>) -> Seq<char>;

/// Decodes UTF-8 with `String::from_utf8_lossy`.
///
/// Trusted: the result depends on the bytes alone, and valid UTF-8 is decoded faithfully.
/// What replaces invalid sequences is left unsaid.
#[verifier::external_body]
fn decode_lossy(bytes: &[u8]) -> (text: String)
    ensures
        text@ == decoded_lossy(bytes@),
        valid_utf8(bytes@) ==> text@ == decode_utf8(bytes@),
{
    String::from_utf8_lossy(bytes).to_string()
}

/// The text that a byte string stands for.
pub open spec fn decoded(bytes: Seq<u8>) -> Seq<char> {
    if valid_utf8(bytes) {
        decode_utf8(bytes)
    } else {
        decoded_lossy(bytes)
    }
}

/// The name in an entry that says it has `len` bytes of name.
pub open spec fn entry_name(m: Seq<u8>, at: int, len: u16) -> Seq<char> {
    if 0 < len <= MAX_NAME_LEN {
        decoded(mem::bytes_at(m, at + ENT_NAME, len as int))
    } else {
        Seq::empty()
    }
}

/// Entry `index` of the catalog at `base`.
pub open spec fn entry_of(base: int, m: Seq<u8>, index: int) -> EntryView {
    let at = entry_at(base, index);
    EntryView {
        state: state_from(m[at + ENT_STATE]),
        name: entry_name(m, at, mem::u16_at(m, at + ENT_NAME_LEN)),
        offset: mem::u64_at(m, at + ENT_OFFSET),
        size: mem::u64_at(m, at + ENT_SIZE),
        created_epoch: mem::u64_at(m, at + ENT_EPOCH),
    }
}

/// Memory of `len` bytes holds a catalog at `base`.
pub open spec fn catalog_fits(base: int, len: nat) -> bool {
    &&& 0 <= base
    &&& base % 8 == 0
    &&& base + CATALOG_SIZE <= len
    &&& len <= usize::MAX
}

/// The accesses in a stretch of a trace that are not loads.
pub open spec fn writes(accesses: Seq<Access>) -> Seq<Access>
    decreases accesses.len(),
{
    if accesses.len() == 0 {
        Seq::empty()
    } else if accesses.last().is_load() {
        writes(accesses.drop_last())
    } else {
        writes(accesses.drop_last()).push(accesses.last())
    }
}

/// Between the traces `before` and `after`, the pool was looked at in some way, and
/// otherwise exactly the accesses of `script` were made, in that order.
#[verifier::opaque]
pub open spec fn carries_out(before: Seq<Access>, after: Seq<Access>, script: Seq<Access>) -> bool {
    &&& before.len() <= after.len()
    &&& after.subrange(0, before.len() as int) == before
    &&& writes(after.subrange(before.len() as int, after.len() as int)) == script
}

pub(crate) proof fn lemma_script_start(trace: Seq<Access>)
    ensures
        carries_out(trace, trace, Seq::empty()),
{
    reveal(carries_out);
    assert(trace.subrange(0, trace.len() as int) =~= trace);
}

pub(crate) proof fn lemma_script_next(
    before: Seq<Access>,
    after: Seq<Access>,
    script: Seq<Access>,
    a: Access,
)
    requires
        carries_out(before, after, script),
    ensures
        a.is_load() ==> carries_out(before, after.push(a), script),
        !a.is_load() ==> carries_out(before, after.push(a), script.push(a)),
{
    reveal(carries_out);
    let n = before.len() as int;
    let new = after.push(a);
    assert(new.subrange(0, n) =~= after.subrange(0, n));
    let part = new.subrange(n, new.len() as int);
    assert(part.drop_last() =~= after.subrange(n, after.len() as int));
    assert(part.last() == a);
}

pub(crate) proof fn lemma_script_more(
    before: Seq<Access>,
    after: Seq<Access>,
    script: Seq<Access>,
    more: Seq<Access>,
)
    requires
        carries_out(before, after, script),
        forall|i: int| 0 <= i < more.len() ==> !(#[trigger] more[i]).is_load(),
    ensures
        carries_out(before, after + more, script + more),
    decreases more.len(),
{
    if more.len() == 0 {
        assert(after + more =~= after);
        assert(script + more =~= script);
    } else {
        let less = more.drop_last();
        lemma_script_more(before, after, script, less);
        lemma_script_next(before, after + less, script + less, more.last());
        assert((after + less).push(more.last()) =~= after + more);
        assert((script + less).push(more.last()) =~= script + more);
    }
}

/// A catalog entry as it was loaded, with the bytes of its name and of that name's length.
#[verifier::ext_equal]
pub struct Glimpse {
    pub state: u8,
    pub len: Seq<u8>,
    pub name: Seq<u8>,
    pub offset: u64,
    pub size: u64,
    pub created_epoch: u64,
}

impl Glimpse {
    /// The length that the entry says its name has.
    pub open spec fn name_len(self) -> u16 {
        spec_u16_from_le_bytes(self.len)
    }

    /// The entry says it has a name, of a length that there is room for.
    pub open spec fn named(self) -> bool {
        0 < self.name_len() <= MAX_NAME_LEN
    }

    /// What was loaded has the right lengths; of an entry without a name, no name was loaded.
    pub open spec fn wf(self) -> bool {
        &&& self.len.len() == 2
        &&& self.name.len() == (if self.named() {
            self.name_len() as int
        } else {
            0
        })
    }

    /// The entry that was loaded.
    pub open spec fn entry(self) -> EntryView {
        EntryView {
            state: state_from(self.state),
            name: if self.named() {
                decoded(self.name)
            } else {
                Seq::empty()
            },
            offset: self.offset,
            size: self.size,
            created_epoch: self.created_epoch,
        }
    }
}

/// The accesses that load entry `index`, with what they load.
pub open spec fn entry_loads(base: int, index: int, seen: Glimpse) -> Seq<Access> {
    let at = entry_at(base, index);
    let order = MemOrder::Relaxed;
    let start = seq![
        Access::LoadU8 { offset: at + ENT_STATE, order: MemOrder::Acquire, value: seen.state },
        Access::Read { offset: at + ENT_NAME_LEN, bytes: seen.len },
    ];
    let named = if seen.named() {
        start.push(Access::Read { offset: at + ENT_NAME, bytes: seen.name })
    } else {
        start
    };
    named.push(Access::LoadU64 { offset: at + ENT_OFFSET, order, value: seen.offset }).push(
        Access::LoadU64 { offset: at + ENT_SIZE, order, value: seen.size },
    ).push(Access::LoadU64 { offset: at + ENT_EPOCH, order, value: seen.created_epoch })
}

/// From the trace `before` to `after`, entry `index` was loaded as `seen`.
pub open spec fn sees(
    base: int,
    index: int,
    before: Seq<Access>,
    after: Seq<Access>,
    seen: Glimpse,
) -> bool {
    seen.wf() && after == before + entry_loads(base, index, seen)
}

/// The accesses that load the first entries in turn, with what they load.
pub open spec fn scan_loads(base: int, seen: Seq<Glimpse>) -> Seq<Access>
    decreases seen.len(),
{
    if seen.len() == 0 {
        Seq::empty()
    } else {
        scan_loads(base, seen.drop_last()) + entry_loads(base, seen.len() - 1, seen.last())
    }
}

/// Loading one entry more continues a scan.
pub(crate) proof fn lemma_scan_next(
    base: int,
    before: Seq<Access>,
    mid: Seq<Access>,
    after: Seq<Access>,
    seen: Seq<Glimpse>,
    more: Glimpse,
)
    requires
        mid == before + scan_loads(base, seen),
        sees(base, seen.len() as int, mid, after, more),
    ensures
        after == before + scan_loads(base, seen.push(more)),
{
    assert(seen.push(more).drop_last() =~= seen);
    assert(after =~= before + scan_loads(base, seen.push(more)));
}

/// Loading entries only looks at the pool.
pub(crate) proof fn lemma_scan_looks(base: int, seen: Seq<Glimpse>)
    ensures
        forall|i: int|
            0 <= i < scan_loads(base, seen).len() ==> (#[trigger] scan_loads(
                base,
                seen,
            )[i]).is_load(),
    decreases seen.len(),
{
    if seen.len() > 0 {
        lemma_scan_looks(base, seen.drop_last());
        let before = scan_loads(base, seen.drop_last());
        let all = scan_loads(base, seen);
        assert forall|i: int| 0 <= i < all.len() implies (#[trigger] all[i]).is_load() by {
            if i < before.len() {
                assert(all[i] == before[i]);
            } else {
                assert(all[i] == entry_loads(base, seen.len() - 1, seen.last())[i - before.len()]);
            }
        }
    }
}

/// Looking at the pool adds nothing to what was carried out.
pub(crate) proof fn lemma_script_looks(
    before: Seq<Access>,
    after: Seq<Access>,
    script: Seq<Access>,
    looks: Seq<Access>,
)
    requires
        carries_out(before, after, script),
        forall|i: int| 0 <= i < looks.len() ==> (#[trigger] looks[i]).is_load(),
    ensures
        carries_out(before, after + looks, script),
    decreases looks.len(),
{
    if looks.len() == 0 {
        assert(after + looks =~= after);
    } else {
        let less = looks.drop_last();
        lemma_script_looks(before, after, script, less);
        lemma_script_next(before, after + less, script, looks.last());
        assert((after + less).push(looks.last()) =~= after + looks);
    }
}

/// Reads entry `index` of the catalog at `base`.
pub fn read_entry<B: MemoryBackend>(backend: &mut B, base: usize, index: usize) -> (entry:
    CatalogEntry)
    requires
        catalog_fits(base as int, old(backend).view().bytes.len()),
        index < MAX_REGIONS,
    ensures
        final(backend).view().bytes.len() == old(backend).view().bytes.len(),
        final(backend).view().exclusive == old(backend).view().exclusive,
        exists|seen: Glimpse|
            entry@ == seen.entry() && #[trigger] sees(
                base as int,
                index as int,
                old(backend).view().trace,
                final(backend).view().trace,
                seen,
            ),
        old(backend).view().exclusive ==> {
            &&& entry@ == entry_of(base as int, old(backend).view().bytes, index as int)
            &&& final(backend).view().bytes == old(backend).view().bytes
        },
{
    let ghost v0 = backend.view();
    let at: usize = entry_offset(base, index);
    let state_byte: u8 = backend.load_u8(at + ENT_STATE, MemOrder::Acquire);
    let state: RegionState = match RegionState::from_u8(state_byte) {
        Some(state) => state,
        None => RegionState::Free,
    };
    let mut len_bytes: [u8; 2] = [0u8; 2];
    backend.read(at + ENT_NAME_LEN, &mut len_bytes);
    let name_len: u16 = u16_from_le_bytes(len_bytes.as_slice());
    let ghost mut name_bytes: Seq<u8> = Seq::empty();
    let name: String = if name_len > 0 && name_len as usize <= MAX_NAME_LEN {
        let mut buf: Vec<u8> = vec![0u8; name_len as usize];
        backend.read(at + ENT_NAME, buf.as_mut_slice());
        proof {
            name_bytes = buf@;
        }
        decode_lossy(buf.as_slice())
    } else {
        String::new()
    };
    let offset: u64 = backend.load_u64(at + ENT_OFFSET, MemOrder::Relaxed);
    let size: u64 = backend.load_u64(at + ENT_SIZE, MemOrder::Relaxed);
    let created_epoch: u64 = backend.load_u64(at + ENT_EPOCH, MemOrder::Relaxed);
    let entry = CatalogEntry { state, name, offset, size, created_epoch };
    proof {
        let seen = Glimpse {
            state: state_byte,
            len: len_bytes@,
            name: name_bytes,
            offset,
            size,
            created_epoch,
        };
        assert(entry@ =~= seen.entry());
        assert(backend.view().trace =~= v0.trace + entry_loads(base as int, index as int, seen));
        assert(sees(base as int, index as int, v0.trace, backend.view().trace, seen));
        if v0.exclusive {
            assert(entry@ =~= entry_of(base as int, v0.bytes, index as int));
        }
    }
    entry
}

/// The bytes of a name that an entry holds: the first 24 at most.
pub open spec fn stored_name(name: Seq<char>) -> Seq<u8> {
    let bytes = encode_utf8(name);
    if bytes.len() <= MAX_NAME_LEN {
        bytes
    } else {
        bytes.subrange(0, MAX_NAME_LEN as int)
    }
}

/// The accesses that write everything but the state of an entry.
pub open spec fn field_accesses(base: int, index: int, e: EntryView) -> Seq<Access> {
    let at = entry_at(base, index);
    let name = stored_name(e.name);
    let order = MemOrder::Relaxed;
    let start = seq![
        Access::Write { offset: at + ENT_NAME_LEN, bytes: spec_u16_to_le_bytes(name.len() as u16) },
    ];
    let named = if name.len() > 0 {
        start.push(Access::Write { offset: at + ENT_NAME, bytes: name })
    } else {
        start
    };
    named.push(Access::StoreU64 { offset: at + ENT_OFFSET, order, value: e.offset }).push(
        Access::StoreU64 { offset: at + ENT_SIZE, order, value: e.size },
    ).push(Access::StoreU64 { offset: at + ENT_EPOCH, order, value: e.created_epoch })
}

/// The accesses that write an entry: everything but the state, flushed; then the state,
/// flushed.
pub open spec fn entry_accesses(base: int, index: int, e: EntryView) -> Seq<Access> {
    let at = entry_at(base, index);
    field_accesses(base, index, e).push(Access::Flush { offset: at, len: 64 }).push(
        Access::StoreU8 {
            offset: at + ENT_STATE,
            order: MemOrder::Release,
            value: e.state.code(),
        },
    ).push(Access::Flush { offset: at, len: 64 })
}

pub(crate) proof fn lemma_entry_accesses_write(base: int, index: int, e: EntryView)
    ensures
        forall|i: int|
            0 <= i < entry_accesses(base, index, e).len() ==> !(#[trigger] entry_accesses(
                base,
                index,
                e,
            )[i]).is_load(),
{
}

/// The pool with entry `index` written.
pub open spec fn with_entry(base: int, m: Seq<u8>, index: int, e: EntryView) -> Seq<u8> {
    let at = entry_at(base, index);
    let name = stored_name(e.name);
    let m = mem::put(m, at + ENT_NAME_LEN, spec_u16_to_le_bytes(name.len() as u16));
    let m = mem::put(m, at + ENT_NAME, name);
    let m = mem::put_u64(m, at + ENT_OFFSET, e.offset);
    let m = mem::put_u64(m, at + ENT_SIZE, e.size);
    let m = mem::put_u64(m, at + ENT_EPOCH, e.created_epoch);
    mem::put_u8(m, at + ENT_STATE, e.state.code())
}

/// Writes entry `index` of the catalog at `base`, its state last.
#[verifier::spinoff_prover]
pub fn write_entry<B: MemoryBackend>(
    backend: &mut B,
    base: usize,
    index: usize,
    entry: &CatalogEntry,
)
    requires
        catalog_fits(base as int, old(backend).view().bytes.len()),
        index < MAX_REGIONS,
    ensures
        final(backend).view().bytes.len() == old(backend).view().bytes.len(),
        final(backend).view().exclusive == old(backend).view().exclusive,
        final(backend).view().trace == old(backend).view().trace + entry_accesses(
            base as int,
            index as int,
            entry@,
        ),
        old(backend).view().exclusive ==> final(backend).view().bytes == with_entry(
            base as int,
            old(backend).view().bytes,
            index as int,
            entry@,
        ),
{
    let ghost v0 = backend.view();
    let at: usize = entry_offset(base, index);
    let name_bytes: &[u8] = entry.name.as_str().as_bytes();
    let name_len: usize = if name_bytes.len() <= MAX_NAME_LEN {
        name_bytes.len()
    } else {
        MAX_NAME_LEN
    };
    let stored: &[u8] = slice_subrange(name_bytes, 0, name_len);
    assert(stored@ =~= stored_name(entry.name@));
    let len_bytes: Vec<u8> = u16_to_le_bytes(name_len as u16);
    backend.write(at + ENT_NAME_LEN, len_bytes.as_slice());
    let ghost v1 = backend.view();
    if name_len > 0 {
        backend.write(at + ENT_NAME, stored);
    }
    proof {
        if v0.exclusive {
            assert(backend.view().bytes =~= mem::put(v1.bytes, at + ENT_NAME, stored@));
        }
    }
    backend.store_u64(at + ENT_OFFSET, entry.offset, MemOrder::Relaxed);
    backend.store_u64(at + ENT_SIZE, entry.size, MemOrder::Relaxed);
    backend.store_u64(at + ENT_EPOCH, entry.created_epoch, MemOrder::Relaxed);
    backend.flush(at, CATALOG_ENTRY_SIZE);
    backend.store_u8(at + ENT_STATE, entry.state.to_u8(), MemOrder::Release);
    backend.flush(at, CATALOG_ENTRY_SIZE);
    assert(backend.view().trace =~= v0.trace + entry_accesses(base as int, index as int, entry@));
}

/// A name short enough to be stored in full is read back as it was written.
pub proof fn lemma_entry_written(base: int, m: Seq<u8>, index: int, e: EntryView)
    requires
        catalog_fits(base, m.len()),
        0 <= index < MAX_REGIONS,
        encode_utf8(e.name).len() <= MAX_NAME_LEN,
    ensures
        entry_of(base, with_entry(base, m, index, e), index) == e,
{
    broadcast use mem::group_put;

    lemma_auto_spec_u64_to_from_le_bytes();
    lemma_auto_spec_u16_to_from_le_bytes();
    let at = entry_at(base, index);
    let after = with_entry(base, m, index, e);
    let name = stored_name(e.name);
    encode_utf8_valid_utf8(e.name);
    encode_utf8_decode_utf8(e.name);
    assert(after.subrange(at + ENT_NAME_LEN, at + ENT_NAME_LEN + 2) =~= spec_u16_to_le_bytes(
        name.len() as u16,
    ));
    assert(mem::bytes_at(after, at + ENT_NAME, name.len() as int) =~= name);
}

/// The bytes that stand for states: each state has its own, and any other byte counts as free.
pub proof fn law_state_bytes(state: RegionState, val: u8)
    ensures
        state_from(state.code()) == state,
        state_from(val).code() == val || (val > 3 && state_from(val) == RegionState::Free),
        RegionState::Free.code() == 0,
        RegionState::Allocating.code() == 1,
        RegionState::Active.code() == 2,
        RegionState::Freeing.code() == 3,
{
}

/// Where everything lies in an entry: state, length of the name, name (its first 24 bytes, if
/// it has more), offset, size, epoch. Writing an entry leaves all other bytes alone.
pub proof fn law_entry_bytes(base: int, m: Seq<u8>, index: int, e: EntryView)
    requires
        catalog_fits(base, m.len()),
        0 <= index < MAX_REGIONS,
    ensures
        ({
            let after = with_entry(base, m, index, e);
            let at = base + 64 + 64 * index;
            let bytes = encode_utf8(e.name);
            let len = if bytes.len() <= 24 {
                bytes.len() as int
            } else {
                24
            };
            &&& after.len() == m.len()
            &&& after[at] == e.state.code()
            &&& mem::u16_at(after, at + 2) == len
            &&& mem::bytes_at(after, at + 4, len) == bytes.take(len)
            &&& mem::u64_at(after, at + 32) == e.offset
            &&& mem::u64_at(after, at + 40) == e.size
            &&& mem::u64_at(after, at + 48) == e.created_epoch
            &&& mem::agree(after, m, 0, at)
            &&& mem::agree(after, m, at + 64, m.len() as int)
        }),
{
    broadcast use mem::group_put;

    lemma_auto_spec_u64_to_from_le_bytes();
    lemma_auto_spec_u16_to_from_le_bytes();
    let at = entry_at(base, index);
    let after = with_entry(base, m, index, e);
    let name = stored_name(e.name);
    assert(name =~= encode_utf8(e.name).take(name.len() as int));
    assert(after.subrange(at + ENT_NAME_LEN, at + ENT_NAME_LEN + 2) =~= spec_u16_to_le_bytes(
        name.len() as u16,
    ));
    assert(mem::bytes_at(after, at + ENT_NAME, name.len() as int) =~= name);
}

/// What an entry says, told from the bytes of the pool: a state that is not known counts as
/// free, and a name of no length, or of more than 24 bytes, counts as none.
pub proof fn law_entry_read(base: int, m: Seq<u8>, index: int)
    ensures
        ({
            let at = base + 64 + 64 * index;
            let e = entry_of(base, m, index);
            let len = mem::u16_at(m, at + 2);
            let bytes = mem::bytes_at(m, at + 4, len as int);
            &&& m[at] <= 3 ==> e.state.code() == m[at]
            &&& m[at] > 3 ==> e.state == RegionState::Free
            &&& len == 0 || len > 24 ==> e.name.len() == 0
            &&& 0 < len <= 24 && valid_utf8(bytes) ==> e.name == decode_utf8(bytes)
            &&& e.offset == mem::u64_at(m, at + 32)
            &&& e.size == mem::u64_at(m, at + 40)
            &&& e.created_epoch == mem::u64_at(m, at + 48)
        }),
{
}

} // verus!

//! The runtime engine: append, read, trim, recover.
//!
//! A [`FenceRuntime`] owns a backend and runs the lock-free log protocol on it:
//! - append: claim a slot, write and flush the record, commit it, move the tail on;
//! - read: check against the committed tail, load the record, verify its checksum;
//! - trim: abandon old records;
//! - recover: abandon what a crash left unfinished.
//!
//! Every operation has two guarantees. Whatever other hosts do meanwhile, its accesses
//! follow the protocol (see [`crate::protocol`]). On a pool that this host has to itself,
//! its effect and result are those of [`crate::pool`].
use crate::backend;
use crate::backend::{Access, MemOrder, MemoryBackend, MemoryView};
use crate::checksum;
use crate::compaction;
use crate::compaction::TrimResult;
use crate::error::FenceError;
use crate::layout;
use crate::layout::{
    PoolGeometry, CACHELINE, HDR_CAPACITY, HDR_COMMITTED_TAIL, HDR_EPOCH, HDR_MAGIC, HDR_MAX_HOSTS,
    HDR_RECORD_SIZE, HDR_RESERVE_TAIL, HEADER_SIZE, MAGIC, RECORD_META_SIZE, REC_CHECKSUM,
    REC_DATA_LEN, REC_INDEX, REC_STATE, REC_TERM, REC_WRITER_ID, STATE_COMMITTED, STATE_WRITING,
};
use crate::memory as mem;
use crate::metrics;
use crate::metrics::PoolStats;
use crate::pool;
use crate::pool::RecordView;
use crate::protocol;
use crate::protocol::{Call, FieldsFor, Outcome, Pc, SweepFor};
use crate::record;
use crate::record::Record;
use crate::recovery;
use crate::recovery::RecoveryReport;
use vstd::bytes::*;
use vstd::prelude::*;

verus! {

/// The pool after the accesses before `stage` that write the record of an append (see
/// [`protocol::fill_access`]).
spec fn filled_to(
    g: PoolGeometry,
    m: Seq<u8>,
    slot: u64,
    host: u16,
    term: u64,
    data: Seq<u8>,
    stage: int,
) -> Seq<u8>
    decreases stage,
{
    if stage <= 0 {
        m
    } else {
        protocol::fill_access(g, host, term, data, slot, stage - 1).apply(
            filled_to(g, m, slot, host, term, data, stage - 1),
        )
    }
}

/// Between `pre` and `post`, the record of an append was written up to `stage`.
spec fn fills(
    g: PoolGeometry,
    slot: u64,
    host: u16,
    term: u64,
    data: Seq<u8>,
    pre: MemoryView,
    post: MemoryView,
    stage: int,
) -> bool {
    &&& post.bytes.len() == pre.bytes.len()
    &&& post.exclusive == pre.exclusive
    &&& protocol::reaches(
        g,
        Call::Append { host, term, data },
        pre.trace,
        post.trace,
        Pc::Fill { slot, stage: 0 },
        if stage < 10 {
            Pc::Fill { slot, stage }
        } else {
            Pc::SweepLoad { goal: SweepFor::Append { slot }, lost: 0 }
        },
    )
    &&& pre.exclusive ==> post.bytes == filled_to(g, pre.bytes, slot, host, term, data, stage)
}

/// The next access that writes a record takes it one stage further.
proof fn lemma_fills_next(
    g: PoolGeometry,
    slot: u64,
    host: u16,
    term: u64,
    data: Seq<u8>,
    pre: MemoryView,
    mid: MemoryView,
    post: MemoryView,
    stage: int,
)
    requires
        0 <= stage <= 9,
        stage == 4 ==> data.len() > 0,
        fills(g, slot, host, term, data, pre, mid, stage),
        backend::performs(mid, post, protocol::fill_access(g, host, term, data, slot, stage)),
    ensures
        fills(g, slot, host, term, data, pre, post, stage + 1),
{
    protocol::lemma_reaches_next(
        g,
        Call::Append { host, term, data },
        pre.trace,
        mid.trace,
        Pc::Fill { slot, stage: 0 },
        Pc::Fill { slot, stage },
        protocol::fill_access(g, host, term, data, slot, stage),
    );
}

/// After the length of an empty payload, the payload counts as written.
proof fn lemma_fills_empty(
    g: PoolGeometry,
    slot: u64,
    host: u16,
    term: u64,
    data: Seq<u8>,
    pre: MemoryView,
    mid: MemoryView,
    post: MemoryView,
)
    requires
        g.fits(pre.bytes.len()),
        slot < g.capacity,
        data.len() == 0,
        fills(g, slot, host, term, data, pre, mid, 4),
        backend::performs(mid, post, protocol::fill_access(g, host, term, data, slot, 4)),
    ensures
        fills(g, slot, host, term, data, pre, post, 6),
{
    protocol::lemma_reaches_next(
        g,
        Call::Append { host, term, data },
        pre.trace,
        mid.trace,
        Pc::Fill { slot, stage: 0 },
        Pc::Fill { slot, stage: 4 },
        protocol::fill_access(g, host, term, data, slot, 4),
    );
    layout::law_layout(g);
    let at = g.record_at(slot as int);
    if pre.exclusive {
        reveal_with_fuel(filled_to, 3);
        assert(mem::put(post.bytes, at + layout::REC_PAYLOAD, data) =~= post.bytes);
    }
}

/// What all the accesses do together. That the slot was marked as being written no longer
/// shows once it is committed.
proof fn lemma_filled_to_end(
    g: PoolGeometry,
    m: Seq<u8>,
    slot: u64,
    host: u16,
    term: u64,
    data: Seq<u8>,
)
    requires
        g.fits(m.len()),
        slot < g.capacity,
        data.len() <= g.payload_size,
    ensures
        filled_to(g, m, slot, host, term, data, 10) == pool::filled(g, m, slot, host, term, data),
{
    layout::law_layout(g);
    reveal_with_fuel(filled_to, 11);
    assert(filled_to(g, m, slot, host, term, data, 10) =~= pool::filled(
        g,
        m,
        slot,
        host,
        term,
        data,
    ));
}

/// Marks a claimed slot as being written, and writes term, index and writer of its record.
fn write_origin<B: MemoryBackend>(
    backend: &mut B,
    geometry: &PoolGeometry,
    host_id: u16,
    slot: u64,
    term: u64,
    Ghost(data): Ghost<Seq<u8>>,
)
    requires
        geometry.fits(old(backend).view().bytes.len()),
        slot < geometry.capacity,
    ensures
        fills(
            *geometry,
            slot,
            host_id,
            term,
            data,
            old(backend).view(),
            final(backend).view(),
            4,
        ),
{
    let ghost g = *geometry;
    let ghost v0 = backend.view();
    proof {
        let call = Call::Append { host: host_id, term, data };
        protocol::lemma_reaches_here(g, call, v0.trace, Pc::Fill { slot, stage: 0 });
        layout::law_layout(g);
    }
    let at: usize = geometry.slot_offset(slot);
    backend.store_u8(at + REC_STATE, STATE_WRITING, MemOrder::Relaxed);
    let ghost v1 = backend.view();
    backend.store_u64(at + REC_TERM, term, MemOrder::Relaxed);
    let ghost v2 = backend.view();
    backend.store_u64(at + REC_INDEX, slot + 1, MemOrder::Relaxed);
    let ghost v3 = backend.view();
    backend.store_u64(at + REC_WRITER_ID, host_id as u64, MemOrder::Relaxed);
    proof {
        lemma_fills_next(g, slot, host_id, term, data, v0, v0, v1, 0);
        lemma_fills_next(g, slot, host_id, term, data, v0, v1, v2, 1);
        lemma_fills_next(g, slot, host_id, term, data, v0, v2, v3, 2);
        lemma_fills_next(g, slot, host_id, term, data, v0, v3, backend.view(), 3);
    }
}

/// Writes length, payload and checksum of a record.
fn write_payload<B: MemoryBackend>(
    backend: &mut B,
    geometry: &PoolGeometry,
    host_id: u16,
    slot: u64,
    term: u64,
    data: &[u8],
    Ghost(v0): Ghost<MemoryView>,
)
    requires
        geometry.fits(v0.bytes.len()),
        slot < geometry.capacity,
        data@.len() <= geometry.payload_size,
        fills(*geometry, slot, host_id, term, data@, v0, old(backend).view(), 4),
    ensures
        fills(*geometry, slot, host_id, term, data@, v0, final(backend).view(), 7),
{
    let ghost g = *geometry;
    let ghost v4 = backend.view();
    proof {
        layout::law_layout(g);
    }
    let at: usize = geometry.slot_offset(slot);
    let len_bytes: Vec<u8> = u32_to_le_bytes(data.len() as u32);
    backend.write(at + REC_DATA_LEN, len_bytes.as_slice());
    let ghost v5 = backend.view();
    if data.len() > 0 {
        backend.write(at + RECORD_META_SIZE, data);
        proof {
            lemma_fills_next(g, slot, host_id, term, data@, v0, v4, v5, 4);
            lemma_fills_next(g, slot, host_id, term, data@, v0, v5, backend.view(), 5);
        }
    } else {
        proof {
            lemma_fills_empty(g, slot, host_id, term, data@, v0, v4, v5);
        }
    }
    let ghost v6 = backend.view();
    let crc: u64 = checksum::compute(term, slot + 1, data);
    backend.store_u64(at + REC_CHECKSUM, crc, MemOrder::Relaxed);
    proof {
        lemma_fills_next(g, slot, host_id, term, data@, v0, v6, backend.view(), 6);
    }
}

/// Flushes a record, commits it, and flushes its state: the whole record is on its way to
/// persistence before it is committed.
fn commit_record<B: MemoryBackend>(
    backend: &mut B,
    geometry: &PoolGeometry,
    host_id: u16,
    slot: u64,
    term: u64,
    Ghost(data): Ghost<Seq<u8>>,
    Ghost(v0): Ghost<MemoryView>,
)
    requires
        geometry.fits(v0.bytes.len()),
        slot < geometry.capacity,
        fills(*geometry, slot, host_id, term, data, v0, old(backend).view(), 7),
    ensures
        fills(*geometry, slot, host_id, term, data, v0, final(backend).view(), 10),
{
    let ghost g = *geometry;
    let ghost v7 = backend.view();
    proof {
        layout::law_layout(g);
    }
    let at: usize = geometry.slot_offset(slot);
    backend.flush(at, geometry.record_size as usize);
    let ghost v8 = backend.view();
    backend.store_u8(at + REC_STATE, STATE_COMMITTED, MemOrder::Release);
    let ghost v9 = backend.view();
    backend.flush(at, CACHELINE);
    proof {
        lemma_fills_next(g, slot, host_id, term, data, v0, v7, v8, 7);
        lemma_fills_next(g, slot, host_id, term, data, v0, v8, v9, 8);
        lemma_fills_next(g, slot, host_id, term, data, v0, v9, backend.view(), 9);
    }
}

/// Writes a complete record into a claimed slot and commits it.
fn fill_slot<B: MemoryBackend>(
    backend: &mut B,
    geometry: &PoolGeometry,
    host_id: u16,
    slot: u64,
    term: u64,
    data: &[u8],
)
    requires
        geometry.fits(old(backend).view().bytes.len()),
        slot < geometry.capacity,
        data@.len() <= geometry.payload_size,
    ensures
        final(backend).view().bytes.len() == old(backend).view().bytes.len(),
        final(backend).view().exclusive == old(backend).view().exclusive,
        protocol::reaches(
            *geometry,
            Call::Append { host: host_id, term, data: data@ },
            old(backend).view().trace,
            final(backend).view().trace,
            Pc::Fill { slot, stage: 0 },
            Pc::SweepLoad { goal: SweepFor::Append { slot }, lost: 0 },
        ),
        old(backend).view().exclusive ==> final(backend).view().bytes == pool::filled(
            *geometry,
            old(backend).view().bytes,
            slot,
            host_id,
            term,
            data@,
        ),
{
    let ghost v0 = backend.view();
    write_origin(backend, geometry, host_id, slot, term, Ghost(data@));
    write_payload(backend, geometry, host_id, slot, term, data, Ghost(v0));
    commit_record(backend, geometry, host_id, slot, term, Ghost(data@), Ghost(v0));
    proof {
        lemma_filled_to_end(*geometry, v0.bytes, slot, host_id, term, data@);
    }
}

/// Configuration for opening or creating a pool.
#[derive(Debug, Clone)]
pub struct PoolConfig {
    /// Path of the backing file or device.
    pub path: String,
    /// Number of record slots.
    pub capacity: u32,
    /// Payload bytes per record.
    pub payload_size: u32,
    /// Maximum number of hosts that share the pool.
    pub max_hosts: u16,
    /// This host (counted from 0, below `max_hosts`).
    pub host_id: u16,
    /// Whether to initialize a fresh pool or to open an existing one.
    pub create: bool,
}

impl PoolConfig {
    /// The dimensions of the pool that the configuration asks for.
    pub open spec fn dimensions(self) -> PoolGeometry {
        dimensions_of(
            self.capacity as int,
            RECORD_META_SIZE + self.payload_size,
            self.max_hosts as int,
        )
    }

    /// The configuration describes a pool that can be operated on in memory of `len` bytes.
    pub open spec fn valid(self, len: nat) -> bool {
        &&& RECORD_META_SIZE + self.payload_size <= u32::MAX
        &&& self.dimensions().fits(len)
        &&& self.host_id < self.max_hosts
    }
}

/// The dimensions of a pool with so many slots and hosts and so many bytes per record.
pub open spec fn dimensions_of(capacity: int, record_size: int, max_hosts: int) -> PoolGeometry {
    PoolGeometry {
        capacity: capacity as u32,
        payload_size: (record_size - RECORD_META_SIZE) as u32,
        max_hosts: max_hosts as u16,
        record_size: record_size as u32,
        total_size: (HEADER_SIZE + record_size * capacity + 64 * max_hosts) as u64,
    }
}

/// The dimensions that a pool header states, if it states those of a pool that can be
/// operated on in memory of `len` bytes.
pub open spec fn stated_dimensions(
    capacity: u64,
    record_size: u64,
    max_hosts: u64,
    len: nat,
) -> Option<PoolGeometry> {
    if 0 < capacity <= u32::MAX && RECORD_META_SIZE < record_size <= u32::MAX && record_size % 8
        == 0 && 0 < max_hosts <= u16::MAX && HEADER_SIZE + record_size * capacity + 64 * max_hosts
        <= len {
        Some(dimensions_of(capacity as int, record_size as int, max_hosts as int))
    } else {
        None
    }
}

/// The dimensions that a host opens an existing pool with: those that the header states; the
/// configured ones if the header states none that this host can operate with.
pub open spec fn opened_dimensions(
    configured: PoolGeometry,
    host: u16,
    stated: Option<PoolGeometry>,
) -> PoolGeometry {
    match stated {
        Some(g) => if host < g.max_hosts {
            g
        } else {
            configured
        },
        None => configured,
    }
}

/// The accesses that write the header of a fresh pool: the dimensions, both tails at zero,
/// the first epoch; then the flush of it all.
pub open spec fn header_accesses(g: PoolGeometry) -> Seq<Access> {
    let order = MemOrder::Relaxed;
    seq![
        Access::StoreU64 { offset: HDR_MAGIC as int, order, value: MAGIC },
        Access::StoreU64 { offset: HDR_CAPACITY as int, order, value: g.capacity as u64 },
        Access::StoreU64 { offset: HDR_RECORD_SIZE as int, order, value: g.record_size as u64 },
        Access::StoreU64 { offset: HDR_MAX_HOSTS as int, order, value: g.max_hosts as u64 },
        Access::StoreU64 { offset: HDR_COMMITTED_TAIL as int, order, value: 0 },
        Access::StoreU64 { offset: HDR_RESERVE_TAIL as int, order, value: 0 },
        Access::StoreU64 { offset: HDR_EPOCH as int, order, value: 1 },
        Access::Flush { offset: 0, len: HEADER_SIZE as int },
    ]
}

/// The pool with the header of a fresh pool.
pub open spec fn with_header(g: PoolGeometry, m: Seq<u8>) -> Seq<u8> {
    let m = mem::put_u64(m, HDR_MAGIC as int, MAGIC);
    let m = mem::put_u64(m, HDR_CAPACITY as int, g.capacity as u64);
    let m = mem::put_u64(m, HDR_RECORD_SIZE as int, g.record_size as u64);
    let m = mem::put_u64(m, HDR_MAX_HOSTS as int, g.max_hosts as u64);
    let m = mem::put_u64(m, HDR_COMMITTED_TAIL as int, 0);
    let m = mem::put_u64(m, HDR_RESERVE_TAIL as int, 0);
    mem::put_u64(m, HDR_EPOCH as int, 1)
}

/// The accesses that read the header of an existing pool.
pub open spec fn header_loads(capacity: u64, record_size: u64, max_hosts: u64) -> Seq<Access> {
    let order = MemOrder::Relaxed;
    seq![
        Access::LoadU64 { offset: HDR_MAGIC as int, order, value: MAGIC },
        Access::LoadU64 { offset: HDR_CAPACITY as int, order, value: capacity },
        Access::LoadU64 { offset: HDR_RECORD_SIZE as int, order, value: record_size },
        Access::LoadU64 { offset: HDR_MAX_HOSTS as int, order, value: max_hosts },
    ]
}

/// The dimensions that the header of pool `m` states.
pub open spec fn header_dimensions(m: Seq<u8>) -> Option<PoolGeometry> {
    stated_dimensions(
        mem::u64_at(m, HDR_CAPACITY as int),
        mem::u64_at(m, HDR_RECORD_SIZE as int),
        mem::u64_at(m, HDR_MAX_HOSTS as int),
        m.len(),
    )
}

/// The dimensions of an existing pool in memory of `len` bytes, from its header.
///
/// `None` if the header does not describe a pool that can be operated on there.
pub fn geometry_from_header(capacity: u64, record_size: u64, max_hosts: u64, len: usize) -> (geometry:
    Option<PoolGeometry>)
    ensures
        geometry == stated_dimensions(capacity, record_size, max_hosts, len as nat),
        geometry matches Some(g) ==> g.fits(len as nat),
{
    if capacity == 0 || capacity > u32::MAX as u64 || record_size <= RECORD_META_SIZE as u64
        || record_size > u32::MAX as u64 || record_size % 8 != 0 || max_hosts == 0 || max_hosts
        > u16::MAX as u64 {
        return None;
    }
    let geometry = PoolGeometry::new(
        capacity as u32,
        (record_size - RECORD_META_SIZE as u64) as u32,
        max_hosts as u16,
    );
    if geometry.total_size > len as u64 {
        return None;
    }
    Some(geometry)
}

/// The engine: owns the backend of a pool and offers the log operations.
pub struct FenceRuntime<B: MemoryBackend> {
    backend: B,
    geometry: PoolGeometry,
    host_id: u16,
}

impl<B: MemoryBackend> FenceRuntime<B> {
    /// The pool, as seen through the backend.
    pub closed spec fn pool(&self) -> MemoryView {
        self.backend.view()
    }

    /// The dimensions of the pool.
    pub closed spec fn dimensions(&self) -> PoolGeometry {
        self.geometry
    }

    /// This host.
    pub closed spec fn host(&self) -> u16 {
        self.host_id
    }

    /// The pool lies within the memory, and this host is one of those that share it.
    pub open spec fn inv(&self) -> bool {
        &&& self.dimensions().fits(self.pool().bytes.len())
        &&& self.host() < self.dimensions().max_hosts
    }

    /// `self` is the same engine as `before`, possibly after some operations.
    pub open spec fn follows(&self, before: &Self) -> bool {
        &&& self.inv()
        &&& self.dimensions() == before.dimensions()
        &&& self.host() == before.host()
        &&& self.pool().bytes.len() == before.pool().bytes.len()
        &&& self.pool().exclusive == before.pool().exclusive
    }

    /// Opens the pool that `backend` gives access to.
    ///
    /// With `config.create`, writes the header of a fresh pool with the configured
    /// dimensions. Otherwise validates the magic number and takes the dimensions from the
    /// header: fails with `InvalidMagic` if the magic number is wrong. A header that
    /// describes no pool that this host can operate on here is passed over in favour of the
    /// configured dimensions.
    pub fn open(config: PoolConfig, backend: B) -> (result: Result<Self, FenceError>)
        requires
            config.valid(backend.view().bytes.len()),
        ensures
            result matches Ok(runtime) ==> {
                &&& runtime.inv()
                &&& runtime.host() == config.host_id
                &&& runtime.pool().bytes.len() == backend.view().bytes.len()
                &&& runtime.pool().exclusive == backend.view().exclusive
            },
            config.create ==> {
                &&& result matches Ok(runtime)
                &&& runtime.dimensions() == config.dimensions()
                &&& runtime.pool().trace == backend.view().trace + header_accesses(
                    config.dimensions(),
                )
                &&& backend.view().exclusive ==> runtime.pool().bytes == with_header(
                    config.dimensions(),
                    backend.view().bytes,
                )
            },
            !config.create ==> match result {
                Ok(runtime) => exists|capacity: u64, record_size: u64, max_hosts: u64|
                    {
                        &&& runtime.pool().trace == backend.view().trace + #[trigger] header_loads(
                            capacity,
                            record_size,
                            max_hosts,
                        )
                        &&& runtime.dimensions() == opened_dimensions(
                            config.dimensions(),
                            config.host_id,
                            stated_dimensions(
                                capacity,
                                record_size,
                                max_hosts,
                                backend.view().bytes.len(),
                            ),
                        )
                    },
                Err(FenceError::InvalidMagic { expected, actual }) => expected == MAGIC && actual
                    != MAGIC,
                Err(_) => false,
            },
            !config.create && backend.view().exclusive ==> {
                let m = backend.view().bytes;
                let magic = mem::u64_at(m, HDR_MAGIC as int);
                &&& result is Ok <==> magic == MAGIC
                &&& result matches Ok(runtime) ==> {
                    &&& runtime.pool().bytes == m
                    &&& runtime.dimensions() == opened_dimensions(
                        config.dimensions(),
                        config.host_id,
                        header_dimensions(m),
                    )
                }
                &&& result matches Err(FenceError::InvalidMagic { actual, .. }) ==> actual == magic
            },
    {
        let mut backend = backend;
        let ghost v0 = backend.view();
        let configured = PoolGeometry::new(
            config.capacity,
            config.payload_size,
            config.max_hosts,
        );
        assert(configured == config.dimensions());
        if config.create {
            let geometry = configured;
            backend.store_u64(HDR_MAGIC, MAGIC, MemOrder::Relaxed);
            backend.store_u64(HDR_CAPACITY, config.capacity as u64, MemOrder::Relaxed);
            backend.store_u64(HDR_RECORD_SIZE, geometry.record_size as u64, MemOrder::Relaxed);
            backend.store_u64(HDR_MAX_HOSTS, config.max_hosts as u64, MemOrder::Relaxed);
            backend.store_u64(HDR_COMMITTED_TAIL, 0, MemOrder::Relaxed);
            backend.store_u64(HDR_RESERVE_TAIL, 0, MemOrder::Relaxed);
            backend.store_u64(HDR_EPOCH, 1, MemOrder::Relaxed);
            backend.flush(0, HEADER_SIZE);
            assert(backend.view().trace =~= v0.trace + header_accesses(geometry));
            return Ok(FenceRuntime { backend, geometry, host_id: config.host_id });
        }
        let magic: u64 = backend.load_u64(HDR_MAGIC, MemOrder::Relaxed);
        if magic != MAGIC {
            return Err(FenceError::InvalidMagic { expected: MAGIC, actual: magic });
        }
        let capacity: u64 = backend.load_u64(HDR_CAPACITY, MemOrder::Relaxed);
        let record_size: u64 = backend.load_u64(HDR_RECORD_SIZE, MemOrder::Relaxed);
        let max_hosts: u64 = backend.load_u64(HDR_MAX_HOSTS, MemOrder::Relaxed);
        let len: usize = backend.size();
        assert(backend.view().trace =~= v0.trace + header_loads(capacity, record_size, max_hosts));
        let geometry: PoolGeometry = match geometry_from_header(
            capacity,
            record_size,
            max_hosts,
            len,
        ) {
            Some(stated) if config.host_id < stated.max_hosts => stated,
            _ => configured,
        };
        Ok(FenceRuntime { backend, geometry, host_id: config.host_id })
    }

    /// Appends a record and returns its index (slot + 1).
    ///
    /// 1. Claims the next slot.
    /// 2. Writes the record there, flushes it, commits it, flushes the commit.
    /// 3. Moves the committed tail past the committed slots that follow it.
    ///
    /// Fails with `PayloadTooLarge` if `data` exceeds the payload size, and with `PoolFull`
    /// if no slot is left.
    pub fn append(&mut self, term: u64, data: &[u8]) -> (result: Result<u64, FenceError>)
        requires
            old(self).inv(),
        ensures
            final(self).follows(old(self)),
            protocol::carries_out(
                old(self).dimensions(),
                Call::Append { host: old(self).host(), term, data: data@ },
                old(self).pool().trace,
                final(self).pool().trace,
                Outcome::Append(result),
            ),
            old(self).pool().exclusive ==> {
                let g = old(self).dimensions();
                let m = old(self).pool().bytes;
                &&& result == pool::append_result(g, m, data@.len())
                &&& final(self).pool().bytes == pool::appended(
                    g,
                    m,
                    old(self).host(),
                    term,
                    data@,
                )
            },
    {
        let geometry: PoolGeometry = self.geometry;
        let ghost g = geometry;
        let ghost v0 = self.backend.view();
        let ghost call = Call::Append { host: self.host_id, term, data: data@ };
        let ghost from = Pc::Start;
        proof {
            protocol::lemma_reaches_here(g, call, v0.trace, from);
            layout::law_layout(g);
        }
        if data.len() > geometry.payload_size as usize {
            metrics::increment_appends_failed(&mut self.backend, &geometry, self.host_id);
            proof {
                let a = self.backend.view().trace.last();
                protocol::lemma_reaches_next(g, call, v0.trace, v0.trace, from, from, a);
            }
            return Err(
                FenceError::PayloadTooLarge { max: geometry.payload_size, got: data.len() },
            );
        }
        let slot: u64 = self.backend.fetch_add_u64(HDR_RESERVE_TAIL, 1, MemOrder::AcqRel);
        proof {
            let a = self.backend.view().trace.last();
            protocol::lemma_reaches_next(g, call, v0.trace, v0.trace, from, from, a);
        }
        let ghost v1 = self.backend.view();
        if slot >= geometry.capacity as u64 {
            // Adding 2^64 - 1 takes one off again.
            self.backend.fetch_add_u64(HDR_RESERVE_TAIL, u64::MAX, MemOrder::Relaxed);
            let ghost v2 = self.backend.view();
            proof {
                let a = v2.trace.last();
                protocol::lemma_reaches_next(g, call, v0.trace, v1.trace, from, Pc::Undo { slot }, a);
                if v0.exclusive {
                    lemma_undone(v0.bytes, HDR_RESERVE_TAIL as int);
                }
            }
            metrics::increment_appends_failed(&mut self.backend, &geometry, self.host_id);
            let error = FenceError::PoolFull { capacity: geometry.capacity, requested_slot: slot };
            proof {
                let a = self.backend.view().trace.last();
                protocol::lemma_reaches_next(
                    g,
                    call,
                    v0.trace,
                    v2.trace,
                    from,
                    Pc::CountRefusal { error },
                    a,
                );
            }
            return Err(error);
        }
        fill_slot(&mut self.backend, &geometry, self.host_id, slot, term, data);
        let ghost v2 = self.backend.view();
        let ghost goal = SweepFor::Append { slot };
        proof {
            protocol::lemma_reaches_on(
                g,
                call,
                v0.trace,
                v1.trace,
                v2.trace,
                from,
                Pc::Fill { slot, stage: 0 },
                Pc::SweepLoad { goal, lost: 0 },
            );
        }
        recovery::sweep_tail(&mut self.backend, &geometry, Ghost(call), Ghost(goal));
        let ghost v3 = self.backend.view();
        proof {
            protocol::lemma_reaches_on(
                g,
                call,
                v0.trace,
                v2.trace,
                v3.trace,
                from,
                Pc::SweepLoad { goal, lost: 0 },
                Pc::CountAppend { slot },
            );
        }
        metrics::increment_appends(&mut self.backend, &geometry, self.host_id);
        let ghost v4 = self.backend.view();
        proof {
            let a = v4.trace.last();
            protocol::lemma_reaches_next(
                g,
                call,
                v0.trace,
                v3.trace,
                from,
                Pc::CountAppend { slot },
                a,
            );
        }
        let written: u64 = data.len() as u64;
        metrics::increment_bytes_written(&mut self.backend, &geometry, self.host_id, written);
        proof {
            let a = self.backend.view().trace.last();
            protocol::lemma_reaches_next(
                g,
                call,
                v0.trace,
                v4.trace,
                from,
                Pc::CountBytes { slot },
                a,
            );
        }
        Ok(slot + 1)
    }

    /// Reads the record with the given index (counted from 1).
    ///
    /// Returns `None` if the slot is not committed. Fails with `IndexOutOfBounds` if the
    /// index is zero or past the committed tail (or, with a tail past the capacity in a
    /// damaged header, if the record would reach past the pool), and with `ChecksumMismatch`
    /// if the record is damaged.
    pub fn read(&mut self, index: u64) -> (result: Result<Option<Record>, FenceError>)
        requires
            old(self).inv(),
        ensures
            final(self).follows(old(self)),
            protocol::carries_out(
                old(self).dimensions(),
                Call::Read { host: old(self).host(), index },
                old(self).pool().trace,
                final(self).pool().trace,
                Outcome::Read(record_view(result)),
            ),
            old(self).pool().exclusive ==> {
                let g = old(self).dimensions();
                let m = old(self).pool().bytes;
                &&& record_view(result) == pool::read_result(g, m, index)
                &&& final(self).pool().bytes == pool::after_read(g, m, old(self).host(), index)
            },
    {
        let geometry: PoolGeometry = self.geometry;
        let ghost g = geometry;
        let ghost v0 = self.backend.view();
        let ghost call = Call::Read { host: self.host_id, index };
        let ghost from = Pc::Start;
        proof {
            protocol::lemma_reaches_here(g, call, v0.trace, from);
            layout::law_layout(g);
        }
        let committed_tail: u64 = self.backend.load_u64(HDR_COMMITTED_TAIL, MemOrder::Acquire);
        let ghost v1 = self.backend.view();
        proof {
            let a = v1.trace.last();
            protocol::lemma_reaches_next(g, call, v0.trace, v0.trace, from, from, a);
        }
        if index == 0 || index > committed_tail {
            return Err(FenceError::IndexOutOfBounds { index, committed_tail });
        }
        let slot: u64 = (index - 1) % 0x1_0000_0000;
        let place: u64 = geometry.place(slot as u32);
        if place >= geometry.total_size {
            return Err(FenceError::IndexOutOfBounds { index, committed_tail });
        }
        let at: usize = place as usize;
        let state: u8 = self.backend.load_u8(at + REC_STATE, MemOrder::Acquire);
        let ghost v2 = self.backend.view();
        proof {
            let a = v2.trace.last();
            protocol::lemma_reaches_next(g, call, v0.trace, v1.trace, from, Pc::ReadState { tail: committed_tail }, a);
        }
        if state != STATE_COMMITTED {
            return Ok(None);
        }
        if geometry.total_size - place < RECORD_META_SIZE as u64 {
            return Err(FenceError::IndexOutOfBounds { index, committed_tail });
        }
        let ghost goal = FieldsFor::Read { index, tail: committed_tail };
        let loaded = record::load_fields(
            &mut self.backend,
            &geometry,
            slot,
            Ghost(call),
            Ghost(goal),
        );
        let ghost v3 = self.backend.view();
        proof {
            protocol::lemma_reaches_on(
                g,
                call,
                v0.trace,
                v2.trace,
                v3.trace,
                from,
                Pc::LoadFields { goal, slot, stage: 0, got: protocol::no_fields() },
                record::after_loading(goal, slot, loaded),
            );
        }
        let fields = match loaded {
            Some(fields) => fields,
            None => {
                return Err(FenceError::IndexOutOfBounds { index, committed_tail });
            },
        };
        if !fields.intact() {
            metrics::increment_checksum_failures(&mut self.backend, &geometry, self.host_id);
            proof {
                let a = self.backend.view().trace.last();
                protocol::lemma_reaches_next(
                    g,
                    call,
                    v0.trace,
                    v3.trace,
                    from,
                    Pc::CountDamage,
                    a,
                );
            }
            return Err(FenceError::ChecksumMismatch { index });
        }
        metrics::increment_reads(&mut self.backend, &geometry, self.host_id);
        proof {
            let a = self.backend.view().trace.last();
            protocol::lemma_reaches_next(
                g,
                call,
                v0.trace,
                v3.trace,
                from,
                Pc::CountRead { record: fields.view().record() },
                a,
            );
        }
        Ok(
            Some(
                Record {
                    index: fields.index,
                    term: fields.term,
                    writer_id: fields.writer_id,
                    data: fields.payload,
                },
            ),
        )
    }

    /// Reads the records with an index from `start_index` up to `end_index` (exclusive).
    ///
    /// Slots that are not committed are left out of the result. Stops at the first error.
    pub fn read_range(&mut self, start_index: u64, end_index: u64) -> (result: Result<
        Vec<Record>,
        FenceError,
    >)
        requires
            old(self).inv(),
            start_index <= end_index,
        ensures
            final(self).follows(old(self)),
            exists|results: Seq<Result<Option<RecordView>, FenceError>>|
                {
                    &&& #[trigger] protocol::reads_in_turn(
                        old(self).dimensions(),
                        old(self).host(),
                        start_index,
                        old(self).pool().trace,
                        final(self).pool().trace,
                        results,
                    )
                    &&& records_view(result) == pool::gathered(results)
                    &&& result is Ok ==> results.len() == end_index - start_index
                    &&& result is Err ==> 0 < results.len() <= end_index - start_index
                        && pool::gathered(results.drop_last()) is Ok
                },
            old(self).pool().exclusive ==> {
                let g = old(self).dimensions();
                let m = old(self).pool().bytes;
                let read = pool::range_read(g, m, old(self).host(), start_index, end_index as int);
                &&& records_view(result) == pool::gathered(read.0)
                &&& final(self).pool().bytes == read.1
            },
    {
        let ghost before = *self;
        let ghost g = self.dimensions();
        let ghost host = self.host();
        let ghost v0 = self.pool();
        let ghost mut results: Seq<Result<Option<RecordView>, FenceError>> = Seq::empty();
        let mut records: Vec<Record> = Vec::new();
        let mut index: u64 = start_index;
        assert(records_view(Ok(records)) =~= Ok(Seq::<RecordView>::empty())) by {
            assert(records@.map_values(|r: Record| r@) =~= Seq::<RecordView>::empty());
        }
        while index < end_index
            invariant
                before == *old(self),
                self.follows(&before),
                before.inv(),
                g == before.dimensions(),
                host == before.host(),
                v0 == before.pool(),
                start_index <= index <= end_index,
                results.len() == index - start_index,
                records_view(Ok(records)) == pool::gathered(results),
                protocol::reads_in_turn(
                    g,
                    host,
                    start_index,
                    v0.trace,
                    self.pool().trace,
                    results,
                ),
                v0.exclusive ==> (results, self.pool().bytes) == pool::range_read(
                    g,
                    v0.bytes,
                    host,
                    start_index,
                    index as int,
                ),
            decreases end_index - index,
        {
            let ghost mid = self.pool();
            let ghost so_far = records@.map_values(|r: Record| r@);
            let ghost old_results = results;
            let read = self.read(index);
            proof {
                results = results.push(record_view(read));
                assert(results.drop_last() =~= old_results);
                protocol::lemma_reads_next(
                    g,
                    host,
                    start_index,
                    v0.trace,
                    mid.trace,
                    self.pool().trace,
                    old_results,
                    record_view(read),
                );
            }
            match read {
                Ok(Some(record)) => {
                    records.push(record);
                    assert(records@.map_values(|r: Record| r@) =~= so_far.push(record@));
                },
                Ok(None) => {},
                Err(error) => {
                    proof {
                        if v0.exclusive {
                            pool::lemma_range_error(
                                g,
                                v0.bytes,
                                host,
                                start_index,
                                index + 1,
                                end_index as int,
                            );
                        }
                    }
                    return Err(error);
                },
            }
            index = index + 1;
        }
        Ok(records)
    }

    /// The committed tail: the number of committed records from the start on, without a gap.
    pub fn committed_tail(&mut self) -> (tail: u64)
        requires
            old(self).inv(),
        ensures
            final(self).follows(old(self)),
            final(self).pool().trace == old(self).pool().trace.push(
                Access::LoadU64 {
                    offset: HDR_COMMITTED_TAIL as int,
                    order: MemOrder::Acquire,
                    value: tail,
                },
            ),
            old(self).pool().exclusive ==> {
                &&& tail == pool::committed_tail(old(self).pool().bytes)
                &&& final(self).pool().bytes == old(self).pool().bytes
            },
    {
        self.backend.load_u64(HDR_COMMITTED_TAIL, MemOrder::Acquire)
    }

    /// The reserve tail: the number of slots ever claimed.
    pub fn reserve_tail(&mut self) -> (tail: u64)
        requires
            old(self).inv(),
        ensures
            final(self).follows(old(self)),
            final(self).pool().trace == old(self).pool().trace.push(
                Access::LoadU64 {
                    offset: HDR_RESERVE_TAIL as int,
                    order: MemOrder::Acquire,
                    value: tail,
                },
            ),
            old(self).pool().exclusive ==> {
                &&& tail == pool::reserve_tail(old(self).pool().bytes)
                &&& final(self).pool().bytes == old(self).pool().bytes
            },
    {
        self.backend.load_u64(HDR_RESERVE_TAIL, MemOrder::Acquire)
    }

    /// Abandons the committed records with an index up to and including `up_to`.
    ///
    /// Fails with `TrimBeyondCommitted` if the committed tail lies before `up_to` (or, with a
    /// tail past the capacity in a damaged header, if a slot up to it lies past the pool).
    pub fn trim(&mut self, up_to: u64) -> (result: Result<TrimResult, FenceError>)
        requires
            old(self).inv(),
        ensures
            final(self).follows(old(self)),
            protocol::carries_out(
                old(self).dimensions(),
                Call::Trim { up_to },
                old(self).pool().trace,
                final(self).pool().trace,
                Outcome::Trim(compaction::trimmed_count(result)),
            ),
            old(self).pool().exclusive ==> {
                let g = old(self).dimensions();
                let m = old(self).pool().bytes;
                &&& compaction::trimmed_count(result) == pool::trim_result(g, m, up_to)
                &&& final(self).pool().bytes == pool::trimmed(g, m, up_to)
            },
    {
        compaction::trim(&mut self.backend, &self.geometry, up_to)
    }

    /// Runs crash recovery, counts the run, and notes how many records this run abandoned.
    pub fn recover(&mut self) -> (report: RecoveryReport)
        requires
            old(self).inv(),
        ensures
            final(self).follows(old(self)),
            protocol::carries_out(
                old(self).dimensions(),
                Call::Recover { host: Some(old(self).host()) },
                old(self).pool().trace,
                final(self).pool().trace,
                Outcome::Recover(report),
            ),
            old(self).pool().exclusive ==> {
                let g = old(self).dimensions();
                let m = old(self).pool().bytes;
                &&& report == recovery::recovery_report(g, m)
                &&& final(self).pool().bytes == recovered_and_counted(g, m, old(self).host())
            },
    {
        let geometry: PoolGeometry = self.geometry;
        let ghost g = geometry;
        let ghost v0 = self.backend.view();
        let ghost call = Call::Recover { host: Some(self.host_id) };
        let ghost from = Pc::Start;
        let report = recovery::recover_slots(&mut self.backend, &geometry, Ghost(call));
        let ghost v1 = self.backend.view();
        metrics::increment_recovery_runs(&mut self.backend, &geometry, self.host_id);
        let ghost v2 = self.backend.view();
        proof {
            let a = v2.trace.last();
            protocol::lemma_reaches_next(
                g,
                call,
                v0.trace,
                v1.trace,
                from,
                Pc::CountRun { report },
                a,
            );
        }
        metrics::set_abandoned_found(
            &mut self.backend,
            &geometry,
            self.host_id,
            report.abandoned_count,
        );
        proof {
            let a = self.backend.view().trace.last();
            protocol::lemma_reaches_next(
                g,
                call,
                v0.trace,
                v2.trace,
                from,
                Pc::NoteAbandoned { report },
                a,
            );
        }
        report
    }

    /// The pool's statistics, summed over all hosts.
    pub fn stats(&mut self) -> (stats: PoolStats)
        requires
            old(self).inv(),
        ensures
            final(self).follows(old(self)),
            metrics::sums_up(
                old(self).dimensions(),
                old(self).pool().trace,
                final(self).pool().trace,
                stats,
            ),
            protocol::reaches(
                old(self).dimensions(),
                Call::Observe,
                old(self).pool().trace,
                final(self).pool().trace,
                Pc::Start,
                Pc::Start,
            ),
            old(self).pool().exclusive ==> {
                &&& stats == metrics::stats_of(
                    old(self).dimensions(),
                    old(self).pool().bytes,
                    old(self).dimensions().max_hosts as int,
                )
                &&& final(self).pool().bytes == old(self).pool().bytes
            },
    {
        metrics::read_stats(&mut self.backend, &self.geometry)
    }

    /// The dimensions of the pool.
    pub fn geometry(&self) -> (geometry: &PoolGeometry)
        ensures
            *geometry == self.dimensions(),
    {
        &self.geometry
    }

    /// This host.
    pub fn host_id(&self) -> (host_id: u16)
        ensures
            host_id == self.host(),
    {
        self.host_id
    }

    /// The backend.
    pub fn backend(&self) -> (backend: &B)
        ensures
            backend.view() == self.pool(),
    {
        &self.backend
    }

    /// Gives the backend back.
    pub fn into_backend(self) -> (backend: B)
        ensures
            backend.view() == self.pool(),
    {
        self.backend
    }
}

/// What a read returned.
pub open spec fn record_view(result: Result<Option<Record>, FenceError>) -> Result<
    Option<RecordView>,
    FenceError,
> {
    match result {
        Ok(Some(record)) => Ok(Some(record@)),
        Ok(None) => Ok(None),
        Err(error) => Err(error),
    }
}

/// What a range read returned.
pub open spec fn records_view(result: Result<Vec<Record>, FenceError>) -> Result<
    Seq<RecordView>,
    FenceError,
> {
    match result {
        Ok(records) => Ok(records@.map_values(|r: Record| r@)),
        Err(error) => Err(error),
    }
}

/// The pool after a recovery run that `host` counts: one run more, and the records that this
/// run abandoned in place of what an earlier one found.
pub open spec fn recovered_and_counted(g: PoolGeometry, m: Seq<u8>, host: u16) -> Seq<u8> {
    pool::noted(
        g,
        pool::counted(g, pool::recovered(g, m), host, pool::METRICS_RECOVERY_RUNS, 1),
        host,
        pool::METRICS_ABANDONED_FOUND,
        recovery::recovery_report(g, m).abandoned_count,
    )
}

/// Adding one to a word and then 2^64 - 1 changes nothing.
proof fn lemma_undone(m: Seq<u8>, at: int)
    requires
        0 <= at,
        at + 8 <= m.len(),
    ensures
        ({
            let once = mem::put_u64(m, at, mem::wrapped_sum(mem::u64_at(m, at), 1));
            mem::put_u64(once, at, mem::wrapped_sum(mem::u64_at(once, at), u64::MAX)) == m
        }),
{
    let once = mem::put_u64(m, at, mem::wrapped_sum(mem::u64_at(m, at), 1));
    mem::lemma_put_then_u64(m, at, mem::wrapped_sum(mem::u64_at(m, at), 1));
    mem::lemma_put_same_u64(m, at);
    lemma_auto_spec_u64_to_from_le_bytes();
    assert(mem::put_u64(once, at, mem::u64_at(m, at)) =~= mem::put_u64(m, at, mem::u64_at(m, at)));
}

} // verus!

//! Binary layout of a pool.
//!
//! This module is the single source of truth for the format:
//!
//! ```text
//! [Header (64 B)] [Record 0] [Record 1] ... [MetricsBlock 0] [MetricsBlock 1] ...
//! ```
//!
//! Constants give the fixed structure. The dimensions chosen when a pool is created
//! (capacity, record size, number of hosts) live in the pool header.
use crate::memory as mem;
use vstd::bytes::*;
use vstd::prelude::*;

verus! {

/// Magic number at byte 0 of every valid pool: "FENCE_LO".
pub const MAGIC: u64 = 0x46454E43455F4C4F;

/// Size of the pool header: one cacheline, bytes `[0, 64)` of the pool.
pub const HEADER_SIZE: usize = 64;

/// Size of the fixed metadata of a record: one cacheline. The payload follows.
pub const RECORD_META_SIZE: usize = 64;

/// Cacheline width. Structures are aligned to it to prevent false sharing.
pub const CACHELINE: usize = 64;

// Record lifecycle states. They are plain bytes because any host can write to shared
// memory: whatever value turns up there has to be handled.

/// The slot has never been written to.
pub const STATE_FREE: u8 = 0;

/// A writer has claimed the slot and is writing it.
pub const STATE_WRITING: u8 = 1;

/// The record is complete and flushed; readers may read it.
pub const STATE_COMMITTED: u8 = 2;

/// The writer crashed mid-write, or the record was trimmed. Readers skip it.
pub const STATE_ABANDONED: u8 = 3;

/// Offset of `magic` within the pool header.
pub const HDR_MAGIC: usize = 0;

/// Offset of `capacity`, the number of record slots, within the pool header.
pub const HDR_CAPACITY: usize = 8;

/// Offset of `record_size`, the bytes per record, within the pool header.
pub const HDR_RECORD_SIZE: usize = 16;

/// Offset of `max_hosts` within the pool header.
pub const HDR_MAX_HOSTS: usize = 24;

/// Offset of `committed_tail` within the pool header.
pub const HDR_COMMITTED_TAIL: usize = 32;

/// Offset of `reserve_tail` within the pool header.
pub const HDR_RESERVE_TAIL: usize = 40;

/// Offset of `epoch` within the pool header.
pub const HDR_EPOCH: usize = 48;

/// Offset of `state` (one byte) within a record.
pub const REC_STATE: usize = 0;

/// Offset of `term` within a record.
pub const REC_TERM: usize = 8;

/// Offset of `index`, the sequence number (slot + 1), within a record.
pub const REC_INDEX: usize = 16;

/// Offset of `writer_id`, the host that wrote the record, within a record.
pub const REC_WRITER_ID: usize = 24;

/// Offset of `data_len` (32 bits), the number of payload bytes, within a record.
pub const REC_DATA_LEN: usize = 32;

/// Offset of `checksum` within a record. Covers term, index and payload.
pub const REC_CHECKSUM: usize = 40;

/// Offset of the payload within a record.
pub const REC_PAYLOAD: usize = 64;

/// The fixed metadata of a record, field by field.
#[derive(Debug, Clone, Copy)]
pub struct RecordMeta {
    /// Record lifecycle state.
    pub state: u8,
    /// Padding up to `term`.
    pub _pad1: [u8; 7],
    /// Consensus term the record was written in.
    pub term: u64,
    /// Sequence number (slot + 1).
    pub index: u64,
    /// Host that wrote the record.
    pub writer_id: u64,
    /// Number of payload bytes.
    pub data_len: u32,
    /// Padding up to `checksum`.
    pub _pad2: [u8; 4],
    /// Checksum of term, index and payload.
    pub checksum: u64,
    /// Padding to fill the cacheline.
    pub _pad3: [u8; 16],
}

impl RecordMeta {
    /// The metadata as it lies in the pool: each field in turn, padding included.
    pub open spec fn image(self) -> Seq<u8> {
        seq![self.state] + self._pad1@ + spec_u64_to_le_bytes(self.term) + spec_u64_to_le_bytes(
            self.index,
        ) + spec_u64_to_le_bytes(self.writer_id) + spec_u32_to_le_bytes(self.data_len) + self._pad2@
            + spec_u64_to_le_bytes(self.checksum) + self._pad3@
    }

    /// The metadata as it lies in the pool.
    pub fn to_bytes(&self) -> (bytes: Vec<u8>)
        ensures
            bytes@ == self.image(),
    {
        let mut bytes: Vec<u8> = Vec::new();
        bytes.push(self.state);
        bytes.extend_from_slice(self._pad1.as_slice());
        bytes.extend_from_slice(u64_to_le_bytes(self.term).as_slice());
        bytes.extend_from_slice(u64_to_le_bytes(self.index).as_slice());
        bytes.extend_from_slice(u64_to_le_bytes(self.writer_id).as_slice());
        bytes.extend_from_slice(u32_to_le_bytes(self.data_len).as_slice());
        bytes.extend_from_slice(self._pad2.as_slice());
        bytes.extend_from_slice(u64_to_le_bytes(self.checksum).as_slice());
        bytes.extend_from_slice(self._pad3.as_slice());
        assert(bytes@ =~= self.image());
        bytes
    }
}

/// Every field of a record's metadata lies at the offset that its constant gives, and the
/// metadata fills exactly one cacheline.
pub proof fn law_record_meta_offsets(meta: RecordMeta)
    ensures
        meta.image().len() == RECORD_META_SIZE,
        meta.image()[REC_STATE as int] == meta.state,
        mem::u64_at(meta.image(), REC_TERM as int) == meta.term,
        mem::u64_at(meta.image(), REC_INDEX as int) == meta.index,
        mem::u64_at(meta.image(), REC_WRITER_ID as int) == meta.writer_id,
        mem::u32_at(meta.image(), REC_DATA_LEN as int) == meta.data_len,
        mem::u64_at(meta.image(), REC_CHECKSUM as int) == meta.checksum,
        REC_PAYLOAD == RECORD_META_SIZE,
{
    lemma_auto_spec_u64_to_from_le_bytes();
    lemma_auto_spec_u32_to_from_le_bytes();
    let m = meta.image();
    assert(m.subrange(8, 16) =~= spec_u64_to_le_bytes(meta.term));
    assert(m.subrange(16, 24) =~= spec_u64_to_le_bytes(meta.index));
    assert(m.subrange(24, 32) =~= spec_u64_to_le_bytes(meta.writer_id));
    assert(m.subrange(32, 36) =~= spec_u32_to_le_bytes(meta.data_len));
    assert(m.subrange(40, 48) =~= spec_u64_to_le_bytes(meta.checksum));
}

/// Per-host counters, one cacheline per host. Each host writes only its own block.
#[derive(Debug, Clone, Copy)]
pub struct MetricsBlock {
    /// Successful appends.
    pub appends_total: u64,
    /// Failed appends (pool full, payload too large).
    pub appends_failed: u64,
    /// Payload bytes written.
    pub bytes_written: u64,
    /// Reads performed.
    pub reads_total: u64,
    /// Records that failed checksum validation on read.
    pub checksum_failures: u64,
    /// Runs of crash recovery.
    pub recovery_runs: u64,
    /// Abandoned records found during the last recovery run.
    pub abandoned_found: u64,
    /// Padding to fill the cacheline.
    pub _padding: [u8; 8],
}

/// Dimensions of a pool. All offset calculations go through this struct.
#[derive(Debug, Clone, Copy, PartialEq, Eq, Structural)]
pub struct PoolGeometry {
    /// Number of record slots.
    pub capacity: u32,
    /// Payload bytes per record, without the metadata.
    pub payload_size: u32,
    /// Maximum number of hosts that share the pool.
    pub max_hosts: u16,
    /// Bytes per record: metadata and payload.
    pub record_size: u32,
    /// Bytes in the pool: header, records and metrics.
    pub total_size: u64,
}

impl PoolGeometry {
    /// The derived fields follow from the three that are chosen.
    pub open spec fn wf(self) -> bool {
        &&& self.capacity > 0
        &&& self.payload_size > 0
        &&& self.max_hosts > 0
        &&& self.record_size == RECORD_META_SIZE + self.payload_size
        &&& self.total_size == HEADER_SIZE + self.record_size * self.capacity + 64 * self.max_hosts
    }

    /// Every 64-bit word of every record is aligned.
    pub open spec fn aligned(self) -> bool {
        self.payload_size % 8 == 0
    }

    /// Memory of `len` bytes holds a pool of these dimensions that can be operated on.
    pub open spec fn fits(self, len: nat) -> bool {
        &&& self.wf()
        &&& self.aligned()
        &&& self.total_size <= len
        &&& len <= usize::MAX
    }

    /// Where record `slot` starts.
    #[verifier::opaque]
    pub open spec fn record_at(self, slot: int) -> int {
        HEADER_SIZE + slot * self.record_size
    }

    /// Where the metrics block of `host` starts.
    pub open spec fn metrics_at(self, host: int) -> int {
        self.record_at(self.capacity as int) + host * 64
    }

    /// Derives the dimensions of a pool from the three values that are chosen.
    pub fn new(capacity: u32, payload_size: u32, max_hosts: u16) -> (geometry: Self)
        requires
            capacity > 0,
            payload_size > 0,
            max_hosts > 0,
            RECORD_META_SIZE + payload_size <= u32::MAX,
        ensures
            geometry.wf(),
            geometry.capacity == capacity,
            geometry.payload_size == payload_size,
            geometry.max_hosts == max_hosts,
            geometry.record_size == RECORD_META_SIZE + payload_size,
            geometry.total_size == HEADER_SIZE + (RECORD_META_SIZE + payload_size) * capacity
                + 64 * max_hosts,
    {
        let record_size: u32 = RECORD_META_SIZE as u32 + payload_size;
        assert(record_size * capacity <= 0xFFFF_FFFF * 0xFFFF_FFFF) by (nonlinear_arith)
            requires
                0 <= record_size <= 0xFFFF_FFFF,
                0 <= capacity <= 0xFFFF_FFFF,
        ;
        let records_region: u64 = record_size as u64 * capacity as u64;
        assert(CACHELINE as u64 * max_hosts as u64 == 64 * max_hosts);
        let metrics_region: u64 = CACHELINE as u64 * max_hosts as u64;
        let total_size: u64 = HEADER_SIZE as u64 + records_region + metrics_region;
        PoolGeometry { capacity, payload_size, max_hosts, record_size, total_size }
    }

    /// Byte offset of record `slot` from the start of the pool.
    pub fn record_offset(&self, slot: u32) -> (offset: usize)
        requires
            HEADER_SIZE + slot * self.record_size <= usize::MAX,
        ensures
            offset == HEADER_SIZE + slot * self.record_size,
            offset == self.record_at(slot as int),
    {
        reveal(PoolGeometry::record_at);
        assert(0 <= slot * self.record_size) by (nonlinear_arith)
            requires
                0 <= slot,
                0 <= self.record_size,
        ;
        HEADER_SIZE + (slot as usize) * (self.record_size as usize)
    }

    /// Byte offset of the payload of record `slot` from the start of the pool.
    pub fn payload_offset(&self, slot: u32) -> (offset: usize)
        requires
            HEADER_SIZE + slot * self.record_size + RECORD_META_SIZE <= usize::MAX,
        ensures
            offset == HEADER_SIZE + slot * self.record_size + RECORD_META_SIZE,
            offset == self.record_at(slot as int) + REC_PAYLOAD,
    {
        self.record_offset(slot) + RECORD_META_SIZE
    }

    /// Byte offset of the metrics block of `host_id` from the start of the pool.
    ///
    /// The blocks follow the last record slot.
    pub fn metrics_offset(&self, host_id: u16) -> (offset: usize)
        requires
            HEADER_SIZE + self.capacity * self.record_size + host_id * 64 <= usize::MAX,
        ensures
            offset == HEADER_SIZE + self.capacity * self.record_size + host_id * 64,
            offset == self.metrics_at(host_id as int),
    {
        let records_end: usize = self.record_offset(self.capacity);
        records_end + (host_id as usize) * CACHELINE
    }

    /// Byte offset of record `slot` of a pool that lies in memory.
    pub(crate) fn slot_offset(&self, slot: u64) -> (offset: usize)
        requires
            self.wf(),
            self.total_size <= usize::MAX,
            slot < self.capacity,
        ensures
            offset == self.record_at(slot as int),
            HEADER_SIZE <= offset,
            offset + self.record_size <= self.record_at(self.capacity as int),
            offset + self.record_size <= self.total_size,
            self.aligned() ==> offset % 8 == 0,
    {
        proof {
            law_layout(*self);
            assert(self.record_at(slot as int) == HEADER_SIZE + slot * self.record_size) by {
                reveal(PoolGeometry::record_at);
            }
        }
        self.record_offset(slot as u32)
    }

    /// Where record `slot` would start, whether or not the pool has that many slots.
    pub(crate) fn place(&self, slot: u32) -> (offset: u64)
        requires
            self.wf(),
        ensures
            offset == self.record_at(slot as int),
            HEADER_SIZE <= offset,
            slot < self.capacity ==> offset + self.record_size <= self.total_size,
            self.aligned() ==> offset % 8 == 0,
    {
        proof {
            law_layout(*self);
            reveal(PoolGeometry::record_at);
            assert(0 <= slot * self.record_size <= 0xFFFF_FFFF * 0xFFFF_FFFF) by (nonlinear_arith)
                requires
                    0 <= slot <= 0xFFFF_FFFF,
                    0 <= self.record_size <= 0xFFFF_FFFF,
            ;
            if slot < self.capacity {
                assert(self.record_at(slot as int) + self.record_size <= self.record_at(
                    self.capacity as int,
                ));
            }
        }
        HEADER_SIZE as u64 + slot as u64 * self.record_size as u64
    }

    /// Byte offset of the metrics block of `host_id` of a pool that lies in memory.
    pub(crate) fn host_offset(&self, host_id: u16) -> (offset: usize)
        requires
            self.wf(),
            self.total_size <= usize::MAX,
            host_id < self.max_hosts,
        ensures
            offset == self.metrics_at(host_id as int),
            HEADER_SIZE <= offset,
            self.record_at(self.capacity as int) <= offset,
            offset + 64 <= self.total_size,
            self.aligned() ==> offset % 8 == 0,
    {
        proof {
            law_layout(*self);
            assert(self.record_at(self.capacity as int) == HEADER_SIZE + self.capacity
                * self.record_size) by {
                reveal(PoolGeometry::record_at);
            }
            assert(HEADER_SIZE <= self.record_at(0));
        }
        self.metrics_offset(host_id)
    }

    /// Largest payload that fits in one record.
    pub fn payload_max(&self) -> (n: u32)
        ensures
            n == self.payload_size,
    {
        self.payload_size
    }
}

/// Records follow each other, whether or not the pool has that many slots.
pub proof fn lemma_record_order(g: PoolGeometry, s: int, t: int)
    requires
        g.wf(),
        0 <= s < t,
    ensures
        HEADER_SIZE <= g.record_at(s),
        g.record_at(s) + g.record_size <= g.record_at(t),
{
    reveal(PoolGeometry::record_at);
    let z = g.record_size as int;
    assert(0 <= s * z && (s + 1) * z <= t * z && (s + 1) * z == s * z + z) by (nonlinear_arith)
        requires
            0 <= s,
            s + 1 <= t,
            0 <= z,
    ;
}

/// Records and metrics blocks do not overlap each other or the header, lie within the
/// pool, and are aligned if the payload size is.
pub proof fn law_layout(g: PoolGeometry)
    requires
        g.wf(),
    ensures
        g.record_at(0) == HEADER_SIZE,
        forall|s: int|
            0 <= s < g.capacity ==> HEADER_SIZE <= #[trigger] g.record_at(s) && g.record_at(s)
                + g.record_size <= g.record_at(g.capacity as int),
        forall|s: int, t: int|
            0 <= s < t <= g.capacity ==> #[trigger] g.record_at(s) + g.record_size
                <= #[trigger] g.record_at(t),
        g.total_size == g.record_at(g.capacity as int) + 64 * g.max_hosts,
        g.aligned() ==> forall|s: int| (#[trigger] g.record_at(s)) % 8 == 0,
{
    reveal(PoolGeometry::record_at);
    let z = g.record_size as int;
    assert(0 * z == 0);
    assert forall|s: int, t: int| 0 <= s < t implies #[trigger] g.record_at(s) + z
        <= #[trigger] g.record_at(t) by {
        assert((s + 1) * z <= t * z) by (nonlinear_arith)
            requires
                s + 1 <= t,
                0 <= z,
        ;
        assert((s + 1) * z == s * z + z) by (nonlinear_arith);
    }
    assert forall|s: int| 0 <= s < g.capacity implies HEADER_SIZE <= #[trigger] g.record_at(s)
        && g.record_at(s) + z <= g.record_at(g.capacity as int) by {
        assert(0 <= s * z) by (nonlinear_arith)
            requires
                0 <= s,
                0 <= z,
        ;
    }
    assert(g.record_size * g.capacity == g.capacity * g.record_size) by (nonlinear_arith);
    if g.aligned() {
        assert forall|s: int| (#[trigger] g.record_at(s)) % 8 == 0 by {
            let k = z / 8;
            assert(z == 8 * k);
            assert(s * z == 8 * (s * k)) by (nonlinear_arith)
                requires
                    z == 8 * k,
            ;
        }
    }
}

/// Where everything lies, in bytes from the start of the pool: records behind the header, each
/// with 64 bytes of metadata before its payload; then one block of 64 bytes for each host.
pub proof fn law_places(g: PoolGeometry, slot: int, host: int)
    requires
        g.wf(),
    ensures
        g.record_at(slot) == 64 + slot * (64 + g.payload_size),
        g.metrics_at(host) == 64 + g.capacity * (64 + g.payload_size) + 64 * host,
        g.total_size == g.metrics_at(g.max_hosts as int),
{
    reveal(PoolGeometry::record_at);
    assert(slot * g.record_size == slot * (64 + g.payload_size));
    assert(g.record_size * g.capacity == g.capacity * (64 + g.payload_size)) by (nonlinear_arith)
        requires
            g.record_size == 64 + g.payload_size,
    ;
}

} // verus!

//! Records and the fields of record slots.
use crate::backend::{MemOrder, MemoryBackend};
use crate::checksum;
use crate::layout::{
    PoolGeometry, RECORD_META_SIZE, REC_CHECKSUM, REC_DATA_LEN, REC_INDEX, REC_TERM, REC_WRITER_ID,
};
use crate::memory as mem;
use crate::pool;
use crate::pool::{Fields, RecordView};
use crate::protocol;
use crate::protocol::{Call, FieldsFor, Pc};
use vstd::bytes::*;
use vstd::prelude::*;

verus! {

/// A single record read from the pool.
#[derive(Debug, Clone, PartialEq, Eq)]
pub struct Record {
    /// The record's sequence number.
    pub index: u64,
    /// The consensus term the record was written in.
    pub term: u64,
    /// The host that wrote the record.
    pub writer_id: u64,
    /// The payload.
    pub data: Vec<u8>,
}

impl View for Record {
    type V = RecordView;

    open spec fn view(&self) -> RecordView {
        RecordView {
            index: self.index,
            term: self.term,
            writer_id: self.writer_id,
            data: self.data@,
        }
    }
}

/// The fields of a record slot as they were loaded from the pool.
pub(crate) struct LoadedFields {
    pub(crate) term: u64,
    pub(crate) index: u64,
    pub(crate) writer_id: u64,
    pub(crate) data_len: u32,
    pub(crate) checksum: u64,
    pub(crate) payload: Vec<u8>,
}

impl LoadedFields {
    pub(crate) open spec fn view(&self) -> Fields {
        Fields {
            term: self.term,
            index: self.index,
            writer_id: self.writer_id,
            data_len: self.data_len,
            checksum: self.checksum,
            payload: self.payload@,
        }
    }

    /// Whether the stored checksum matches.
    pub(crate) fn intact(&self) -> (intact: bool)
        ensures
            intact == self.view().intact(),
    {
        checksum::verify(self.term, self.index, self.payload.as_slice(), self.checksum)
    }
}

/// The position once loading the fields of `slot` came to an end.
pub(crate) open spec fn after_loading(
    goal: FieldsFor,
    slot: u64,
    loaded: Option<LoadedFields>,
) -> Pc {
    match loaded {
        Some(fields) => protocol::after_fields(goal, slot, fields.view()),
        None => protocol::past_pool(goal, slot),
    }
}

/// Loads the fields of a slot; `None` if its payload reaches past the pool.
pub(crate) fn load_fields<B: MemoryBackend>(
    backend: &mut B,
    geometry: &PoolGeometry,
    slot: u64,
    Ghost(call): Ghost<Call>,
    Ghost(goal): Ghost<FieldsFor>,
) -> (loaded: Option<LoadedFields>)
    requires
        geometry.fits(old(backend).view().bytes.len()),
        slot <= u32::MAX,
        pool::meta_in_pool(*geometry, slot as int),
    ensures
        final(backend).view().bytes.len() == old(backend).view().bytes.len(),
        final(backend).view().exclusive == old(backend).view().exclusive,
        protocol::reaches(
            *geometry,
            call,
            old(backend).view().trace,
            final(backend).view().trace,
            Pc::LoadFields { goal, slot, stage: 0, got: protocol::no_fields() },
            after_loading(goal, slot, loaded),
        ),
        slot < geometry.capacity ==> loaded is Some,
        old(backend).view().exclusive ==> {
            &&& final(backend).view().bytes == old(backend).view().bytes
            &&& loaded is Some <==> pool::record_in_pool(
                *geometry,
                slot as int,
                pool::fields_of(*geometry, old(backend).view().bytes, slot as int).data_len,
            )
            &&& loaded matches Some(fields) ==> fields.view() == pool::fields_of(
                *geometry,
                old(backend).view().bytes,
                slot as int,
            )
        },
{
    let ghost g = *geometry;
    let ghost v0 = backend.view();
    let ghost from = Pc::LoadFields { goal, slot, stage: 0, got: protocol::no_fields() };
    let ghost mut pc = from;
    let ghost mut trace = v0.trace;
    proof {
        protocol::lemma_reaches_here(g, call, v0.trace, from);
    }
    let at: usize = geometry.place(slot as u32) as usize;

    let term: u64 = backend.load_u64(at + REC_TERM, MemOrder::Relaxed);
    proof {
        let a = backend.view().trace.last();
        protocol::lemma_reaches_next(g, call, v0.trace, trace, from, pc, a);
        pc = protocol::step(g, call, pc, a)->0;
        trace = backend.view().trace;
    }
    let index: u64 = backend.load_u64(at + REC_INDEX, MemOrder::Relaxed);
    proof {
        let a = backend.view().trace.last();
        protocol::lemma_reaches_next(g, call, v0.trace, trace, from, pc, a);
        pc = protocol::step(g, call, pc, a)->0;
        trace = backend.view().trace;
    }
    let writer_id: u64 = backend.load_u64(at + REC_WRITER_ID, MemOrder::Relaxed);
    proof {
        let a = backend.view().trace.last();
        protocol::lemma_reaches_next(g, call, v0.trace, trace, from, pc, a);
        pc = protocol::step(g, call, pc, a)->0;
        trace = backend.view().trace;
    }
    let mut len_bytes: [u8; 4] = [0u8; 4];
    backend.read(at + REC_DATA_LEN, &mut len_bytes);
    let data_len: u32 = u32_from_le_bytes(len_bytes.as_slice());
    proof {
        let a = backend.view().trace.last();
        protocol::lemma_reaches_next(g, call, v0.trace, trace, from, pc, a);
        pc = protocol::step(g, call, pc, a)->0;
        trace = backend.view().trace;
    }
    let checksum: u64 = backend.load_u64(at + REC_CHECKSUM, MemOrder::Relaxed);
    proof {
        let a = backend.view().trace.last();
        protocol::lemma_reaches_next(g, call, v0.trace, trace, from, pc, a);
        pc = protocol::step(g, call, pc, a)->0;
        trace = backend.view().trace;
    }

    let payload_len: usize = if data_len <= geometry.payload_size {
        data_len as usize
    } else {
        geometry.payload_size as usize
    };
    proof {
        pool::lemma_in_pool(g);
    }
    if payload_len as u64 > geometry.total_size - at as u64 - RECORD_META_SIZE as u64 {
        return None;
    }
    let mut payload: Vec<u8> = vec![0u8; payload_len];
    if payload_len > 0 {
        backend.read(at + RECORD_META_SIZE, payload.as_mut_slice());
        proof {
            let a = backend.view().trace.last();
            protocol::lemma_reaches_next(g, call, v0.trace, trace, from, pc, a);
        }
    }
    let fields = LoadedFields { term, index, writer_id, data_len, checksum, payload };
    proof {
        assert(payload_len == 0 ==> payload@ =~= Seq::<u8>::empty());
        if v0.exclusive {
            let m = v0.bytes;
            assert(payload@ =~= mem::bytes_at(m, at + RECORD_META_SIZE, payload_len as int));
            assert(fields.view() =~= pool::fields_of(g, m, slot as int));
        }
    }
    Some(fields)
}

} // verus!

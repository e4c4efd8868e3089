//! A pool in memory of this process.
//!
//! Behaves as a zero-filled mapping that no other process has open. Serves tests, dry
//! runs and single-process use.
use crate::backend::{Access, MemOrder, MemoryBackend, MemoryView};
use crate::memory as mem;
use vstd::bytes::*;
use vstd::prelude::*;

verus! {

/// A memory backend over a heap-allocated byte buffer.
pub struct HeapBackend {
    cells: Vec<u8>,
    trace: Ghost<Seq<Access>>,
}

impl HeapBackend {
    /// A zero-filled pool of `size` bytes.
    pub fn new(size: usize) -> (backend: Self)
        ensures
            backend.view().bytes == Seq::new(size as nat, |i: int| 0u8),
            backend.view().trace == Seq::<Access>::empty(),
            backend.view().exclusive,
    {
        let cells: Vec<u8> = vec![0u8; size];
        assert(cells@ =~= Seq::new(size as nat, |i: int| 0u8));
        HeapBackend { cells, trace: Ghost(Seq::empty()) }
    }

    /// A pool that holds the given bytes.
    pub fn from_bytes(bytes: Vec<u8>) -> (backend: Self)
        ensures
            backend.view().bytes == bytes@,
            backend.view().trace == Seq::<Access>::empty(),
            backend.view().exclusive,
    {
        HeapBackend { cells: bytes, trace: Ghost(Seq::empty()) }
    }

    /// The contents of the pool.
    pub fn as_bytes(&self) -> (bytes: &[u8])
        ensures
            bytes@ == self.view().bytes,
    {
        self.cells.as_slice()
    }

    /// Overwrites the cells from `offset` on with `src`.
    fn store_bytes(&mut self, offset: usize, src: &[u8])
        requires
            offset + src@.len() <= old(self).cells@.len(),
        ensures
            final(self).cells@ == mem::put(old(self).cells@, offset as int, src@),
            final(self).trace == old(self).trace,
    {
        let total: usize = self.cells.len();
        let n: usize = src.len();
        let mut i: usize = 0;
        let ghost before = self.cells@;
        while i < n
            invariant
                i <= n,
                n == src@.len(),
                offset + n <= before.len(),
                before.len() == total,
                self.cells@.len() == before.len(),
                self.trace == old(self).trace,
                forall|j: int|
                    0 <= j < before.len() ==> self.cells@[j] == (if offset <= j < offset + i {
                        src@[j - offset]
                    } else {
                        before[j]
                    }),
            decreases n - i,
        {
            self.cells[offset + i] = src[i];
            i = i + 1;
        }
        assert(self.cells@ =~= mem::put(before, offset as int, src@));
    }

    /// The word stored at `offset`.
    fn word(&self, offset: usize) -> (value: u64)
        requires
            offset + 8 <= self.cells@.len(),
        ensures
            value == mem::u64_at(self.cells@, offset as int),
    {
        let total: usize = self.cells.len();
        assert(offset + 8 <= total);
        let word = vstd::slice::slice_subrange(self.cells.as_slice(), offset, offset + 8);
        u64_from_le_bytes(word)
    }

    /// Overwrites the word at `offset`.
    fn set_word(&mut self, offset: usize, value: u64)
        requires
            offset + 8 <= old(self).cells@.len(),
        ensures
            final(self).cells@ == mem::put_u64(old(self).cells@, offset as int, value),
            final(self).trace == old(self).trace,
    {
        let bytes: Vec<u8> = u64_to_le_bytes(value);
        self.store_bytes(offset, bytes.as_slice());
    }
}

impl MemoryBackend for HeapBackend {
    closed spec fn view(&self) -> MemoryView {
        MemoryView { bytes: self.cells@, trace: self.trace@, exclusive: true }
    }

    fn read(&mut self, offset: usize, dst: &mut [u8]) {
        let total: usize = self.cells.len();
        let n: usize = dst.len();
        let mut i: usize = 0;
        while i < n
            invariant
                i <= n,
                n == dst@.len(),
                n == old(dst)@.len(),
                offset + n <= total,
                total == self.cells@.len(),
                *self == *old(self),
                forall|j: int| 0 <= j < i ==> dst@[j] == self.cells@[offset + j],
            decreases n - i,
        {
            dst[i] = self.cells[offset + i];
            i = i + 1;
        }
        assert(dst@ =~= mem::bytes_at(self.cells@, offset as int, dst@.len() as int));
        self.trace = Ghost(
            self.trace@.push(Access::Read { offset: offset as int, bytes: dst@ }),
        );
    }

    fn write(&mut self, offset: usize, src: &[u8]) {
        self.store_bytes(offset, src);
        self.trace = Ghost(
            self.trace@.push(Access::Write { offset: offset as int, bytes: src@ }),
        );
    }

    fn load_u64(&mut self, offset: usize, order: MemOrder) -> (value: u64) {
        let value: u64 = self.word(offset);
        self.trace = Ghost(
            self.trace@.push(Access::LoadU64 { offset: offset as int, order, value }),
        );
        value
    }

    fn store_u64(&mut self, offset: usize, value: u64, order: MemOrder) {
        self.set_word(offset, value);
        self.trace = Ghost(
            self.trace@.push(Access::StoreU64 { offset: offset as int, order, value }),
        );
    }

    fn fetch_add_u64(&mut self, offset: usize, delta: u64, order: MemOrder) -> (previous: u64) {
        let previous: u64 = self.word(offset);
        self.set_word(offset, previous.wrapping_add(delta));
        self.trace = Ghost(
            self.trace@.push(
                Access::FetchAddU64 { offset: offset as int, delta, order, previous },
            ),
        );
        previous
    }

    fn compare_exchange_u64(
        &mut self,
        offset: usize,
        expected: u64,
        desired: u64,
        success: MemOrder,
        failure: MemOrder,
    ) -> (result: Result<u64, u64>) {
        let actual: u64 = self.word(offset);
        let result: Result<u64, u64> = if actual == expected {
            self.set_word(offset, desired);
            Ok(expected)
        } else {
            Err(actual)
        };
        self.trace = Ghost(
            self.trace@.push(
                Access::CompareExchangeU64 {
                    offset: offset as int,
                    expected,
                    desired,
                    success,
                    failure,
                    result,
                },
            ),
        );
        result
    }

    fn load_u8(&mut self, offset: usize, order: MemOrder) -> (value: u8) {
        let value: u8 = self.cells[offset];
        self.trace = Ghost(
            self.trace@.push(Access::LoadU8 { offset: offset as int, order, value }),
        );
        value
    }

    fn store_u8(&mut self, offset: usize, value: u8, order: MemOrder) {
        self.cells[offset] = value;
        assert(self.cells@ =~= mem::put_u8(old(self).cells@, offset as int, value));
        self.trace = Ghost(
            self.trace@.push(Access::StoreU8 { offset: offset as int, order, value }),
        );
    }

    fn flush(&mut self, offset: usize, len: usize) {
        self.trace = Ghost(
            self.trace@.push(Access::Flush { offset: offset as int, len: len as int }),
        );
    }

    fn size(&self) -> (n: usize) {
        self.cells.len()
    }
}

} // verus!

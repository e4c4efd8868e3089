//! The `MemoryBackend` trait: the one way to reach shared memory.
//!
//! The engine never touches a mapping directly. Everything it does to the pool is an
//! access made through a backend, and a backend keeps a (ghost) trace of the accesses
//! made through it. What an access does to memory that no other host is writing, and
//! what it answers, is given by [`Access::apply`] and [`Access::answers`].
use crate::memory as mem;
use vstd::bytes::*;
use vstd::prelude::*;

verus! {

/// Ordering constraint of an atomic access.
#[derive(Debug, Clone, Copy, PartialEq, Eq, Structural)]
pub enum MemOrder {
    Relaxed,
    Acquire,
    Release,
    AcqRel,
    SeqCst,
}

/// One completed access to the pool, with what it returned.
#[allow(inconsistent_fields)]
pub enum Access {
    Read { offset: int, bytes: Seq<u8> },
    Write { offset: int, bytes: Seq<u8> },
    LoadU64 { offset: int, order: MemOrder, value: u64 },
    StoreU64 { offset: int, order: MemOrder, value: u64 },
    FetchAddU64 { offset: int, delta: u64, order: MemOrder, previous: u64 },
    CompareExchangeU64 {
        offset: int,
        expected: u64,
        desired: u64,
        success: MemOrder,
        failure: MemOrder,
        result: Result<u64, u64>,
    },
    LoadU8 { offset: int, order: MemOrder, value: u8 },
    StoreU8 { offset: int, order: MemOrder, value: u8 },
    Flush { offset: int, len: int },
}

impl Access {
    /// What the access returned is what memory `m` answers.
    pub open spec fn answers(self, m: Seq<u8>) -> bool {
        match self {
            Access::Read { offset, bytes } => bytes == mem::bytes_at(m, offset, bytes.len() as int),
            Access::LoadU64 { offset, value, .. } => value == mem::u64_at(m, offset),
            Access::FetchAddU64 { offset, previous, .. } => previous == mem::u64_at(m, offset),
            Access::CompareExchangeU64 { offset, expected, result, .. } => result == (
            if mem::u64_at(m, offset) == expected {
                Ok(expected)
            } else {
                Err(mem::u64_at(m, offset))
            }),
            Access::LoadU8 { offset, value, .. } => value == m[offset],
            _ => true,
        }
    }

    /// The contents of memory `m` after the access.
    pub open spec fn apply(self, m: Seq<u8>) -> Seq<u8> {
        match self {
            Access::Write { offset, bytes } => mem::put(m, offset, bytes),
            Access::StoreU64 { offset, value, .. } => mem::put_u64(m, offset, value),
            Access::FetchAddU64 { offset, delta, .. } => mem::put_u64(
                m,
                offset,
                mem::wrapped_sum(mem::u64_at(m, offset), delta),
            ),
            Access::CompareExchangeU64 { offset, expected, desired, .. } => if mem::u64_at(m, offset)
                == expected {
                mem::put_u64(m, offset, desired)
            } else {
                m
            },
            Access::StoreU8 { offset, value, .. } => mem::put_u8(m, offset, value),
            _ => m,
        }
    }

    /// The access only looks at memory.
    pub open spec fn is_load(self) -> bool {
        ||| self is Read
        ||| self is LoadU64
        ||| self is LoadU8
    }
}

/// What is known of a pool seen through one backend.
#[verifier::ext_equal]
pub struct MemoryView {
    /// The contents, as of the last access made through the backend.
    pub bytes: Seq<u8>,
    /// The accesses made through the backend so far, oldest first.
    pub trace: Seq<Access>,
    /// No other host or thread writes to the pool while the backend is in use.
    pub exclusive: bool,
}

/// `post` is what a backend shows after it has performed `a` where it showed `pre`.
///
/// With exclusive use of the pool, `a` meets the contents of `pre` and changes them as
/// [`Access::apply`] says. Otherwise other hosts may have written in between.
pub open spec fn performs(pre: MemoryView, post: MemoryView, a: Access) -> bool {
    &&& post.trace == pre.trace.push(a)
    &&& post.exclusive == pre.exclusive
    &&& post.bytes.len() == pre.bytes.len()
    &&& pre.exclusive ==> a.answers(pre.bytes) && post.bytes == a.apply(pre.bytes)
}

/// An offset at which an aligned 64-bit word lies within `m`.
pub open spec fn word_fits(m: Seq<u8>, offset: int) -> bool {
    &&& offset % 8 == 0
    &&& 0 <= offset
    &&& offset + 8 <= m.len()
}

/// Access to the bytes of one shared-memory pool.
///
/// Implementations exist for memory of this process ([`crate::heap_backend::HeapBackend`])
/// and for file-backed mappings; a DAX, RDMA or CXL device needs its own.
pub trait MemoryBackend: Sized {
    /// The pool as seen through this backend.
    spec fn view(&self) -> MemoryView;

    /// Reads `dst.len()` bytes from `offset` into `dst`.
    fn read(&mut self, offset: usize, dst: &mut [u8])
        requires
            offset + old(dst)@.len() <= old(self).view().bytes.len(),
        ensures
            final(dst)@.len() == old(dst)@.len(),
            performs(
                old(self).view(),
                final(self).view(),
                (Access::Read { offset: offset as int, bytes: final(dst)@ }),
            ),
    ;

    /// Writes the bytes of `src` at `offset`.
    fn write(&mut self, offset: usize, src: &[u8])
        requires
            offset + src@.len() <= old(self).view().bytes.len(),
        ensures
            performs(
                old(self).view(),
                final(self).view(),
                (Access::Write { offset: offset as int, bytes: src@ }),
            ),
    ;

    /// Atomically loads the word at `offset`.
    fn load_u64(&mut self, offset: usize, order: MemOrder) -> (value: u64)
        requires
            word_fits(old(self).view().bytes, offset as int),
        ensures
            performs(
                old(self).view(),
                final(self).view(),
                (Access::LoadU64 { offset: offset as int, order, value }),
            ),
    ;

    /// Atomically stores a word at `offset`.
    fn store_u64(&mut self, offset: usize, value: u64, order: MemOrder)
        requires
            word_fits(old(self).view().bytes, offset as int),
        ensures
            performs(
                old(self).view(),
                final(self).view(),
                (Access::StoreU64 { offset: offset as int, order, value }),
            ),
    ;

    /// Atomically adds `delta`, modulo 2^64, to the word at `offset`. Returns the previous value.
    fn fetch_add_u64(&mut self, offset: usize, delta: u64, order: MemOrder) -> (previous: u64)
        requires
            word_fits(old(self).view().bytes, offset as int),
        ensures
            performs(
                old(self).view(),
                final(self).view(),
                (Access::FetchAddU64 { offset: offset as int, delta, order, previous }),
            ),
    ;

    /// Atomically replaces the word at `offset` by `desired` if it equals `expected`.
    ///
    /// Returns `Ok(expected)` if it did, and otherwise the actual value as `Err`.
    fn compare_exchange_u64(
        &mut self,
        offset: usize,
        expected: u64,
        desired: u64,
        success: MemOrder,
        failure: MemOrder,
    ) -> (result: Result<u64, u64>)
        requires
            word_fits(old(self).view().bytes, offset as int),
        ensures
            performs(
                old(self).view(),
                final(self).view(),
                (Access::CompareExchangeU64 {
                    offset: offset as int,
                    expected,
                    desired,
                    success,
                    failure,
                    result,
                }),
            ),
    ;

    /// Atomically loads the byte at `offset`.
    fn load_u8(&mut self, offset: usize, order: MemOrder) -> (value: u8)
        requires
            offset < old(self).view().bytes.len(),
        ensures
            performs(
                old(self).view(),
                final(self).view(),
                (Access::LoadU8 { offset: offset as int, order, value }),
            ),
    ;

    /// Atomically stores a byte at `offset`.
    fn store_u8(&mut self, offset: usize, value: u8, order: MemOrder)
        requires
            offset < old(self).view().bytes.len(),
        ensures
            performs(
                old(self).view(),
                final(self).view(),
                (Access::StoreU8 { offset: offset as int, order, value }),
            ),
    ;

    /// Writes the bytes from `offset` up to `offset + len` back to the persistence domain.
    fn flush(&mut self, offset: usize, len: usize)
        requires
            offset + len <= old(self).view().bytes.len(),
        ensures
            performs(
                old(self).view(),
                final(self).view(),
                (Access::Flush { offset: offset as int, len: len as int }),
            ),
    ;

    /// Total size of the pool's memory in bytes.
    fn size(&self) -> (n: usize)
        ensures
            n == self.view().bytes.len(),
    ;
}

/// But for the `n` bytes from `offset` on, `after` holds the bytes of `m`.
pub open spec fn untouched(after: Seq<u8>, m: Seq<u8>, offset: int, n: int) -> bool {
    forall|i: int|
        #![trigger after[i]]
        #![trigger m[i]]
        0 <= i < m.len() && !(offset <= i < offset + n) ==> after[i] == m[i]
}

/// Memory keeps what is stored: an access that stores or adds changes its own bytes, as it
/// says, and no others; loads and flushes change nothing; and what an access answers is what
/// lay there before it.
pub proof fn law_memory_keeps(a: Access, m: Seq<u8>, at: int)
    requires
        0 <= at,
        at + 8 <= m.len(),
    ensures
        a.apply(m).len() == m.len(),
        a.is_load() || a is Flush ==> a.apply(m) == m,
        match a {
            Access::Read { .. } | Access::Flush { .. } => true,
            Access::Write { offset, bytes } => {
                &&& offset == at && at + bytes.len() <= m.len() ==> a.apply(m).subrange(
                    at,
                    at + bytes.len(),
                ) == bytes
                &&& untouched(a.apply(m), m, offset, bytes.len() as int)
            },
            Access::LoadU64 { offset, value, .. } => offset == at && a.answers(m) ==> value
                == mem::u64_at(m, at),
            Access::StoreU64 { offset, value, .. } => {
                &&& offset == at ==> mem::u64_at(a.apply(m), at) == value
                &&& untouched(a.apply(m), m, offset, 8)
            },
            Access::FetchAddU64 { offset, delta, previous, .. } => {
                &&& offset == at && a.answers(m) ==> previous == mem::u64_at(m, at)
                    && mem::u64_at(a.apply(m), at) == (previous + delta) % 0x1_0000_0000_0000_0000
                &&& untouched(a.apply(m), m, offset, 8)
            },
            Access::CompareExchangeU64 { offset, expected, desired, result, .. } => {
                &&& offset == at && a.answers(m) ==> {
                    let found = mem::u64_at(m, at);
                    if found == expected {
                        result is Ok && mem::u64_at(a.apply(m), at) == desired
                    } else {
                        result == Err::<u64, u64>(found) && a.apply(m) == m
                    }
                }
                &&& untouched(a.apply(m), m, offset, 8)
            },
            Access::LoadU8 { offset, value, .. } => offset == at && a.answers(m) ==> value == m[at],
            Access::StoreU8 { offset, value, .. } => {
                &&& offset == at ==> a.apply(m)[at] == value
                &&& untouched(a.apply(m), m, offset, 1)
            },
        },
{
    lemma_auto_spec_u64_to_from_le_bytes();
    match a {
        Access::StoreU64 { offset, value, .. } => {
            if offset == at {
                mem::lemma_put_then_u64(m, at, value);
            }
        },
        Access::FetchAddU64 { offset, delta, .. } => {
            if offset == at {
                mem::lemma_put_then_u64(m, at, mem::wrapped_sum(mem::u64_at(m, at), delta));
            }
        },
        Access::CompareExchangeU64 { offset, desired, .. } => {
            if offset == at {
                mem::lemma_put_then_u64(m, at, desired);
            }
        },
        Access::Write { offset, bytes } => {
            if offset == at && at + bytes.len() <= m.len() {
                mem::lemma_put_then_bytes(m, at, bytes);
            }
        },
        _ => {},
    }
}

} // verus!

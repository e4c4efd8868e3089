//! Byte-level vocabulary for talking about the contents of a pool.
//!
//! A pool is a sequence of bytes. Multi-byte words are stored little-endian.
use vstd::bytes::*;
use vstd::prelude::*;

verus! {

/// `m` with the bytes from `at` on replaced by `b`.
pub open spec fn put(m: Seq<u8>, at: int, b: Seq<u8>) -> Seq<u8> {
    Seq::new(m.len(), |i: int| if at <= i < at + b.len() { b[i - at] } else { m[i] })
}

/// The `n` bytes of `m` that start at `at`.
pub open spec fn bytes_at(m: Seq<u8>, at: int, n: int) -> Seq<u8> {
    m.subrange(at, at + n)
}

/// The 16-bit word stored at `at`.
pub open spec fn u16_at(m: Seq<u8>, at: int) -> u16 {
    spec_u16_from_le_bytes(m.subrange(at, at + 2))
}

/// The 32-bit word stored at `at`.
pub open spec fn u32_at(m: Seq<u8>, at: int) -> u32 {
    spec_u32_from_le_bytes(m.subrange(at, at + 4))
}

/// The 64-bit word stored at `at`.
pub open spec fn u64_at(m: Seq<u8>, at: int) -> u64 {
    spec_u64_from_le_bytes(m.subrange(at, at + 8))
}

/// `m` with the byte at `at` replaced by `v`.
pub open spec fn put_u8(m: Seq<u8>, at: int, v: u8) -> Seq<u8> {
    put(m, at, seq![v])
}

/// `m` with the 64-bit word at `at` replaced by `v`.
pub open spec fn put_u64(m: Seq<u8>, at: int, v: u64) -> Seq<u8> {
    put(m, at, spec_u64_to_le_bytes(v))
}

/// `a` and `b` hold the same bytes from `from` up to `to`.
pub open spec fn agree(a: Seq<u8>, b: Seq<u8>, from: int, to: int) -> bool {
    forall|i: int| #![trigger a[i]] #![trigger b[i]] from <= i < to ==> a[i] == b[i]
}

/// Addition as the memory's 64-bit counters perform it: modulo 2^64.
pub open spec fn wrapped_sum(a: u64, b: u64) -> u64 {
    if a + b <= u64::MAX {
        (a + b) as u64
    } else {
        (a + b - 0x1_0000_0000_0000_0000) as u64
    }
}

/// Counters add up modulo 2^64, in any order.
pub proof fn law_wrapped_sum(a: u64, b: u64, c: u64)
    ensures
        wrapped_sum(a, b) == (a + b) % 0x1_0000_0000_0000_0000,
        wrapped_sum(a, b) == wrapped_sum(b, a),
        wrapped_sum(wrapped_sum(a, b), c) == wrapped_sum(a, wrapped_sum(b, c)),
        wrapped_sum(a, 0) == a,
{
}

/// Two byte strings that agree on a range hold the same words and strings within it.
pub proof fn lemma_agree(a: Seq<u8>, b: Seq<u8>, from: int, to: int)
    requires
        agree(a, b, from, to),
        0 <= from,
        to <= a.len(),
        to <= b.len(),
    ensures
        forall|x: int| #![trigger u64_at(a, x)] #![trigger u64_at(b, x)]
            from <= x && x + 8 <= to ==> u64_at(a, x) == u64_at(b, x),
        forall|x: int| #![trigger u32_at(a, x)] #![trigger u32_at(b, x)]
            from <= x && x + 4 <= to ==> u32_at(a, x) == u32_at(b, x),
        forall|x: int| #![trigger u16_at(a, x)] #![trigger u16_at(b, x)]
            from <= x && x + 2 <= to ==> u16_at(a, x) == u16_at(b, x),
        forall|x: int, n: int| #![trigger bytes_at(a, x, n)] #![trigger bytes_at(b, x, n)]
            from <= x && 0 <= n && x + n <= to ==> bytes_at(a, x, n) == bytes_at(b, x, n),
{
    assert forall|x: int, n: int| from <= x && 0 <= n && x + n <= to implies a.subrange(x, x + n)
        == #[trigger] b.subrange(x, x + n) by {
        assert(a.subrange(x, x + n) =~= b.subrange(x, x + n));
    }
    assert forall|x: int| from <= x && x + 8 <= to implies #[trigger] u64_at(a, x) == u64_at(b, x) by {
        assert(a.subrange(x, x + 8) == b.subrange(x, x + 8));
    }
    assert forall|x: int| from <= x && x + 8 <= to implies u64_at(a, x) == #[trigger] u64_at(b, x) by {
        assert(a.subrange(x, x + 8) == b.subrange(x, x + 8));
    }
    assert forall|x: int| from <= x && x + 4 <= to implies #[trigger] u32_at(a, x) == u32_at(b, x) by {
        assert(a.subrange(x, x + 4) == b.subrange(x, x + 4));
    }
    assert forall|x: int| from <= x && x + 4 <= to implies u32_at(a, x) == #[trigger] u32_at(b, x) by {
        assert(a.subrange(x, x + 4) == b.subrange(x, x + 4));
    }
    assert forall|x: int| from <= x && x + 2 <= to implies #[trigger] u16_at(a, x) == u16_at(b, x) by {
        assert(a.subrange(x, x + 2) == b.subrange(x, x + 2));
    }
    assert forall|x: int| from <= x && x + 2 <= to implies u16_at(a, x) == #[trigger] u16_at(b, x) by {
        assert(a.subrange(x, x + 2) == b.subrange(x, x + 2));
    }
    assert forall|x: int, n: int| from <= x && 0 <= n && x + n <= to implies #[trigger] bytes_at(a, x, n)
        == bytes_at(b, x, n) by {
        assert(a.subrange(x, x + n) == b.subrange(x, x + n));
    }
    assert forall|x: int, n: int| from <= x && 0 <= n && x + n <= to implies bytes_at(a, x, n)
        == #[trigger] bytes_at(b, x, n) by {
        assert(a.subrange(x, x + n) == b.subrange(x, x + n));
    }
}

/// Replacing bytes leaves every 64-bit word outside the replaced range alone.
pub broadcast proof fn lemma_put_keeps_u64(m: Seq<u8>, at: int, b: Seq<u8>, x: int)
    requires
        0 <= x,
        x + 8 <= m.len(),
        x + 8 <= at || at + b.len() <= x,
    ensures
        #[trigger] u64_at(put(m, at, b), x) == u64_at(m, x),
{
    assert(put(m, at, b).subrange(x, x + 8) =~= m.subrange(x, x + 8));
}

/// Replacing bytes leaves every 32-bit word outside the replaced range alone.
pub broadcast proof fn lemma_put_keeps_u32(m: Seq<u8>, at: int, b: Seq<u8>, x: int)
    requires
        0 <= x,
        x + 4 <= m.len(),
        x + 4 <= at || at + b.len() <= x,
    ensures
        #[trigger] u32_at(put(m, at, b), x) == u32_at(m, x),
{
    assert(put(m, at, b).subrange(x, x + 4) =~= m.subrange(x, x + 4));
}

/// Replacing bytes leaves every 16-bit word outside the replaced range alone.
pub broadcast proof fn lemma_put_keeps_u16(m: Seq<u8>, at: int, b: Seq<u8>, x: int)
    requires
        0 <= x,
        x + 2 <= m.len(),
        x + 2 <= at || at + b.len() <= x,
    ensures
        #[trigger] u16_at(put(m, at, b), x) == u16_at(m, x),
{
    assert(put(m, at, b).subrange(x, x + 2) =~= m.subrange(x, x + 2));
}

/// Replacing bytes leaves every byte string outside the replaced range alone.
pub broadcast proof fn lemma_put_keeps_bytes(m: Seq<u8>, at: int, b: Seq<u8>, x: int, n: int)
    requires
        0 <= x,
        0 <= n,
        x + n <= m.len(),
        x + n <= at || at + b.len() <= x,
    ensures
        #[trigger] bytes_at(put(m, at, b), x, n) == bytes_at(m, x, n),
{
    assert(put(m, at, b).subrange(x, x + n) =~= m.subrange(x, x + n));
}

/// A byte string that was put somewhere is found there.
pub broadcast proof fn lemma_put_then_bytes(m: Seq<u8>, at: int, b: Seq<u8>)
    requires
        0 <= at,
        at + b.len() <= m.len(),
    ensures
        #![trigger put(m, at, b)]
        put(m, at, b).subrange(at, at + b.len()) == b,
        put(m, at, b).len() == m.len(),
{
    assert(put(m, at, b).subrange(at, at + b.len()) =~= b);
}

/// A 64-bit word that was put somewhere is found there.
pub broadcast proof fn lemma_put_then_u64(m: Seq<u8>, at: int, v: u64)
    requires
        0 <= at,
        at + 8 <= m.len(),
    ensures
        #![trigger put_u64(m, at, v)]
        u64_at(put_u64(m, at, v), at) == v,
        put_u64(m, at, v).len() == m.len(),
        spec_u64_to_le_bytes(v).len() == 8,
{
    lemma_auto_spec_u64_to_from_le_bytes();
    lemma_put_then_bytes(m, at, spec_u64_to_le_bytes(v));
}

/// Putting back the word that is already there changes nothing.
pub proof fn lemma_put_same_u64(m: Seq<u8>, at: int)
    requires
        0 <= at,
        at + 8 <= m.len(),
    ensures
        put_u64(m, at, u64_at(m, at)) == m,
{
    lemma_auto_spec_u64_to_from_le_bytes();
    let w = m.subrange(at, at + 8);
    assert(spec_u64_to_le_bytes(u64_at(m, at)) == w);
    assert(put(m, at, w) =~= m) by {
        assert forall|i: int| 0 <= i < m.len() implies put(m, at, w)[i] == m[i] by {
            if at <= i < at + 8 {
                assert(w[i - at] == m[i]);
            }
        }
    }
}

pub broadcast group group_put {
    lemma_put_keeps_u64,
    lemma_put_keeps_u32,
    lemma_put_keeps_u16,
    lemma_put_keeps_bytes,
    lemma_put_then_u64,
}

} // verus!

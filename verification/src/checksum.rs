//! Record checksums.
//!
//! Each committed record stores a CRC32C over term, index and payload. Readers and
//! recovery recompute it to detect corruption and torn writes.
use crate::memory as mem;
use vstd::bytes::*;
use vstd::prelude::*;

verus! {

/// The generator polynomial of CRC32C (Castagnoli), lowest power in the highest bit.
pub const CASTAGNOLI: u32 = 0x82F6_3B78;

/// The state of a CRC before the first byte; also what it is combined with after the last.
pub const ALL_ONES: u32 = 0xFFFF_FFFF;

/// The state of a CRC one bit further.
pub open spec fn shifted(crc: u32) -> u32 {
    if crc & 1 == 1 {
        (crc >> 1) ^ CASTAGNOLI
    } else {
        crc >> 1
    }
}

/// The state of a CRC that many bits further.
pub open spec fn shifted_by(crc: u32, bits: nat) -> u32
    decreases bits,
{
    if bits == 0 {
        crc
    } else {
        shifted(shifted_by(crc, (bits - 1) as nat))
    }
}

/// The state of a CRC after some more bytes.
pub open spec fn fed(crc: u32, bytes: Seq<u8>) -> u32
    decreases bytes.len(),
{
    if bytes.len() == 0 {
        crc
    } else {
        shifted_by(fed(crc, bytes.drop_last()) ^ (bytes.last() as u32), 8)
    }
}

/// The CRC32C of a byte string.
pub open spec fn crc32c(bytes: Seq<u8>) -> u32 {
    fed(ALL_ONES, bytes) ^ ALL_ONES
}

/// The bytes that a record's checksum covers: term, index (both little-endian), payload.
pub open spec fn covered(term: u64, index: u64, payload: Seq<u8>) -> Seq<u8> {
    spec_u64_to_le_bytes(term) + spec_u64_to_le_bytes(index) + payload
}

/// The checksum of a record.
pub open spec fn record_checksum(term: u64, index: u64, payload: Seq<u8>) -> u64 {
    crc32c(covered(term, index, payload)) as u64
}

/// Takes a CRC over one more byte.
fn feed_byte(crc: u32, byte: u8) -> (next: u32)
    ensures
        next == shifted_by(crc ^ (byte as u32), 8),
{
    let start: u32 = crc ^ (byte as u32);
    let mut state: u32 = start;
    let mut bits: u32 = 0;
    while bits < 8
        invariant
            bits <= 8,
            state == shifted_by(start, bits as nat),
        decreases 8 - bits,
    {
        state = if state & 1 == 1 {
            (state >> 1) ^ CASTAGNOLI
        } else {
            state >> 1
        };
        bits = bits + 1;
    }
    state
}

/// Takes a CRC over some more bytes.
fn feed(crc: u32, bytes: &[u8]) -> (next: u32)
    ensures
        next == fed(crc, bytes@),
{
    let mut state: u32 = crc;
    let mut i: usize = 0;
    assert(bytes@.take(0) =~= Seq::<u8>::empty());
    while i < bytes.len()
        invariant
            i <= bytes@.len(),
            state == fed(crc, bytes@.take(i as int)),
        decreases bytes@.len() - i,
    {
        assert(bytes@.take(i + 1).drop_last() =~= bytes@.take(i as int));
        state = feed_byte(state, bytes[i]);
        i = i + 1;
    }
    assert(bytes@.take(i as int) =~= bytes@);
    state
}

/// Computes the checksum of a record.
///
/// Covering term and index makes swapped payloads and reordered records show. The upper
/// 32 bits of the result are zero.
pub fn compute(term: u64, index: u64, payload: &[u8]) -> (checksum: u64)
    ensures
        checksum == record_checksum(term, index, payload@),
        checksum <= u32::MAX,
{
    let term_bytes: Vec<u8> = u64_to_le_bytes(term);
    let index_bytes: Vec<u8> = u64_to_le_bytes(index);
    let state: u32 = feed(ALL_ONES, term_bytes.as_slice());
    let state: u32 = feed(state, index_bytes.as_slice());
    let state: u32 = feed(state, payload);
    proof {
        lemma_fed_in_turn(ALL_ONES, term_bytes@, index_bytes@);
        lemma_fed_in_turn(ALL_ONES, term_bytes@ + index_bytes@, payload@);
    }
    (state ^ ALL_ONES) as u64
}

/// Whether `expected` is the checksum of a record.
pub fn verify(term: u64, index: u64, payload: &[u8], expected: u64) -> (matches: bool)
    ensures
        matches == (record_checksum(term, index, payload@) == expected),
{
    compute(term, index, payload) == expected
}

/// A byte string may be taken in two parts.
proof fn lemma_fed_in_turn(crc: u32, first: Seq<u8>, second: Seq<u8>)
    ensures
        fed(crc, first + second) == fed(fed(crc, first), second),
    decreases second.len(),
{
    if second.len() == 0 {
        assert(first + second =~= first);
    } else {
        assert((first + second).drop_last() =~= first + second.drop_last());
        lemma_fed_in_turn(crc, first, second.drop_last());
    }
}

proof fn lemma_shifted_in_turn(crc: u32, first: nat, second: nat)
    ensures
        shifted_by(crc, first + second) == shifted_by(shifted_by(crc, first), second),
    decreases second,
{
    if second > 0 {
        lemma_shifted_in_turn(crc, first, (second - 1) as nat);
    }
}

/// Different states stay different.
proof fn lemma_shifted_apart(x: u32, y: u32, bits: nat)
    requires
        x != y,
    ensures
        shifted_by(x, bits) != shifted_by(y, bits),
    decreases bits,
{
    if bits > 0 {
        lemma_shifted_apart(x, y, (bits - 1) as nat);
        let a = shifted_by(x, (bits - 1) as nat);
        let b = shifted_by(y, (bits - 1) as nat);
        assert(a != b ==> shifted(a) != shifted(b)) by (bit_vector);
    }
}

/// Different states stay different when the same bytes follow.
proof fn lemma_fed_apart(x: u32, y: u32, bytes: Seq<u8>)
    requires
        x != y,
    ensures
        fed(x, bytes) != fed(y, bytes),
    decreases bytes.len(),
{
    if bytes.len() > 0 {
        lemma_fed_apart(x, y, bytes.drop_last());
        let a = fed(x, bytes.drop_last());
        let b = fed(y, bytes.drop_last());
        let c = bytes.last() as u32;
        assert(a != b ==> a ^ c != b ^ c) by (bit_vector);
        lemma_shifted_apart(a ^ c, b ^ c, 8);
    }
}

/// What lies above the bits that are shifted out only moves down.
proof fn lemma_upper_bits_move(x: u32, y: u32, bits: u32)
    requires
        bits <= 8,
        y <= 0xFFFF_FFFFu32 >> bits,
    ensures
        shifted_by(x ^ (y << bits), bits as nat) == shifted_by(x, bits as nat) ^ y,
    decreases bits,
{
    if bits == 0 {
        assert(y << 0u32 == y) by (bit_vector);
    } else {
        let less = (bits - 1) as u32;
        assert(bits == less + 1 && bits <= 8 && y <= 0xFFFF_FFFFu32 >> bits ==> (y << 1u32)
            <= 0xFFFF_FFFFu32 >> less && (y << 1u32) << less == y << bits && y < 0x8000_0000u32)
            by (bit_vector);
        lemma_upper_bits_move(x, y << 1u32, less);
        let a = shifted_by(x, less as nat);
        assert(y < 0x8000_0000u32 ==> shifted(a ^ (y << 1u32)) == shifted(a) ^ y) by (bit_vector);
    }
}

/// One byte of a word can be taken with the rest of the word already there.
proof fn lemma_first_byte(s: u32, w: u32)
    ensures
        shifted_by(s ^ w, 8) == shifted_by(s ^ (w & 0xFF), 8) ^ (w >> 8),
{
    assert(s ^ w == (s ^ (w & 0xFF)) ^ ((w >> 8u32) << 8u32)) by (bit_vector);
    assert(w >> 8u32 <= 0xFFFF_FFFFu32 >> 8u32) by (bit_vector);
    lemma_upper_bits_move(s ^ (w & 0xFF), w >> 8u32, 8);
}

/// Four bytes as one word, the first lowest.
spec fn word(bytes: Seq<u8>) -> u32 {
    (bytes[0] as u32) | ((bytes[1] as u32) << 8) | ((bytes[2] as u32) << 16) | ((
    bytes[3] as u32) << 24)
}

/// Taking a CRC over four bytes is shifting it by their bits.
proof fn lemma_four_bytes(s: u32, bytes: Seq<u8>)
    requires
        bytes.len() == 4,
    ensures
        fed(s, bytes) == shifted_by(s ^ word(bytes), 32),
{
    let (a, b, c, d) = (bytes[0], bytes[1], bytes[2], bytes[3]);
    let w = word(bytes);
    assert(w == (a as u32) | ((b as u32) << 8u32) | ((c as u32) << 16u32) | ((d as u32) << 24u32)
        ==> w & 0xFF == a as u32 && (w >> 8u32) & 0xFF == b as u32 && (w >> 16u32) & 0xFF
        == c as u32 && (w >> 24u32) & 0xFF == d as u32) by (bit_vector);
    assert((w >> 8u32) >> 8u32 == w >> 16u32 && (w >> 16u32) >> 8u32 == w >> 24u32 && (w
        >> 24u32) >> 8u32 == 0) by (bit_vector);
    let s1 = shifted_by(s ^ (a as u32), 8);
    let s2 = shifted_by(s1 ^ (b as u32), 8);
    let s3 = shifted_by(s2 ^ (c as u32), 8);
    let s4 = shifted_by(s3 ^ (d as u32), 8);
    let none = bytes.take(0);
    assert(fed(s, none) == s);
    assert(bytes.take(1).drop_last() =~= none);
    assert(fed(s, bytes.take(1)) == s1);
    assert(bytes.take(2).drop_last() =~= bytes.take(1));
    assert(fed(s, bytes.take(2)) == s2);
    assert(bytes.take(3).drop_last() =~= bytes.take(2));
    assert(fed(s, bytes.take(3)) == s3);
    assert(bytes.drop_last() =~= bytes.take(3));
    lemma_first_byte(s, w);
    lemma_first_byte(s1, w >> 8u32);
    lemma_first_byte(s2, w >> 16u32);
    lemma_first_byte(s3, w >> 24u32);
    assert(s4 ^ 0 == s4) by (bit_vector);
    lemma_shifted_in_turn(s ^ w, 8, 8);
    lemma_shifted_in_turn(s ^ w, 16, 8);
    lemma_shifted_in_turn(s ^ w, 24, 8);
}

/// Damage within four consecutive bytes always shows in a CRC32C.
pub proof fn law_damage_shows(before: Seq<u8>, first: Seq<u8>, second: Seq<u8>, after: Seq<u8>)
    requires
        first.len() == 4,
        second.len() == 4,
        first != second,
    ensures
        crc32c(before + first + after) != crc32c(before + second + after),
{
    let s = fed(ALL_ONES, before);
    let v = word(first);
    let w = word(second);
    assert(v != w) by {
        let (a, b, c, d) = (first[0], first[1], first[2], first[3]);
        let (e, f, g, h) = (second[0], second[1], second[2], second[3]);
        assert(!(a == e && b == f && c == g && d == h)) by {
            if a == e && b == f && c == g && d == h {
                assert(first =~= second);
            }
        }
        assert(!(a == e && b == f && c == g && d == h) ==> (a as u32) | ((b as u32) << 8u32) | ((
        c as u32) << 16u32) | ((d as u32) << 24u32) != (e as u32) | ((f as u32) << 8u32) | ((
        g as u32) << 16u32) | ((h as u32) << 24u32)) by (bit_vector);
    }
    assert(v != w ==> s ^ v != s ^ w) by (bit_vector);
    lemma_fed_in_turn(ALL_ONES, before, first);
    lemma_fed_in_turn(ALL_ONES, before, second);
    lemma_fed_in_turn(ALL_ONES, before + first, after);
    lemma_fed_in_turn(ALL_ONES, before + second, after);
    lemma_four_bytes(s, first);
    lemma_four_bytes(s, second);
    lemma_shifted_apart(s ^ v, s ^ w, 32);
    lemma_fed_apart(fed(s, first), fed(s, second), after);
    let x = fed(ALL_ONES, before + first + after);
    let y = fed(ALL_ONES, before + second + after);
    assert(x != y ==> x ^ ALL_ONES != y ^ ALL_ONES) by (bit_vector);
}

/// Two words that differ in one of their 32-bit halves.
pub open spec fn differ_in_one_half(a: u64, b: u64) -> bool {
    &&& a != b
    &&& a >> 32 == b >> 32 || a & 0xFFFF_FFFF == b & 0xFFFF_FFFF
}

/// The bytes of two such words differ in the four bytes of that half alone.
proof fn lemma_halves(a: u64, b: u64)
    requires
        differ_in_one_half(a, b),
    ensures
        ({
            let x = spec_u64_to_le_bytes(a);
            let y = spec_u64_to_le_bytes(b);
            &&& x.len() == 8
            &&& y.len() == 8
            &&& x != y
            &&& x.take(4) == y.take(4) || x.skip(4) == y.skip(4)
        }),
{
    let x = spec_u64_to_le_bytes(a);
    let y = spec_u64_to_le_bytes(b);
    lemma_auto_spec_u64_to_from_le_bytes();
    spec_u64_to_le_bytes_to_open(a);
    spec_u64_to_le_bytes_to_open(b);
    if a >> 32 == b >> 32 {
        assert(a >> 32u64 == b >> 32u64 ==> a >> 32u64 == b >> 32u64 && a >> 40u64 == b >> 40u64
            && a >> 48u64 == b >> 48u64 && a >> 56u64 == b >> 56u64) by (bit_vector);
        assert(x.skip(4) =~= y.skip(4));
    } else {
        assert(a & 0xFFFF_FFFF == b & 0xFFFF_FFFF ==> a & 0xFF == b & 0xFF && (a >> 8u64) & 0xFF
            == (b >> 8u64) & 0xFF && (a >> 16u64) & 0xFF == (b >> 16u64) & 0xFF && (a >> 24u64)
            & 0xFF == (b >> 24u64) & 0xFF) by (bit_vector);
        assert(x.take(4) =~= y.take(4));
    }
    assert(x != y) by {
        assert(spec_u64_from_le_bytes(x) == a);
        assert(spec_u64_from_le_bytes(y) == b);
    }
}

/// Byte strings that differ in one half of an eight-byte word have different CRCs.
proof fn lemma_word_shows(before: Seq<u8>, a: u64, b: u64, after: Seq<u8>)
    requires
        differ_in_one_half(a, b),
    ensures
        crc32c(before + spec_u64_to_le_bytes(a) + after) != crc32c(
            before + spec_u64_to_le_bytes(b) + after,
        ),
{
    let x = spec_u64_to_le_bytes(a);
    let y = spec_u64_to_le_bytes(b);
    lemma_halves(a, b);
    if x.take(4) == y.take(4) {
        assert(x.skip(4) != y.skip(4)) by {
            assert(x =~= x.take(4) + x.skip(4));
            assert(y =~= y.take(4) + y.skip(4));
        }
        let same = before + x.take(4);
        law_damage_shows(same, x.skip(4), y.skip(4), after);
        assert(same + x.skip(4) + after =~= before + x + after);
        assert(same + y.skip(4) + after =~= before + y + after);
    } else {
        let same = x.skip(4) + after;
        law_damage_shows(before, x.take(4), y.take(4), same);
        assert(before + x.take(4) + same =~= before + x + after);
        assert(before + y.take(4) + same =~= before + y + after);
    }
}

/// A record that is moved to another index or term gets another checksum, where the two
/// indices (or terms) differ in one of their 32-bit halves.
pub proof fn law_moved_record_shows(
    term: u64,
    index: u64,
    other_term: u64,
    other_index: u64,
    payload: Seq<u8>,
)
    requires
        (term == other_term && differ_in_one_half(index, other_index)) || (index == other_index
            && differ_in_one_half(term, other_term)),
    ensures
        record_checksum(term, index, payload) != record_checksum(other_term, other_index, payload),
        record_checksum(term, index, payload) <= u32::MAX,
{
    if term == other_term {
        lemma_word_shows(spec_u64_to_le_bytes(term), index, other_index, payload);
    } else {
        let none = Seq::<u8>::empty();
        let same = spec_u64_to_le_bytes(index) + payload;
        lemma_word_shows(none, term, other_term, same);
        assert(none + spec_u64_to_le_bytes(term) + same =~= covered(term, index, payload));
        assert(none + spec_u64_to_le_bytes(other_term) + same =~= covered(
            other_term,
            index,
            payload,
        ));
    }
}

/// A checksum covers term, index and the whole payload, whatever its length: no two records
/// that differ in one of these have the same bytes covered.
pub proof fn law_covered_whole(
    term: u64,
    index: u64,
    payload: Seq<u8>,
    other_term: u64,
    other_index: u64,
    other: Seq<u8>,
)
    ensures
        covered(term, index, payload).len() == 16 + payload.len(),
        covered(term, index, payload).skip(16) == payload,
        mem::u64_at(covered(term, index, payload), 0) == term,
        mem::u64_at(covered(term, index, payload), 8) == index,
        covered(term, index, payload) == covered(other_term, other_index, other) ==> term
            == other_term && index == other_index && payload == other,
{
    lemma_auto_spec_u64_to_from_le_bytes();
    let a = covered(term, index, payload);
    let b = covered(other_term, other_index, other);
    assert(a.subrange(0, 8) =~= spec_u64_to_le_bytes(term));
    assert(a.subrange(8, 16) =~= spec_u64_to_le_bytes(index));
    assert(a.skip(16) =~= payload);
    assert(b.subrange(0, 8) =~= spec_u64_to_le_bytes(other_term));
    assert(b.subrange(8, 16) =~= spec_u64_to_le_bytes(other_index));
    assert(b.skip(16) =~= other);
}

/// Damage anywhere in a payload shows: two payloads of the same length that differ, but only
/// within four consecutive bytes from `at` on, have different checksums.
pub proof fn law_payload_damage_shows(
    term: u64,
    index: u64,
    payload: Seq<u8>,
    damaged: Seq<u8>,
    at: int,
)
    requires
        payload.len() == damaged.len(),
        payload != damaged,
        forall|k: int|
            #![trigger payload[k]]
            #![trigger damaged[k]]
            0 <= k < payload.len() && !(at <= k < at + 4) ==> payload[k] == damaged[k],
    ensures
        record_checksum(term, index, payload) != record_checksum(term, index, damaged),
{
    lemma_auto_spec_u64_to_from_le_bytes();
    let a = covered(term, index, payload);
    let b = covered(term, index, damaged);
    assert(a.skip(16) =~= payload);
    assert(b.skip(16) =~= damaged);
    assert(exists|k: int| 0 <= k < payload.len() && payload[k] != damaged[k]) by {
        if forall|k: int| 0 <= k < payload.len() ==> payload[k] == damaged[k] {
            assert(payload =~= damaged);
        }
    }
    let k = choose|k: int| 0 <= k < payload.len() && payload[k] != damaged[k];
    let j = if 16 + at <= a.len() - 4 {
        16 + at
    } else {
        a.len() - 4
    };
    let first = a.subrange(j, j + 4);
    let second = b.subrange(j, j + 4);
    assert(first[16 + k - j] != second[16 + k - j]);
    law_damage_shows(a.take(j), first, second, a.skip(j + 4));
    assert(a.take(j) + first + a.skip(j + 4) =~= a);
    assert forall|i: int| 0 <= i < a.len() && !(j <= i < j + 4) implies a[i] == b[i] by {
        if i >= 16 {
            assert(payload[i - 16] == damaged[i - 16]);
        }
    }
    assert(a.take(j) + second + a.skip(j + 4) =~= b);
}

} // verus!

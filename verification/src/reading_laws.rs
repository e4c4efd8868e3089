//! What reads and appends answer, on a pool that one host has to itself.
use crate::checksum;
use crate::engine;
use crate::error::FenceError;
use crate::layout;
use crate::layout::{PoolGeometry, HEADER_SIZE, STATE_ABANDONED, STATE_COMMITTED};
use crate::laws;
use crate::memory as mem;
use crate::pool;
use crate::pool::RecordView;
use crate::record::Record;
use vstd::prelude::*;

verus! {

/// A read that returned a record.
pub open spec fn is_record(result: Result<Option<RecordView>, FenceError>) -> bool {
    result matches Ok(Some(_))
}

/// `records` are the records among `results`, one for one and in order: the `k`-th is the
/// result at `places[k]`, the places ascend, and every result that is a record has its place.
pub open spec fn picks(
    results: Seq<Result<Option<RecordView>, FenceError>>,
    places: Seq<int>,
    records: Seq<RecordView>,
) -> bool {
    &&& places.len() == records.len()
    &&& forall|k: int|
        #![trigger places[k]]
        0 <= k < places.len() ==> {
            &&& 0 <= places[k] < results.len()
            &&& results[places[k]] == Ok::<Option<RecordView>, FenceError>(Some(records[k]))
        }
    &&& forall|j: int, k: int|
        #![trigger places[j], places[k]]
        0 <= j < k < places.len() ==> places[j] < places[k]
    &&& forall|i: int|
        #![trigger results[i]]
        0 <= i < results.len() && is_record(results[i]) ==> places.contains(i)
}

/// Several reads together give every record that one of them gave, in order, and nothing
/// else.
pub proof fn law_gathered_records(results: Seq<Result<Option<RecordView>, FenceError>>)
    requires
        pool::gathered(results) is Ok,
    ensures
        exists|places: Seq<int>| picks(results, places, pool::gathered(results)->Ok_0),
        forall|i: int| 0 <= i < results.len() ==> (#[trigger] results[i]) is Ok,
    decreases results.len(),
{
    if results.len() == 0 {
        assert(picks(results, Seq::empty(), pool::gathered(results)->Ok_0));
    } else {
        let less = results.drop_last();
        let n = less.len() as int;
        law_gathered_records(less);
        let fewer = pool::gathered(less)->Ok_0;
        let places = choose|places: Seq<int>| picks(less, places, fewer);
        assert forall|i: int| 0 <= i < results.len() implies (#[trigger] results[i]) is Ok by {
            if i < n {
                assert(less[i] is Ok);
            }
        }
        match results.last() {
            Ok(Some(record)) => {
                let more = places.push(n);
                assert forall|i: int|
                    #![trigger results[i]]
                    0 <= i < results.len() && is_record(results[i]) implies more.contains(
                    i,
                ) by {
                    if i < n {
                        assert(less[i] == results[i]);
                        assert(places.contains(i));
                        let k = choose|k: int| 0 <= k < places.len() && places[k] == i;
                        assert(more[k] == i);
                    } else {
                        assert(more[places.len() as int] == i);
                    }
                }
                assert forall|k: int|
                    #![trigger more[k]]
                    0 <= k < more.len() implies 0 <= more[k] < results.len() && results[more[k]]
                    == Ok::<Option<RecordView>, FenceError>(
                    Some((pool::gathered(results)->Ok_0)[k]),
                ) by {
                    if k < places.len() {
                        assert(more[k] == places[k]);
                        assert(less[places[k]] == results[places[k]]);
                    }
                }
                assert(picks(results, more, pool::gathered(results)->Ok_0));
            },
            _ => {
                assert forall|i: int|
                    #![trigger results[i]]
                    0 <= i < results.len() && is_record(results[i]) implies places.contains(i) by {
                    assert(less[i] == results[i]);
                }
                assert forall|k: int|
                    #![trigger places[k]]
                    0 <= k < places.len() implies 0 <= places[k] < results.len()
                    && results[places[k]] == Ok::<Option<RecordView>, FenceError>(
                    Some((pool::gathered(results)->Ok_0)[k]),
                ) by {
                    assert(less[places[k]] == results[places[k]]);
                }
                assert(picks(results, places, pool::gathered(results)->Ok_0));
            },
        }
    }
}

/// Several reads that each give a record give as many records together, each in its place.
pub proof fn law_gathered_all(results: Seq<Result<Option<RecordView>, FenceError>>)
    requires
        forall|i: int| 0 <= i < results.len() ==> is_record(#[trigger] results[i]),
    ensures
        pool::gathered(results) matches Ok(records) && {
            &&& records.len() == results.len()
            &&& forall|i: int|
                #![trigger results[i]]
                #![trigger records[i]]
                0 <= i < results.len() ==> results[i] == Ok::<Option<RecordView>, FenceError>(
                    Some(records[i]),
                )
        },
    decreases results.len(),
{
    if results.len() > 0 {
        let less = results.drop_last();
        assert forall|i: int| 0 <= i < less.len() implies is_record(#[trigger] less[i]) by {
            assert(results[i] == less[i]);
        }
        law_gathered_all(less);
        assert(results[results.len() - 1] == results.last());
        let records = pool::gathered(results)->Ok_0;
        assert forall|i: int| 0 <= i < results.len() implies #[trigger] results[i] == Ok::<
            Option<RecordView>,
            FenceError,
        >(Some(records[i])) by {
            if i < less.len() {
                assert(less[i] == results[i]);
            }
        }
    }
}

/// Several reads fail together exactly if one of them fails, and then as the first of these.
pub proof fn law_gathered_error(results: Seq<Result<Option<RecordView>, FenceError>>, at: int)
    requires
        0 <= at < results.len(),
        results[at] is Err,
        forall|i: int| 0 <= i < at ==> (#[trigger] results[i]) is Ok,
    ensures
        pool::gathered(results) == Err::<Seq<RecordView>, FenceError>(results[at]->Err_0),
        pool::gathered(results.take(at)) is Ok,
    decreases results.len(),
{
    let less = results.drop_last();
    if at < less.len() {
        assert forall|i: int| 0 <= i < at implies (#[trigger] less[i]) is Ok by {
            assert(results[i] is Ok);
        }
        law_gathered_error(less, at);
        assert(less.take(at) =~= results.take(at));
    } else {
        assert(results.take(at) =~= less);
        lemma_gathered_ok(less);
    }
}

proof fn lemma_gathered_ok(results: Seq<Result<Option<RecordView>, FenceError>>)
    requires
        forall|i: int| 0 <= i < results.len() ==> (#[trigger] results[i]) is Ok,
    ensures
        pool::gathered(results) is Ok,
    decreases results.len(),
{
    if results.len() > 0 {
        let less = results.drop_last();
        assert forall|i: int| 0 <= i < less.len() implies (#[trigger] less[i]) is Ok by {
            assert(results[i] is Ok);
        }
        lemma_gathered_ok(less);
        assert(results[results.len() - 1] is Ok);
    }
}

/// What a read of each index from `start` up to `end` (exclusive) would return, on its own.
pub open spec fn single_reads(g: PoolGeometry, m: Seq<u8>, start: u64, end: int) -> Seq<
    Result<Option<RecordView>, FenceError>,
> {
    Seq::new((end - start) as nat, |i: int| pool::read_result(g, m, (start + i) as u64))
}

/// Reading the same index in two pools with the same log gives the same.
proof fn lemma_same_reads(g: PoolGeometry, a: Seq<u8>, b: Seq<u8>, index: u64)
    requires
        g.fits(a.len()),
        a.len() == b.len(),
        mem::agree(a, b, 0, g.record_at(g.capacity as int)),
        pool::committed_tail(b) <= g.capacity || index <= g.capacity,
    ensures
        pool::read_result(g, a, index) == pool::read_result(g, b, index),
        pool::committed_tail(a) == pool::committed_tail(b),
{
    pool::lemma_same_log(g, a, b);
    if index <= g.capacity {
        assert(pool::read_result(g, a, index) == pool::read_result(g, b, index));
    }
}

/// A range read is reads of its indices one by one, up to the first that fails; it leaves the
/// log alone.
proof fn lemma_range_singly(g: PoolGeometry, m: Seq<u8>, host: u16, start: u64, end: int)
    requires
        g.fits(m.len()),
        host < g.max_hosts,
        start <= end <= u64::MAX + 1,
        pool::committed_tail(m) <= g.capacity || end <= g.capacity + 1,
    ensures
        ({
            let (results, after) = pool::range_read(g, m, host, start, end);
            let singly = single_reads(g, m, start, end);
            &&& after.len() == m.len()
            &&& mem::agree(after, m, 0, g.record_at(g.capacity as int))
            &&& results.len() <= singly.len()
            &&& results == singly.take(results.len() as int)
            &&& pool::gathered(results) is Ok ==> results == singly
            &&& pool::gathered(results) is Err ==> results.len() > 0 && results.last() is Err
                && forall|i: int| 0 <= i < results.len() - 1 ==> (#[trigger] results[i]) is Ok
        }),
    decreases end - start,
{
    let (results, after) = pool::range_read(g, m, host, start, end);
    let singly = single_reads(g, m, start, end);
    if end > start {
        lemma_range_singly(g, m, host, start, end - 1);
        let (fewer, mid) = pool::range_read(g, m, host, start, end - 1);
        let less = single_reads(g, m, start, end - 1);
        assert(less =~= singly.drop_last());
        let index = (end - 1) as u64;
        if pool::gathered(fewer) is Err {
            assert(results =~= singly.take(results.len() as int));
        } else {
            pool::lemma_same_log(g, mid, m);
            lemma_same_reads(g, mid, m, index);
            laws::law_read_keeps_log(g, mid, host, index);
            assert(fewer == less);
            assert(results =~= singly);
            assert(results.drop_last() =~= fewer);
            law_gathered_records(fewer);
            assert forall|i: int| 0 <= i < results.len() - 1 implies (#[trigger] results[i]) is Ok by {
                assert(fewer[i] is Ok);
            }
        }
    }
    assert(results =~= singly.take(results.len() as int));
}

/// A range read returns what reads of its indices return one by one: the records among
/// them, in the order of their indices, or the first error. (With a committed tail past the
/// capacity, in a damaged header, this is said of the slots of the pool.)
pub proof fn law_range_read(g: PoolGeometry, m: Seq<u8>, host: u16, start: u64, end: u64)
    requires
        g.fits(m.len()),
        host < g.max_hosts,
        start <= end,
        pool::committed_tail(m) <= g.capacity || end <= g.capacity + 1,
    ensures
        ({
            let returned = pool::gathered(pool::range_read(g, m, host, start, end as int).0);
            let singly = single_reads(g, m, start, end as int);
            &&& singly.len() == end - start
            &&& returned matches Ok(records) ==> exists|places: Seq<int>|
                picks(singly, places, records)
            &&& returned is Ok <==> forall|i: int|
                0 <= i < end - start ==> (#[trigger] singly[i]) is Ok
            &&& forall|at: int|
                0 <= at < end - start && #[trigger] singly[at] is Err && (forall|i: int|
                    0 <= i < at ==> (#[trigger] singly[i]) is Ok) ==> returned == Err::<
                    Seq<RecordView>,
                    FenceError,
                >(singly[at]->Err_0)
        }),
{
    let (results, after) = pool::range_read(g, m, host, start, end as int);
    let singly = single_reads(g, m, start, end as int);
    lemma_range_singly(g, m, host, start, end as int);
    if pool::gathered(results) is Ok {
        law_gathered_records(results);
    } else {
        let at = results.len() - 1;
        assert(singly[at] == results[at]);
        law_gathered_error(results, at);
        assert forall|other: int|
            0 <= other < end - start && #[trigger] singly[other] is Err && (forall|i: int|
                0 <= i < other ==> (#[trigger] singly[i]) is Ok) implies other == at by {
            if other < at {
                assert(results[other] is Ok);
                assert(results[other] == singly[other]);
            }
        }
    }
}

/// Where every index of a range can be read, a range read returns that many records, each as
/// a read of its index returns it.
pub proof fn law_range_read_whole(g: PoolGeometry, m: Seq<u8>, host: u16, start: u64, end: u64)
    requires
        g.fits(m.len()),
        host < g.max_hosts,
        start <= end,
        pool::committed_tail(m) <= g.capacity || end <= g.capacity + 1,
        forall|index: u64|
            start <= index < end ==> is_record(#[trigger] pool::read_result(g, m, index)),
    ensures
        pool::gathered(pool::range_read(g, m, host, start, end as int).0) matches Ok(records) && {
            &&& records.len() == end - start
            &&& forall|index: u64|
                start <= index < end ==> #[trigger] pool::read_result(g, m, index) == Ok::<
                    Option<RecordView>,
                    FenceError,
                >(Some(records[index - start]))
        },
{
    let (results, after) = pool::range_read(g, m, host, start, end as int);
    let singly = single_reads(g, m, start, end as int);
    lemma_range_singly(g, m, host, start, end as int);
    assert forall|i: int| 0 <= i < results.len() implies is_record(#[trigger] results[i]) by {
        assert(results[i] == singly[i]);
        assert(is_record(pool::read_result(g, m, (start + i) as u64)));
    }
    law_gathered_all(results);
    let records = pool::gathered(results)->Ok_0;
    assert forall|index: u64| start <= index < end implies #[trigger] pool::read_result(
        g,
        m,
        index,
    ) == Ok::<Option<RecordView>, FenceError>(Some(records[index - start])) by {
        assert(results[index - start] == singly[index - start]);
    }
}

/// Two range reads side by side return what one range read over both returns.
pub proof fn law_range_read_split(
    g: PoolGeometry,
    m: Seq<u8>,
    host: u16,
    start: u64,
    mid: u64,
    end: u64,
)
    requires
        g.fits(m.len()),
        host < g.max_hosts,
        start <= mid <= end,
        pool::committed_tail(m) <= g.capacity || end <= g.capacity + 1,
    ensures
        ({
            let whole = pool::gathered(pool::range_read(g, m, host, start, end as int).0);
            let left = pool::gathered(pool::range_read(g, m, host, start, mid as int).0);
            let right = pool::gathered(pool::range_read(g, m, host, mid, end as int).0);
            whole == (match (left, right) {
                (Ok(a), Ok(b)) => Ok(a + b),
                (Ok(_), Err(error)) => Err(error),
                (Err(error), _) => Err(error),
            })
        }),
{
    let whole = pool::range_read(g, m, host, start, end as int).0;
    let left = pool::range_read(g, m, host, start, mid as int).0;
    let right = pool::range_read(g, m, host, mid, end as int).0;
    lemma_range_singly(g, m, host, start, end as int);
    lemma_range_singly(g, m, host, start, mid as int);
    lemma_range_singly(g, m, host, mid, end as int);
    let a = single_reads(g, m, start, mid as int);
    let b = single_reads(g, m, mid, end as int);
    let all = single_reads(g, m, start, end as int);
    assert(all =~= a + b);
    lemma_gathered_prefix(all, whole);
    lemma_gathered_prefix(a, left);
    lemma_gathered_prefix(b, right);
    lemma_gathered_parts(a, b);
}

/// What follows on the first error does not matter.
proof fn lemma_gathered_prefix(
    all: Seq<Result<Option<RecordView>, FenceError>>,
    part: Seq<Result<Option<RecordView>, FenceError>>,
)
    requires
        part.len() <= all.len(),
        part == all.take(part.len() as int),
        pool::gathered(part) is Ok ==> part == all,
        pool::gathered(part) is Err ==> part.len() > 0 && part.last() is Err && forall|i: int|
            0 <= i < part.len() - 1 ==> (#[trigger] part[i]) is Ok,
    ensures
        pool::gathered(part) == pool::gathered(all),
{
    if pool::gathered(part) is Err {
        let at = part.len() - 1;
        assert forall|i: int| 0 <= i < at implies (#[trigger] all[i]) is Ok by {
            assert(part[i] == all[i]);
        }
        assert(all[at] == part[at]);
        law_gathered_error(all, at);
        law_gathered_error(part, at);
    }
}

/// Results gathered in two parts.
proof fn lemma_gathered_parts(
    a: Seq<Result<Option<RecordView>, FenceError>>,
    b: Seq<Result<Option<RecordView>, FenceError>>,
)
    ensures
        pool::gathered(a + b) == (match (pool::gathered(a), pool::gathered(b)) {
            (Ok(x), Ok(y)) => Ok(x + y),
            (Ok(_), Err(error)) => Err(error),
            (Err(error), _) => Err(error),
        }),
    decreases b.len(),
{
    if b.len() == 0 {
        assert(a + b =~= a);
        if pool::gathered(a) is Ok {
            let x = pool::gathered(a)->Ok_0;
            assert(x + Seq::<RecordView>::empty() =~= x);
        }
    } else {
        let less = b.drop_last();
        lemma_gathered_parts(a, less);
        assert((a + b).drop_last() =~= a + less);
        assert((a + b).last() == b.last());
        if pool::gathered(a) is Ok && pool::gathered(less) is Ok {
            let x = pool::gathered(a)->Ok_0;
            let y = pool::gathered(less)->Ok_0;
            if is_record(b.last()) {
                let record = b.last()->Ok_0->0;
                assert((x + y).push(record) =~= x + y.push(record));
            }
        }
    }
}

/// What a read answers, told from the bytes of the pool: nothing past the committed tail can
/// be read; a slot that is not committed reads as missing; of a committed slot, term, index,
/// writer and the payload are returned as they lie there, if and only if the checksum that
/// lies there is theirs.
pub proof fn law_read_answers(g: PoolGeometry, m: Seq<u8>, index: u64)
    requires
        g.fits(m.len()),
        pool::committed_tail(m) <= g.capacity || index <= g.capacity,
    ensures
        ({
            let tail = mem::u64_at(m, 32);
            let at = 64 + (index - 1) * (64 + g.payload_size);
            let stored = mem::u32_at(m, at + 32);
            let len = if stored <= g.payload_size {
                stored as int
            } else {
                g.payload_size as int
            };
            let term = mem::u64_at(m, at + 8);
            let number = mem::u64_at(m, at + 16);
            let data = m.subrange(at + 64, at + 64 + len);
            let intact = checksum::record_checksum(term, number, data) == mem::u64_at(m, at + 40);
            let writer_id = mem::u64_at(m, at + 24);
            pool::read_result(g, m, index) == (if index == 0 || index > tail {
                Err(FenceError::IndexOutOfBounds { index, committed_tail: tail })
            } else if m[at] != 2 {
                Ok(None)
            } else if intact {
                Ok(Some(RecordView { index: number, term, writer_id, data }))
            } else {
                Err(FenceError::ChecksumMismatch { index })
            })
        }),
{
    if 0 < index <= pool::committed_tail(m) {
        pool::lemma_slot_named(g, index);
        layout::law_places(g, index - 1, 0);
    }
}

/// An append is accepted exactly if the payload fits into a slot and a slot is left; the
/// record gets the next index. A refusal says what stood against it.
pub proof fn law_append_answers(g: PoolGeometry, m: Seq<u8>, len: nat)
    requires
        g.fits(m.len()),
        len <= usize::MAX,
    ensures
        ({
            let claimed = mem::u64_at(m, 40);
            let result = pool::append_result(g, m, len);
            &&& result is Ok <==> len <= g.payload_size && claimed < g.capacity
            &&& result matches Ok(index) ==> index == claimed + 1
            &&& len > g.payload_size ==> (result matches Err(
                FenceError::PayloadTooLarge { max, got },
            ) && max == g.payload_size && got == len)
            &&& len <= g.payload_size && claimed >= g.capacity ==> (result matches Err(
                FenceError::PoolFull { capacity, requested_slot },
            ) && capacity == g.capacity && requested_slot == claimed)
        }),
{
}

/// An append that is accepted leaves the record in the next slot, field by field: the state
/// says committed, then term, index, writer, length, checksum and payload; and one slot more
/// is claimed.
pub proof fn law_append_writes(
    g: PoolGeometry,
    m: Seq<u8>,
    host: u16,
    term: u64,
    data: Seq<u8>,
)
    requires
        g.fits(m.len()),
        host < g.max_hosts,
        pool::append_result(g, m, data.len()) is Ok,
    ensures
        ({
            let after = pool::appended(g, m, host, term, data);
            let index = pool::append_result(g, m, data.len())->Ok_0;
            let at = 64 + (index - 1) * (64 + g.payload_size);
            &&& after.len() == m.len()
            &&& after[at] == 2
            &&& mem::u64_at(after, at + 8) == term
            &&& mem::u64_at(after, at + 16) == index
            &&& mem::u64_at(after, at + 24) == host
            &&& mem::u32_at(after, at + 32) == data.len()
            &&& mem::u64_at(after, at + 40) == checksum::record_checksum(term, index, data)
            &&& after.subrange(at + 64, at + 64 + data.len()) == data
            &&& mem::u64_at(after, 40) == mem::u64_at(m, 40) + 1
        }),
{
    laws::lemma_appended(g, m, host, term, data);
    let slot = pool::reserve_tail(m);
    layout::law_places(g, slot as int, 0);
    let after = pool::appended(g, m, host, term, data);
    let fields = pool::fields_of(g, after, slot as int);
    assert(fields == pool::appended_fields(slot, host, term, data));
}

/// An append that is accepted moves the committed tail past exactly the committed slots that
/// follow it: it stops at the first slot that is not committed, or at the end of the pool.
pub proof fn law_append_stops_at_gap(
    g: PoolGeometry,
    m: Seq<u8>,
    host: u16,
    term: u64,
    data: Seq<u8>,
)
    requires
        g.fits(m.len()),
        host < g.max_hosts,
        pool::append_result(g, m, data.len()) is Ok,
    ensures
        ({
            let after = pool::appended(g, m, host, term, data);
            let tail = pool::committed_tail(after);
            &&& pool::committed_tail(m) <= tail
            &&& forall|s: int|
                pool::committed_tail(m) <= s < tail ==> #[trigger] pool::state_of(g, after, s)
                    == STATE_COMMITTED
            &&& tail < g.capacity ==> pool::state_of(g, after, tail as int) != STATE_COMMITTED
            &&& pool::committed_tail(m) <= g.capacity ==> tail <= g.capacity
        }),
{
    laws::lemma_appended(g, m, host, term, data);
    pool::lemma_sweep_range(
        g,
        pool::appended(g, m, host, term, data),
        pool::committed_tail(m) as int,
    );
}

/// A record whose payload is damaged within four consecutive bytes, wherever in the payload,
/// is never returned: a read says that it is damaged, and recovery abandons it.
pub proof fn law_damaged_record_found(
    g: PoolGeometry,
    m: Seq<u8>,
    damaged: Seq<u8>,
    index: u64,
    at: int,
)
    requires
        g.fits(m.len()),
        damaged.len() == m.len(),
        index <= g.capacity,
        is_record(pool::read_result(g, m, index)),
        ({
            let start = g.record_at(index - 1) + 64;
            let len = (pool::read_result(g, m, index)->Ok_0->0).data.len();
            &&& forall|i: int|
                #![trigger m[i]]
                #![trigger damaged[i]]
                0 <= i < m.len() && !(start + at <= i < start + at + 4 && start <= i < start + len)
                    ==> m[i] == damaged[i]
            &&& m != damaged
        }),
    ensures
        pool::read_result(g, damaged, index) == Err::<Option<RecordView>, FenceError>(
            FenceError::ChecksumMismatch { index },
        ),
        index <= pool::reserve_tail(m) ==> pool::state_of(
            g,
            pool::recovered(g, damaged),
            index - 1,
        ) == STATE_ABANDONED,
{
    layout::law_layout(g);
    pool::lemma_slot_named(g, index);
    let slot = index - 1;
    let start = g.record_at(slot) + 64;
    let f = pool::fields_of(g, m, slot);
    let d = pool::fields_of(g, damaged, slot);
    assert(HEADER_SIZE <= g.record_at(slot));
    assert(g.record_at(slot) + g.record_size <= g.record_at(g.capacity as int));
    assert(mem::agree(m, damaged, 0, start));
    mem::lemma_agree(m, damaged, 0, start);
    assert(exists|i: int| 0 <= i < m.len() && m[i] != damaged[i]) by {
        if forall|i: int| 0 <= i < m.len() ==> m[i] == damaged[i] {
            assert(m =~= damaged);
        }
    }
    let i = choose|i: int| 0 <= i < m.len() && m[i] != damaged[i];
    assert(f.payload[i - start] == m[i]);
    assert(d.payload[i - start] == damaged[i]);
    assert forall|k: int|
        #![trigger f.payload[k]]
        #![trigger d.payload[k]]
        0 <= k < f.payload.len() && !(at <= k < at + 4) implies f.payload[k] == d.payload[k] by {
        assert(m[start + k] == damaged[start + k]);
    }
    checksum::law_payload_damage_shows(f.term, f.index, f.payload, d.payload, at);
    assert(!d.intact());
    laws::lemma_recovered(g, damaged);
}

/// A read counts itself for its host if it returns a record, or counts the damage if it finds
/// any; nothing else is counted.
pub proof fn law_read_counted(
    g: PoolGeometry,
    m: Seq<u8>,
    host: u16,
    index: u64,
    other_host: u16,
    counter: usize,
)
    requires
        g.fits(m.len()),
        host < g.max_hosts,
        other_host < g.max_hosts,
        counter % 8 == 0,
        counter < 64,
    ensures
        ({
            let result = pool::read_result(g, m, index);
            let before = pool::counter(g, m, other_host, counter);
            let damage = result matches Err(FenceError::ChecksumMismatch { .. });
            pool::counter(g, pool::after_read(g, m, host, index), other_host, counter) == (if host
                != other_host {
                before
            } else if counter == pool::METRICS_READS_TOTAL && is_record(result) {
                mem::wrapped_sum(before, 1)
            } else if counter == pool::METRICS_CHECKSUM_FAILURES && damage {
                mem::wrapped_sum(before, 1)
            } else {
                before
            })
        }),
{
    laws::law_counters_independent(
        g,
        m,
        host,
        pool::METRICS_READS_TOTAL,
        1,
        other_host,
        counter,
    );
    laws::law_counters_independent(
        g,
        m,
        host,
        pool::METRICS_CHECKSUM_FAILURES,
        1,
        other_host,
        counter,
    );
}

/// A range read counts every record that it returns, for its host.
pub proof fn law_range_read_counted(g: PoolGeometry, m: Seq<u8>, host: u16, start: u64, end: u64)
    requires
        g.fits(m.len()),
        host < g.max_hosts,
        start <= end,
        pool::committed_tail(m) <= g.capacity || end <= g.capacity + 1,
    ensures
        ({
            let (results, after) = pool::range_read(g, m, host, start, end as int);
            &&& after.len() == m.len()
            &&& mem::agree(after, m, 0, g.record_at(g.capacity as int))
            &&& pool::gathered(results) matches Ok(records) ==> pool::counter(
                g,
                after,
                host,
                pool::METRICS_READS_TOTAL,
            ) == (pool::counter(g, m, host, pool::METRICS_READS_TOTAL) + records.len())
                % 0x1_0000_0000_0000_0000
        }),
    decreases end - start,
{
    lemma_range_singly(g, m, host, start, end as int);
    if start < end {
        let fewer = (end - 1) as u64;
        law_range_read_counted(g, m, host, start, fewer);
        lemma_range_singly(g, m, host, start, fewer as int);
        let (less, mid) = pool::range_read(g, m, host, start, fewer as int);
        if pool::gathered(less) is Ok {
            let (results, after) = pool::range_read(g, m, host, start, end as int);
            assert(results.drop_last() =~= less);
            law_read_counted(g, mid, host, fewer, host, pool::METRICS_READS_TOTAL);
        }
    }
}

/// Moving the committed tail on takes it past exactly the committed slots that follow it: it
/// stops at the first slot that is not committed, or at the end of the pool. No other byte
/// changes.
pub proof fn law_advance_stops_at_gap(g: PoolGeometry, m: Seq<u8>)
    requires
        g.fits(m.len()),
    ensures
        ({
            let after = pool::swept(g, m);
            let tail = pool::swept_tail(g, m);
            &&& after.len() == m.len()
            &&& mem::u64_at(after, 32) == tail
            &&& mem::u64_at(m, 32) <= tail
            &&& forall|s: int|
                mem::u64_at(m, 32) <= s < tail ==> #[trigger] pool::state_of(g, m, s)
                    == STATE_COMMITTED
            &&& tail < g.capacity ==> pool::state_of(g, m, tail as int) != STATE_COMMITTED
            &&& mem::agree(after, m, 0, 32)
            &&& mem::agree(after, m, 40, m.len() as int)
        }),
{
    laws::lemma_swept(g, m);
    pool::lemma_sweep_range(g, m, pool::committed_tail(m) as int);
}

/// What contracts say of a record is said of its fields as the caller gets them, and of several
/// records one by one.
pub proof fn law_records_shown(record: Record, records: Vec<Record>, error: FenceError)
    ensures
        engine::record_view(Ok(Some(record))) == Ok::<Option<RecordView>, FenceError>(
            Some(
                RecordView {
                    index: record.index,
                    term: record.term,
                    writer_id: record.writer_id,
                    data: record.data@,
                },
            ),
        ),
        engine::record_view(Ok(None)) == Ok::<Option<RecordView>, FenceError>(None),
        engine::record_view(Err(error)) == Err::<Option<RecordView>, FenceError>(error),
        engine::records_view(Err(error)) == Err::<Seq<RecordView>, FenceError>(error),
        engine::records_view(Ok(records)) matches Ok(shown) && {
            &&& shown.len() == records@.len()
            &&& forall|i: int|
                0 <= i < shown.len() ==> engine::record_view(Ok(Some(records@[i]))) == Ok::<
                    Option<RecordView>,
                    FenceError,
                >(Some(#[trigger] shown[i]))
        },
{
}

} // verus!

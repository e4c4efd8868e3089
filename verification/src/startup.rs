//! Creating and opening a configured pool.
use crate::alloc_laws;
use crate::backend::{Access, MemoryBackend};
use crate::config::FenceConfig;
use crate::engine;
use crate::engine::FenceRuntime;
use crate::error::FenceError;
use crate::layout;
use crate::layout::{PoolGeometry, HEADER_SIZE};
use crate::memory as mem;
use crate::pool;
use crate::protocol;
use crate::protocol::{Call, Outcome};
use crate::recovery;
use crate::recovery::RecoveryReport;
use vstd::prelude::*;

verus! {

/// `n` zero bytes.
pub open spec fn zeros(n: int) -> Seq<u8> {
    Seq::new(n as nat, |i: int| 0u8)
}

/// The accesses that zero the first `slots` records and the metrics of the first `hosts`
/// hosts.
pub open spec fn zero_script(g: PoolGeometry, slots: int, hosts: int) -> Seq<Access>
    decreases slots, hosts,
{
    if hosts > 0 {
        zero_script(g, slots, hosts - 1).push(
            Access::Write { offset: g.metrics_at(hosts - 1), bytes: zeros(64) },
        )
    } else if slots > 0 {
        zero_script(g, slots - 1, 0).push(
            Access::Write { offset: g.record_at(slots - 1), bytes: zeros(g.record_size as int) },
        )
    } else {
        Seq::empty()
    }
}

/// The accesses that zero the data of a pool, and flush it.
pub open spec fn zero_accesses(g: PoolGeometry) -> Seq<Access> {
    zero_script(g, g.capacity as int, g.max_hosts as int).push(
        Access::Flush { offset: HEADER_SIZE as int, len: g.total_size - HEADER_SIZE },
    )
}

/// The pool with its data, everything but the header, zeroed.
pub open spec fn zeroed(g: PoolGeometry, m: Seq<u8>) -> Seq<u8> {
    mem::put(m, HEADER_SIZE as int, zeros(g.total_size - HEADER_SIZE))
}

/// Zeros the data of a pool: all records and metrics.
pub fn zero_data<B: MemoryBackend>(backend: &mut B, geometry: &PoolGeometry)
    requires
        geometry.fits(old(backend).view().bytes.len()),
    ensures
        final(backend).view().bytes.len() == old(backend).view().bytes.len(),
        final(backend).view().exclusive == old(backend).view().exclusive,
        final(backend).view().trace == old(backend).view().trace + zero_accesses(*geometry),
        old(backend).view().exclusive ==> final(backend).view().bytes == zeroed(
            *geometry,
            old(backend).view().bytes,
        ),
{
    let ghost g = *geometry;
    let ghost v0 = backend.view();
    proof {
        layout::law_layout(g);
        assert(v0.trace + zero_script(g, 0, 0) =~= v0.trace);
        assert(mem::put(v0.bytes, 64, zeros(0)) =~= v0.bytes);
    }
    let empty_record: Vec<u8> = vec![0u8; geometry.record_size as usize];
    assert(empty_record@ =~= zeros(g.record_size as int));
    let mut slot: u64 = 0;
    while slot < geometry.capacity as u64
        invariant
            g == *geometry,
            slot <= g.capacity,
            empty_record@ == zeros(g.record_size as int),
            g.fits(backend.view().bytes.len()),
            backend.view().bytes.len() == v0.bytes.len(),
            backend.view().exclusive == v0.exclusive,
            backend.view().trace == v0.trace + zero_script(g, slot as int, 0),
            v0.exclusive ==> backend.view().bytes == mem::put(
                v0.bytes,
                64,
                zeros(g.record_at(slot as int) - 64),
            ),
        decreases g.capacity - slot,
    {
        let at: usize = geometry.slot_offset(slot);
        backend.write(at, empty_record.as_slice());
        proof {
            layout::law_layout(g);
            assert(backend.view().trace =~= v0.trace + zero_script(g, slot + 1, 0));
            lemma_record_step(g, slot as int);
            if v0.exclusive {
                assert(backend.view().bytes =~= mem::put(
                    v0.bytes,
                    64,
                    zeros(g.record_at(slot + 1) - 64),
                ));
            }
        }
        slot = slot + 1;
    }
    let empty_block: [u8; 64] = [0u8; 64];
    assert(empty_block@ =~= zeros(64));
    let ghost end = g.record_at(g.capacity as int);
    let mut host: u16 = 0;
    while host < geometry.max_hosts
        invariant
            g == *geometry,
            host <= g.max_hosts,
            end == g.record_at(g.capacity as int),
            empty_block@ == zeros(64),
            g.fits(backend.view().bytes.len()),
            backend.view().bytes.len() == v0.bytes.len(),
            backend.view().exclusive == v0.exclusive,
            backend.view().trace == v0.trace + zero_script(g, g.capacity as int, host as int),
            v0.exclusive ==> backend.view().bytes == mem::put(
                v0.bytes,
                64,
                zeros(end + 64 * host - 64),
            ),
        decreases g.max_hosts - host,
    {
        let at: usize = geometry.host_offset(host);
        backend.write(at, empty_block.as_slice());
        proof {
            layout::law_layout(g);
            assert(backend.view().trace =~= v0.trace + zero_script(
                g,
                g.capacity as int,
                host + 1,
            ));
            if v0.exclusive {
                assert(backend.view().bytes =~= mem::put(
                    v0.bytes,
                    64,
                    zeros(end + 64 * (host + 1) - 64),
                ));
            }
        }
        host = host + 1;
    }
    proof {
        layout::law_layout(g);
    }
    let total: usize = geometry.total_size as usize;
    backend.flush(HEADER_SIZE, total - HEADER_SIZE);
    assert(backend.view().trace =~= v0.trace + zero_accesses(g));
}

proof fn lemma_record_step(g: PoolGeometry, slot: int)
    ensures
        g.record_at(slot + 1) == g.record_at(slot) + g.record_size,
{
    reveal(PoolGeometry::record_at);
    assert((slot + 1) * g.record_size == slot * g.record_size + g.record_size) by (nonlinear_arith);
}

/// The dimensions that the configuration asks for.
pub open spec fn configured_dimensions(config: FenceConfig) -> PoolGeometry {
    engine::dimensions_of(
        config.pool.capacity as int,
        64 + config.pool.payload_size,
        config.pool.max_hosts as int,
    )
}

/// What opening an existing pool may have done to it before it was handed out.
pub open spec fn recovered_on_open(
    g: PoolGeometry,
    m: Seq<u8>,
    host: u16,
    auto_recover: bool,
) -> Seq<u8> {
    if auto_recover {
        engine::recovered_and_counted(g, m, host)
    } else {
        m
    }
}

/// Opens the existing pool that the configuration names, through a backend of it, and
/// recovers it if the configuration says so.
///
/// Fails as [`FenceRuntime::open`] does.
pub fn open_configured<B: MemoryBackend>(config: &FenceConfig, backend: B) -> (result: Result<
    (FenceRuntime<B>, Option<RecoveryReport>),
    FenceError,
>)
    requires
        config.complaint() is None,
        configured_dimensions(*config).total_size <= backend.view().bytes.len() <= usize::MAX,
    ensures
        result matches Ok((runtime, report)) ==> {
            &&& runtime.inv()
            &&& runtime.host() == config.host.host_id
            &&& runtime.pool().bytes.len() == backend.view().bytes.len()
            &&& runtime.pool().exclusive == backend.view().exclusive
            &&& report is Some <==> config.recovery.auto_recover
            &&& exists|capacity: u64, record_size: u64, max_hosts: u64|
                {
                    let opened = backend.view().trace + #[trigger] engine::header_loads(
                        capacity,
                        record_size,
                        max_hosts,
                    );
                    &&& runtime.dimensions() == engine::opened_dimensions(
                        configured_dimensions(*config),
                        config.host.host_id,
                        engine::stated_dimensions(
                            capacity,
                            record_size,
                            max_hosts,
                            backend.view().bytes.len(),
                        ),
                    )
                    &&& match report {
                        Some(r) => protocol::carries_out(
                            runtime.dimensions(),
                            Call::Recover { host: Some(runtime.host()) },
                            opened,
                            runtime.pool().trace,
                            Outcome::Recover(r),
                        ),
                        None => runtime.pool().trace == opened,
                    }
                }
        },
        result matches Err(error) ==> error is InvalidMagic,
        backend.view().exclusive ==> {
            let m = backend.view().bytes;
            let magic = mem::u64_at(m, layout::HDR_MAGIC as int);
            &&& result is Ok <==> magic == layout::MAGIC
            &&& result matches Err(FenceError::InvalidMagic { expected, actual }) ==> expected
                == layout::MAGIC && actual == magic && magic != layout::MAGIC
            &&& result matches Ok((runtime, report)) ==> {
                let g = runtime.dimensions();
                &&& g == engine::opened_dimensions(
                    configured_dimensions(*config),
                    config.host.host_id,
                    engine::header_dimensions(m),
                )
                &&& report matches Some(r) ==> r == recovery::recovery_report(g, m)
                &&& runtime.pool().bytes == recovered_on_open(
                    g,
                    m,
                    config.host.host_id,
                    config.recovery.auto_recover,
                )
            }
        },
{
    let pool_config = config.pool_config(false);
    proof {
        crate::config::law_valid_config_opens(*config, pool_config, backend.view().bytes.len());
    }
    match FenceRuntime::open(pool_config, backend) {
        Err(error) => Err(error),
        Ok(runtime) => {
            let mut runtime = runtime;
            if config.recovery.auto_recover {
                let report = runtime.recover();
                Ok((runtime, Some(report)))
            } else {
                Ok((runtime, None))
            }
        },
    }
}

/// Creates the pool that the configuration describes, in the memory behind a backend: zeroes
/// the data and writes the header.
///
/// Never fails once the backend is there.
pub fn create_configured<B: MemoryBackend>(config: &FenceConfig, backend: B) -> (result: Result<
    FenceRuntime<B>,
    FenceError,
>)
    requires
        config.complaint() is None,
        configured_dimensions(*config).total_size <= backend.view().bytes.len() <= usize::MAX,
    ensures
        ({
            let g = configured_dimensions(*config);
            &&& result matches Ok(runtime)
            &&& runtime.inv()
            &&& runtime.host() == config.host.host_id
            &&& runtime.dimensions() == g
            &&& runtime.pool().bytes.len() == backend.view().bytes.len()
            &&& runtime.pool().exclusive == backend.view().exclusive
            &&& runtime.pool().trace == backend.view().trace + zero_accesses(g)
                + engine::header_accesses(g)
            &&& backend.view().exclusive ==> runtime.pool().bytes == engine::with_header(
                g,
                zeroed(g, backend.view().bytes),
            )
        }),
{
    let mut backend = backend;
    let pool_config = config.pool_config(true);
    proof {
        crate::config::law_valid_config_opens(*config, pool_config, backend.view().bytes.len());
    }
    let geometry = PoolGeometry::new(
        config.pool.capacity,
        config.pool.payload_size,
        config.pool.max_hosts,
    );
    zero_data(&mut backend, &geometry);
    FenceRuntime::open(pool_config, backend)
}

/// A pool whose data was zeroed and whose header was written is an empty log without any
/// counts.
pub proof fn law_zeroed_pool_is_empty(g: PoolGeometry, m: Seq<u8>, host: u16, counter: usize)
    requires
        g.fits(m.len()),
        host < g.max_hosts,
        counter <= 56,
    ensures
        crate::laws::log_ok(g, engine::with_header(g, zeroed(g, m))),
        pool::committed_tail(engine::with_header(g, zeroed(g, m))) == 0,
        pool::reserve_tail(engine::with_header(g, zeroed(g, m))) == 0,
        pool::counter(g, engine::with_header(g, zeroed(g, m)), host, counter) == 0,
{
    layout::law_layout(g);
    let z = zeroed(g, m);
    let after = engine::with_header(g, z);
    assert forall|s: int| 0 <= s < g.capacity implies #[trigger] pool::state_of(g, z, s)
        == layout::STATE_FREE by {
        assert(HEADER_SIZE <= g.record_at(s));
        assert(g.record_at(s) + g.record_size <= g.record_at(g.capacity as int));
    }
    crate::laws::law_fresh_log(g, z);
    crate::laws::lemma_header(g, z);
    let at = pool::counter_at(g, host, counter);
    assert(HEADER_SIZE <= g.record_at(0) && g.record_at(0) <= g.record_at(g.capacity as int));
    mem::lemma_agree(after, z, HEADER_SIZE as int, m.len() as int);
    assert(z.subrange(at, at + 8) =~= vstd::bytes::spec_u64_to_le_bytes(0)) by {
        vstd::bytes::lemma_auto_spec_u64_to_from_le_bytes();
        vstd::bytes::spec_u64_to_le_bytes_to_open(0);
        assert(0u64 & 0xff == 0) by (bit_vector);
        assert((0u64 >> 8) & 0xff == 0) by (bit_vector);
        assert((0u64 >> 16) & 0xff == 0) by (bit_vector);
        assert((0u64 >> 24) & 0xff == 0) by (bit_vector);
        assert((0u64 >> 32) & 0xff == 0) by (bit_vector);
        assert((0u64 >> 40) & 0xff == 0) by (bit_vector);
        assert((0u64 >> 48) & 0xff == 0) by (bit_vector);
        assert((0u64 >> 56) & 0xff == 0) by (bit_vector);
    }
    vstd::bytes::lemma_auto_spec_u64_to_from_le_bytes();
}

/// The header of a fresh pool, word by word; nothing behind it changes.
pub proof fn law_fresh_header_words(g: PoolGeometry, m: Seq<u8>)
    requires
        g.fits(m.len()),
    ensures
        ({
            let after = engine::with_header(g, m);
            &&& after.len() == m.len()
            &&& mem::u64_at(after, 0) == 0x46454E43455F4C4F
            &&& mem::u64_at(after, 8) == g.capacity
            &&& mem::u64_at(after, 16) == 64 + g.payload_size
            &&& mem::u64_at(after, 24) == g.max_hosts
            &&& mem::u64_at(after, 32) == 0
            &&& mem::u64_at(after, 40) == 0
            &&& mem::u64_at(after, 48) == 1
            &&& mem::agree(after, m, 56, m.len() as int)
        }),
{
    broadcast use mem::group_put;

    vstd::bytes::lemma_auto_spec_u64_to_from_le_bytes();
    layout::law_layout(g);
}

/// A header states exactly the pools that can be operated on in the memory that holds it: the
/// dimensions that are taken from it are those of its words, and they are taken whenever a
/// pool of these dimensions fits.
pub proof fn law_header_stated(m: Seq<u8>, g: PoolGeometry)
    requires
        56 <= m.len() <= usize::MAX,
    ensures
        engine::header_dimensions(m) == Some(g) <==> {
            &&& g.fits(m.len())
            &&& mem::u64_at(m, 8) == g.capacity
            &&& mem::u64_at(m, 16) == 64 + g.payload_size
            &&& mem::u64_at(m, 24) == g.max_hosts
        },
{
    let capacity = mem::u64_at(m, 8);
    let record_size = mem::u64_at(m, 16);
    let max_hosts = mem::u64_at(m, 24);
    assert(0 <= record_size * capacity) by (nonlinear_arith)
        requires
            0 <= record_size,
            0 <= capacity,
    ;
    if engine::header_dimensions(m) == Some(g) {
        assert(g.record_size * g.capacity == record_size * capacity);
    }
    if g.fits(m.len()) && capacity == g.capacity && record_size == 64 + g.payload_size && max_hosts
        == g.max_hosts {
        assert(g.record_size * g.capacity == record_size * capacity);
        assert(g.record_size % 8 == 0);
    }
}

/// A pool that was created is opened with the dimensions that it was created with, whatever
/// dimensions the host that opens it has configured.
pub proof fn law_created_dimensions_prevail(
    g: PoolGeometry,
    m: Seq<u8>,
    configured: PoolGeometry,
    host: u16,
)
    requires
        g.fits(m.len()),
    ensures
        engine::opened_dimensions(
            configured,
            host,
            engine::header_dimensions(engine::with_header(g, m)),
        ) == (if host < g.max_hosts {
            g
        } else {
            configured
        }),
        engine::opened_dimensions(configured, host, None) == configured,
{
    crate::laws::law_create_then_open(g, m);
}

/// Zeroing sets every byte behind the header, up to the end of the pool, to zero, and no other.
pub proof fn law_zeroed_bytes(g: PoolGeometry, m: Seq<u8>, i: int)
    requires
        g.fits(m.len()),
        0 <= i < m.len(),
    ensures
        zeroed(g, m).len() == m.len(),
        zeroed(g, m)[i] == (if 64 <= i < g.total_size {
            0u8
        } else {
            m[i]
        }),
{
}

/// The dimensions that a valid configuration asks for.
pub proof fn law_configured_dimensions(config: FenceConfig)
    requires
        config.complaint() is None,
    ensures
        ({
            let g = configured_dimensions(config);
            &&& g.capacity == config.pool.capacity
            &&& g.payload_size == config.pool.payload_size
            &&& g.max_hosts == config.pool.max_hosts
            &&& g.record_size == 64 + config.pool.payload_size
            &&& g.total_size == 64 + (64 + config.pool.payload_size) * config.pool.capacity + 64
                * config.pool.max_hosts
        }),
{
    let record_size = 64 + config.pool.payload_size as int;
    assert(0 <= record_size * config.pool.capacity <= 65600 * 0xFFFF_FFFF) by (nonlinear_arith)
        requires
            0 <= record_size <= 65600,
            0 <= config.pool.capacity <= 0xFFFF_FFFF,
    ;
}

/// Opening a pool leaves its log as recovery leaves it, if the host recovers on opening, and
/// the whole pool as it is, if not.
pub proof fn law_recovered_on_open(g: PoolGeometry, m: Seq<u8>, host: u16)
    requires
        g.fits(m.len()),
        host < g.max_hosts,
    ensures
        mem::agree(
            recovered_on_open(g, m, host, true),
            pool::recovered(g, m),
            0,
            g.record_at(g.capacity as int),
        ),
        pool::counter(
            g,
            recovered_on_open(g, m, host, true),
            host,
            pool::METRICS_RECOVERY_RUNS,
        ) == mem::wrapped_sum(pool::counter(g, m, host, pool::METRICS_RECOVERY_RUNS), 1),
        recovered_on_open(g, m, host, false) == m,
{
    crate::laws::law_second_recovery_finds_nothing(g, m, host);
    crate::laws::law_recovery_counted(g, m, host, host, pool::METRICS_RECOVERY_RUNS);
}

/// The dimensions of a pool that is opened or created.
pub proof fn law_opening_dimensions(config: engine::PoolConfig, len: nat)
    requires
        config.valid(len),
    ensures
        ({
            let g = config.dimensions();
            &&& g.fits(len)
            &&& g.capacity == config.capacity
            &&& g.payload_size == config.payload_size
            &&& g.max_hosts == config.max_hosts
            &&& g.record_size == 64 + config.payload_size
            &&& g.total_size == 64 + (64 + config.payload_size) * config.capacity + 64
                * config.max_hosts
            &&& config.host_id < config.max_hosts
        }),
{
    let g = config.dimensions();
    assert(g.record_size * g.capacity == (64 + config.payload_size) * config.capacity);
}

/// What creating a pool writes is what the pool then holds, and all of it is flushed before
/// the pool is handed out: first the data, then the header.
pub proof fn law_creation_flushed(g: PoolGeometry, m: Seq<u8>)
    requires
        g.fits(m.len()),
    ensures
        alloc_laws::contents(m, zero_accesses(g)) == zeroed(g, m),
        alloc_laws::contents(m, engine::header_accesses(g)) == engine::with_header(g, m),
        zero_accesses(g).last() == (Access::Flush { offset: 64, len: g.total_size - 64 }),
        engine::header_accesses(g).last() == (Access::Flush { offset: 0, len: 64 }),
{
    layout::law_layout(g);
    let script = zero_script(g, g.capacity as int, g.max_hosts as int);
    lemma_zero_contents(g, m, g.capacity as int, g.max_hosts as int);
    assert(zero_accesses(g).drop_last() =~= script);
    let all = engine::header_accesses(g);
    assert(all.take(8) =~= all);
    assert(all.take(0).len() == 0);
    lemma_contents_next(m, all, 0);
    lemma_contents_next(m, all, 1);
    lemma_contents_next(m, all, 2);
    lemma_contents_next(m, all, 3);
    lemma_contents_next(m, all, 4);
    lemma_contents_next(m, all, 5);
    lemma_contents_next(m, all, 6);
    lemma_contents_next(m, all, 7);
}

proof fn lemma_contents_next(m: Seq<u8>, accesses: Seq<Access>, n: int)
    requires
        0 <= n < accesses.len(),
    ensures
        alloc_laws::contents(m, accesses.take(n + 1)) == accesses[n].apply(
            alloc_laws::contents(m, accesses.take(n)),
        ),
{
    assert(accesses.take(n + 1).drop_last() =~= accesses.take(n));
}

proof fn lemma_zero_contents(g: PoolGeometry, m: Seq<u8>, slots: int, hosts: int)
    requires
        g.fits(m.len()),
        0 <= slots <= g.capacity,
        0 <= hosts <= g.max_hosts,
        hosts > 0 ==> slots == g.capacity,
    ensures
        alloc_laws::contents(m, zero_script(g, slots, hosts)) == mem::put(
            m,
            64,
            zeros(g.record_at(slots) + 64 * hosts - 64),
        ),
    decreases slots, hosts,
{
    layout::law_layout(g);
    let after = mem::put(m, 64, zeros(g.record_at(slots) + 64 * hosts - 64));
    if hosts > 0 {
        lemma_zero_contents(g, m, slots, hosts - 1);
        let script = zero_script(g, slots, hosts);
        assert(script.drop_last() =~= zero_script(g, slots, hosts - 1));
        assert(alloc_laws::contents(m, script) =~= after);
    } else if slots > 0 {
        lemma_zero_contents(g, m, slots - 1, 0);
        let script = zero_script(g, slots, 0);
        assert(script.drop_last() =~= zero_script(g, slots - 1, 0));
        lemma_record_step(g, slots - 1);
        assert(alloc_laws::contents(m, script) =~= after);
    } else {
        assert(after =~= m);
    }
}

} // verus!

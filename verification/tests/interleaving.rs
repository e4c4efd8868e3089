//! Several hosts on one pool, with their accesses interleaved on purpose.
use fence::backend::{MemOrder, MemoryBackend, MemoryView};
use fence::engine::{FenceRuntime, PoolConfig};
use fence::heap_backend::HeapBackend;
use fence::layout::{
    PoolGeometry, HDR_COMMITTED_TAIL, HDR_RESERVE_TAIL, STATE_COMMITTED, STATE_WRITING,
};
use std::cell::RefCell;
use std::rc::Rc;

/// What a backend did.
#[derive(Debug, Clone, PartialEq, Eq)]
enum Did {
    Load(usize),
    Store(usize),
    StoreState(usize, u8),
    Add(usize),
    Swap(usize, bool),
    Flush(usize, usize),
}

/// Memory shared by several backends.
#[derive(Clone)]
struct Shared {
    memory: Rc<RefCell<HeapBackend>>,
    log: Rc<RefCell<Vec<Did>>>,
    /// To be done just before the next swap of the committed tail.
    before_swap: Rc<RefCell<Option<Box<dyn FnOnce()>>>>,
}

impl Shared {
    fn new(size: usize) -> Self {
        Shared {
            memory: Rc::new(RefCell::new(HeapBackend::new(size))),
            log: Rc::new(RefCell::new(Vec::new())),
            before_swap: Rc::new(RefCell::new(None)),
        }
    }

    /// The same memory, seen by another host.
    fn other_host(&self) -> Self {
        Shared {
            memory: self.memory.clone(),
            log: Rc::new(RefCell::new(Vec::new())),
            before_swap: Rc::new(RefCell::new(None)),
        }
    }

    fn did(&self, what: Did) {
        self.log.borrow_mut().push(what);
    }
}

impl MemoryBackend for Shared {
    /// Speaks of memory in contracts only; never runs.
    fn view(&self) -> MemoryView {
        unreachable!()
    }
    fn read(&mut self, offset: usize, dst: &mut [u8]) {
        self.did(Did::Load(offset));
        self.memory.borrow_mut().read(offset, dst)
    }
    fn write(&mut self, offset: usize, src: &[u8]) {
        self.did(Did::Store(offset));
        self.memory.borrow_mut().write(offset, src)
    }
    fn load_u64(&mut self, offset: usize, order: MemOrder) -> u64 {
        self.did(Did::Load(offset));
        self.memory.borrow_mut().load_u64(offset, order)
    }
    fn store_u64(&mut self, offset: usize, value: u64, order: MemOrder) {
        self.did(Did::Store(offset));
        self.memory.borrow_mut().store_u64(offset, value, order)
    }
    fn fetch_add_u64(&mut self, offset: usize, delta: u64, order: MemOrder) -> u64 {
        self.did(Did::Add(offset));
        self.memory.borrow_mut().fetch_add_u64(offset, delta, order)
    }
    fn compare_exchange_u64(
        &mut self,
        offset: usize,
        expected: u64,
        desired: u64,
        success: MemOrder,
        failure: MemOrder,
    ) -> Result<u64, u64> {
        let first = self.before_swap.borrow_mut().take();
        if let Some(action) = first {
            action();
        }
        let result = self
            .memory
            .borrow_mut()
            .compare_exchange_u64(offset, expected, desired, success, failure);
        self.did(Did::Swap(offset, result.is_ok()));
        result
    }
    fn load_u8(&mut self, offset: usize, order: MemOrder) -> u8 {
        self.did(Did::Load(offset));
        self.memory.borrow_mut().load_u8(offset, order)
    }
    fn store_u8(&mut self, offset: usize, value: u8, order: MemOrder) {
        self.did(Did::StoreState(offset, value));
        self.memory.borrow_mut().store_u8(offset, value, order)
    }
    fn flush(&mut self, offset: usize, len: usize) {
        self.did(Did::Flush(offset, len));
        self.memory.borrow_mut().flush(offset, len)
    }
    fn size(&self) -> usize {
        self.memory.borrow().size()
    }
}

fn config(host_id: u16, create: bool) -> PoolConfig {
    PoolConfig {
        path: "unused".to_string(),
        capacity: 8,
        payload_size: 64,
        max_hosts: 4,
        host_id,
        create,
    }
}

fn geometry() -> PoolGeometry {
    PoolGeometry::new(8, 64, 4)
}

/// A pool shared by two hosts.
fn two_hosts() -> (FenceRuntime<Shared>, FenceRuntime<Shared>, Shared) {
    let shared = Shared::new(geometry().total_size as usize);
    let first = FenceRuntime::open(config(0, true), shared.clone()).unwrap();
    let second = FenceRuntime::open(config(1, false), shared.other_host()).unwrap();
    (first, second, shared)
}

#[test]
fn hosts_see_each_other() {
    let (mut first, mut second, _) = two_hosts();
    assert_eq!(first.append(1, b"by first").unwrap(), 1);
    assert_eq!(second.append(2, b"by second").unwrap(), 2);
    assert_eq!(second.read(1).unwrap().unwrap().data, b"by first");
    let record = first.read(2).unwrap().unwrap();
    assert_eq!((record.writer_id, record.term), (1, 2));
    assert_eq!(first.stats().appends_total, 2);
    assert_eq!(first.stats().reads_total, 2);
}

#[test]
fn lost_race_for_the_tail_is_run_again() {
    let (mut first, second, shared) = two_hosts();
    let second = Rc::new(RefCell::new(second));
    let racer = second.clone();
    *shared.before_swap.borrow_mut() = Some(Box::new(move || {
        assert_eq!(racer.borrow_mut().append(1, b"faster").unwrap(), 2);
    }));
    assert_eq!(first.append(1, b"slower").unwrap(), 1);
    // The other host had moved the tail past both records already.
    assert_eq!(first.committed_tail(), 2);
    assert!(shared.log.borrow().contains(&Did::Swap(HDR_COMMITTED_TAIL, false)));
    assert_eq!(first.read(1).unwrap().unwrap().data, b"slower");
    assert_eq!(first.read(2).unwrap().unwrap().data, b"faster");
    assert_eq!(second.borrow_mut().reserve_tail(), 2);
}

#[test]
fn record_is_flushed_before_it_is_announced() {
    let (mut first, _, shared) = two_hosts();
    shared.log.borrow_mut().clear();
    first.append(1, b"data").unwrap();
    let log = shared.log.borrow().clone();
    let at = geometry().record_offset(0);
    let size = geometry().record_size as usize;
    let position = |what: Did| log.iter().position(|d| *d == what).unwrap();

    let claimed = position(Did::Add(HDR_RESERVE_TAIL));
    let writing = position(Did::StoreState(at, STATE_WRITING));
    let payload = position(Did::Store(at + 64));
    let checksum = position(Did::Store(at + 40));
    let flushed = position(Did::Flush(at, size));
    let committed = position(Did::StoreState(at, STATE_COMMITTED));
    let state_flushed = position(Did::Flush(at, 64));
    let announced = position(Did::Swap(HDR_COMMITTED_TAIL, true));
    let order =
        [claimed, writing, payload, checksum, flushed, committed, state_flushed, announced];
    assert!(order.windows(2).all(|pair| pair[0] < pair[1]), "{order:?}");
}

#[test]
fn no_two_hosts_get_the_same_index() {
    let (mut first, mut second, _) = two_hosts();
    let mut indices = Vec::new();
    for _ in 0..4 {
        indices.push(first.append(1, b"x").unwrap());
        indices.push(second.append(1, b"y").unwrap());
    }
    indices.sort();
    assert_eq!(indices, (1..=8).collect::<Vec<u64>>());
    assert!(first.append(1, b"z").is_err());
    assert!(second.append(1, b"z").is_err());
    assert_eq!(first.reserve_tail(), 8);
    assert_eq!(first.committed_tail(), 8);
}

#[test]
fn recovery_by_a_surviving_host() {
    let (mut first, mut second, shared) = two_hosts();
    first.append(1, b"safe").unwrap();
    // The first host claims a slot, begins to write, and is gone.
    let mut gone = shared.other_host();
    let slot = gone.fetch_add_u64(HDR_RESERVE_TAIL, 1, MemOrder::AcqRel);
    gone.store_u8(geometry().record_offset(slot as u32), STATE_WRITING, MemOrder::Relaxed);

    let report = second.recover();
    assert_eq!((report.slots_scanned, report.abandoned_count, report.committed_tail), (2, 1, 1));
    assert_eq!(second.read(1).unwrap().unwrap().data, b"safe");
    assert_eq!(second.recover().abandoned_count, 0);
}

/// A host and its view of the memory.
struct Host {
    runtime: RefCell<FenceRuntime<Shared>>,
    shared: Shared,
}

/// Appends by host `k`; just before it moves the tail, the hosts after it append.
fn append_nested(hosts: &Rc<Vec<Host>>, k: usize, round: usize, done: &Rc<RefCell<Vec<u64>>>) {
    if k + 1 < hosts.len() {
        let (others, indices) = (hosts.clone(), done.clone());
        *hosts[k].shared.before_swap.borrow_mut() =
            Some(Box::new(move || append_nested(&others, k + 1, round, &indices)));
    }
    let data = format!("t{k}-msg{round}");
    let index = hosts[k].runtime.borrow_mut().append(1, data.as_bytes()).unwrap();
    done.borrow_mut().push(index);
}

#[test]
fn concurrent_appends_no_data_loss() {
    let config = |host_id: u16| PoolConfig {
        path: "unused".to_string(),
        capacity: 4000,
        payload_size: 64,
        max_hosts: 8,
        host_id,
        create: host_id == 0,
    };
    let memory = Shared::new(PoolGeometry::new(4000, 64, 8).total_size as usize);
    let hosts: Vec<Host> = (0..4)
        .map(|host_id| {
            let shared = memory.other_host();
            let runtime = FenceRuntime::open(config(host_id), shared.clone()).unwrap();
            Host { runtime: RefCell::new(runtime), shared }
        })
        .collect();
    let hosts = Rc::new(hosts);
    let records_per_host = 100;
    let indices = Rc::new(RefCell::new(Vec::new()));
    for round in 0..records_per_host {
        append_nested(&hosts, 0, round, &indices);
    }

    // All indices should be unique (no slot collisions).
    let mut all_indices = indices.borrow().clone();
    all_indices.sort();
    all_indices.dedup();
    assert_eq!(all_indices.len(), 4 * records_per_host);
    assert_eq!(all_indices, (1..=400).collect::<Vec<u64>>());

    // The committed tail has reached all appends, though hosts lost races for it.
    let mut runtime = hosts[0].runtime.borrow_mut();
    assert_eq!(runtime.committed_tail(), 400);
    assert!(hosts[0].shared.log.borrow().contains(&Did::Swap(HDR_COMMITTED_TAIL, false)));

    // All records should be readable.
    for idx in &all_indices {
        let record = runtime.read(*idx).unwrap();
        assert!(record.is_some(), "record at index {idx} should be readable");
        // The hosts claim their slots in turn.
        let (round, host) = ((idx - 1) / 4, (idx - 1) % 4);
        let record = record.unwrap();
        assert_eq!((record.term, record.writer_id), (1, host));
        assert_eq!(record.data, format!("t{host}-msg{round}").into_bytes());
    }
}

/// A host that is overtaken by a shorter step of the tail moves it the rest of the way.
#[test]
fn record_committed_behind_a_short_sweep_is_reached() {
    let (mut first, mut second, shared) = two_hosts();
    first.append(1, b"early").unwrap();
    // The first host has committed its record and not moved the tail yet.
    let mut memory = shared.other_host();
    memory.store_u64(HDR_COMMITTED_TAIL, 0, MemOrder::Release);
    let mut late = memory.other_host();
    let overtaken = second.append(1, b"warm-up").unwrap();
    assert_eq!(overtaken, 2);
    memory.store_u64(HDR_COMMITTED_TAIL, 0, MemOrder::Release);

    let third_memory = shared.other_host();
    let mut third = FenceRuntime::open(config(2, false), third_memory.clone()).unwrap();
    *third_memory.before_swap.borrow_mut() = Some(Box::new(move || {
        let moved = late.compare_exchange_u64(
            HDR_COMMITTED_TAIL,
            0,
            1,
            MemOrder::AcqRel,
            MemOrder::Acquire,
        );
        assert_eq!(moved, Ok(0));
    }));
    assert_eq!(third.append(1, b"last").unwrap(), 3);
    assert_eq!(third.committed_tail(), 3);
    assert!(third_memory.log.borrow().contains(&Did::Swap(HDR_COMMITTED_TAIL, false)));
    assert_eq!(third.read(3).unwrap().unwrap().data, b"last");
}

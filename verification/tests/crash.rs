use fence::assertions::{
    assert_committed_range, assert_committed_tail, assert_record_state, assert_reserve_tail,
    assert_valid_magic,
};
use fence::backend::{MemOrder, MemoryBackend};
use fence::barrier::TestBarrier;
use fence::crash_sim::{crashes_at, CrashSim};
use fence::engine::{FenceRuntime, PoolConfig};
use fence::heap_backend::HeapBackend;
use fence::layout::{PoolGeometry, HDR_MAGIC, STATE_COMMITTED, STATE_WRITING};

fn config(host_id: u16, create: bool) -> PoolConfig {
    PoolConfig {
        path: "unused".to_string(),
        capacity: 16,
        payload_size: 64,
        max_hosts: 2,
        host_id,
        create,
    }
}

fn create_pool() -> FenceRuntime<HeapBackend> {
    let geometry = PoolGeometry::new(16, 64, 2);
    FenceRuntime::open(config(0, true), HeapBackend::new(geometry.total_size as usize)).unwrap()
}

#[test]
fn recovery_fixes_crashed_writes() {
    // Create pool and write some valid records.
    let mut backend = {
        let mut rt = create_pool();
        rt.append(1, b"good-1").unwrap();
        rt.append(1, b"good-2").unwrap();
        rt.into_backend()
    };

    // Simulate a crash: reserve a slot but don't commit.
    CrashSim::simulate_crashed_write(&mut backend, 16, 64, 2);

    // Reopen and run recovery.
    let mut rt = FenceRuntime::open(config(1, false), backend).unwrap();

    let report = rt.recover();
    assert_eq!(report.abandoned_count, 1, "crashed write should be abandoned");
    assert_eq!(report.committed_tail, 2, "only first 2 records committed");

    // Valid records still readable.
    let r1 = rt.read(1).unwrap().unwrap();
    assert_eq!(r1.data, b"good-1");
    let r2 = rt.read(2).unwrap().unwrap();
    assert_eq!(r2.data, b"good-2");

    // The crashed record is beyond committed_tail, so it's not accessible.
    let r3 = rt.read(3);
    assert!(r3.is_err(), "crashed record beyond committed_tail should be IndexOutOfBounds");
}

#[test]
fn recovery_is_idempotent_integration() {
    // Create pool with mixed state.
    let mut backend = {
        let mut rt = create_pool();
        rt.append(1, b"a").unwrap();
        rt.append(1, b"b").unwrap();
        rt.into_backend()
    };

    // Simulate crash.
    CrashSim::simulate_crashed_write(&mut backend, 16, 64, 2);

    // Run recovery twice.
    let mut rt = FenceRuntime::open(config(0, false), backend).unwrap();

    let report1 = rt.recover();
    let report2 = rt.recover();

    // Second run should find nothing new.
    assert_eq!(report2.abandoned_count, 0);
    assert_eq!(report1.committed_tail, report2.committed_tail);
}

#[test]
fn multiple_crashed_writes_all_recovered() {
    // Create pool.
    let mut backend = {
        let mut rt = create_pool();
        rt.append(1, b"valid").unwrap();
        rt.into_backend()
    };

    // Simulate 3 crashed writes.
    CrashSim::simulate_crashed_write(&mut backend, 16, 64, 2);
    CrashSim::simulate_crashed_write(&mut backend, 16, 64, 2);
    CrashSim::simulate_crashed_write(&mut backend, 16, 64, 2);

    // Recovery should fix all 3.
    let mut rt = FenceRuntime::open(config(0, false), backend).unwrap();
    let report = rt.recover();

    assert_eq!(report.abandoned_count, 3);
    assert_eq!(report.committed_tail, 1); // Only first record is committed.
}

#[test]
fn writes_succeed_after_recovery() {
    // Create pool with some records.
    let mut backend = {
        let mut rt = create_pool();
        rt.append(1, b"before-crash").unwrap();
        rt.into_backend()
    };

    // Simulate crash.
    CrashSim::simulate_crashed_write(&mut backend, 16, 64, 2);

    // Recover and continue writing.
    let mut rt = FenceRuntime::open(config(0, false), backend).unwrap();
    let report = rt.recover();

    // After recovery: committed_tail = 1 (slot 0 committed, slot 1 abandoned).
    assert_eq!(report.committed_tail, 1);
    assert_eq!(report.abandoned_count, 1);

    // New write goes to slot 2 (index 3). It commits, but committed_tail
    // can't advance past the abandoned slot 1 gap. committed_tail stays at 1.
    let idx = rt.append(2, b"after-recovery").unwrap();
    assert_eq!(idx, 3); // Slot 2, 1-based index = 3.

    // committed_tail is still 1 because slot 1 is ABANDONED (gap).
    assert_eq!(rt.committed_tail(), 1);

    // The first record is still fine.
    let r1 = rt.read(1).unwrap().unwrap();
    assert_eq!(r1.data, b"before-crash");
}

#[test]
fn crash_sim_arm_disarm() {
    let sim = CrashSim::new("after_write");
    assert!(!sim.should_crash_at("after_write"));

    sim.arm();
    assert!(sim.should_crash_at("after_write"));
    assert!(!sim.should_crash_at("after_reserve")); // Wrong point

    sim.disarm();
    assert!(!sim.should_crash_at("after_write"));
}

#[test]
fn maybe_crash_signals() {
    let sim = CrashSim::new("before_flush");
    assert!(!sim.maybe_crash("before_flush"));
    sim.arm();
    assert!(sim.maybe_crash("before_flush"));
    assert!(!sim.maybe_crash("after_write"));
}

#[test]
fn crashed_write_leaves_writing_state() {
    let geometry = PoolGeometry::new(16, 64, 2);
    let mut backend = create_pool().into_backend();
    assert_eq!(CrashSim::simulate_crashed_write(&mut backend, 16, 64, 2), 0);
    assert_eq!(CrashSim::simulate_crashed_write(&mut backend, 16, 64, 2), 1);
    assert_eq!(assert_record_state(&mut backend, &geometry, 0, STATE_WRITING), Ok(()));
    assert_eq!(assert_record_state(&mut backend, &geometry, 1, STATE_WRITING), Ok(()));
    assert_eq!(assert_reserve_tail(&mut backend, 2), Ok(()));
    assert_eq!(assert_committed_tail(&mut backend, 0), Ok(()));
}

/// The slot behind the last one lies in the metrics of the first host.
#[test]
fn crashed_write_on_full_pool_goes_into_the_metrics() {
    let mut rt = create_pool();
    for _ in 0..16 {
        rt.append(1, b"x").unwrap();
    }
    let geometry = *rt.geometry();
    let mut backend = rt.into_backend();
    let before = backend.as_bytes().to_vec();
    assert_eq!(CrashSim::simulate_crashed_write(&mut backend, 16, 64, 2), 16);
    let after = backend.as_bytes().to_vec();
    let at = geometry.metrics_offset(0);
    assert_eq!(before[64..at], after[64..at]);
    assert_eq!(after[at], STATE_WRITING);
    assert_eq!(backend.load_u64(at + 8, MemOrder::Relaxed), 99);
    assert_eq!(backend.load_u64(at + 16, MemOrder::Relaxed), 17);
    assert_eq!(before[at + 24..], after[at + 24..]);
    // The next slot lies past the pool.
    let before = backend.as_bytes().to_vec();
    assert_eq!(CrashSim::simulate_crashed_write(&mut backend, 16, 64, 2), 17);
    assert_eq!(before[64..], backend.as_bytes()[64..]);
}

#[test]
fn checks_of_pool_state() {
    let geometry = PoolGeometry::new(16, 64, 2);
    let mut rt = create_pool();
    rt.append(1, b"a").unwrap();
    rt.append(1, b"b").unwrap();
    let mut backend = rt.into_backend();
    assert_eq!(assert_valid_magic(&mut backend), Ok(()));
    assert_eq!(assert_committed_range(&mut backend, &geometry, 2), Ok(()));
    assert_eq!(
        assert_committed_range(&mut backend, &geometry, 3),
        Err("slot 2: expected state 2, got 0".to_string())
    );
    assert_eq!(assert_record_state(&mut backend, &geometry, 1, STATE_COMMITTED), Ok(()));
    assert_eq!(
        assert_record_state(&mut backend, &geometry, 0, STATE_WRITING),
        Err("slot 0: expected state 1, got 2".to_string())
    );
    assert_eq!(
        assert_committed_tail(&mut backend, 5),
        Err("committed_tail: expected 5, got 2".to_string())
    );
    assert_eq!(
        assert_reserve_tail(&mut backend, 3),
        Err("reserve_tail: expected 3, got 2".to_string())
    );
    backend.store_u64(HDR_MAGIC, 0xAB, MemOrder::Relaxed);
    let message = assert_valid_magic(&mut backend).unwrap_err();
    assert!(message.ends_with("got 0x00000000000000AB"));
}

#[test]
fn barrier_of_one_does_not_block() {
    let barrier = TestBarrier::new(1);
    barrier.wait();
    barrier.clone().wait();
    assert_eq!(barrier.thread_count(), 1);
    assert_eq!(TestBarrier::new(4).thread_count(), 4);
}

#[test]
fn clones_share_the_flag() {
    let sim = CrashSim::new("after_write");
    let writer = sim.clone();
    sim.arm();
    assert!(writer.should_crash_at("after_write"));
    // Checking does not disarm.
    assert!(writer.should_crash_at("after_write"));
    assert!(sim.should_crash_at("after_write"));
    writer.disarm();
    assert!(!sim.should_crash_at("after_write"));
    writer.arm();
    assert!(sim.maybe_crash("after_write"));
    assert!(!sim.maybe_crash("after_reserve"));
}

#[test]
fn crash_needs_flag_and_point() {
    assert!(crashes_at(true, "after_write", "after_write"));
    assert!(!crashes_at(false, "after_write", "after_write"));
    assert!(!crashes_at(true, "after_write", "after_reserve"));
    assert!(!crashes_at(true, "after_write", ""));
}

/// The counter tells what the last run found, not what all runs found.
#[test]
fn abandoned_found_is_of_the_last_run() {
    let mut backend = {
        let mut rt = create_pool();
        rt.append(1, b"valid").unwrap();
        rt.into_backend()
    };
    CrashSim::simulate_crashed_write(&mut backend, 16, 64, 2);
    let mut rt = FenceRuntime::open(config(0, false), backend).unwrap();

    let report = rt.recover();
    let found = (report.abandoned_count, report.committed_tail, report.slots_scanned);
    assert_eq!(found, (1, 1, 2));
    assert_eq!(rt.stats().abandoned_found, 1);

    let report = rt.recover();
    let found = (report.abandoned_count, report.committed_tail, report.slots_scanned);
    assert_eq!(found, (0, 1, 2));
    assert_eq!(rt.stats().recovery_runs, 2);
    assert_eq!(rt.stats().abandoned_found, 0);
}

use fence::allocator::{write_catalog, AllocError, RegionAllocator};
use fence::backend::{MemOrder, MemoryBackend};
use fence::catalog::{
    entry_offset, read_entry, write_entry, CatalogEntry, RegionState, CATALOG_ENTRY_SIZE,
    CATALOG_HEADER_SIZE, CATALOG_SIZE, CAT_HDR_REGION_COUNT, ENT_NAME, ENT_NAME_LEN, ENT_STATE,
    MAX_REGIONS,
};
use fence::error::FenceError;
use fence::heap_backend::HeapBackend;
use fence::region::RegionHandle;

fn create_allocator(pool_size: usize) -> RegionAllocator<HeapBackend> {
    RegionAllocator::init(HeapBackend::new(pool_size), 0, pool_size).unwrap()
}

#[test]
fn init_and_open() {
    let pool_size = 1024 * 1024;

    // Init.
    let backend = create_allocator(pool_size).into_backend();

    // Open.
    let mut alloc = RegionAllocator::open(backend, 0, pool_size).unwrap();
    assert_eq!(alloc.list_regions().len(), 0);
}

#[test]
fn create_and_find_region() {
    let mut alloc = create_allocator(1024 * 1024);

    let handle = alloc.create_region("my-index", 4096).unwrap();
    assert_eq!(handle.name, "my-index");
    assert_eq!(handle.size, 4096);

    let found = alloc.find_region("my-index").unwrap();
    assert_eq!(found.offset, handle.offset);
    assert_eq!(found.size, 4096);
}

#[test]
fn create_multiple_regions() {
    let mut alloc = create_allocator(1024 * 1024);

    let r1 = alloc.create_region("region-a", 1024).unwrap();
    let r2 = alloc.create_region("region-b", 2048).unwrap();
    let r3 = alloc.create_region("region-c", 512).unwrap();

    // Regions should not overlap.
    assert!(r2.offset >= r1.offset + r1.size);
    assert!(r3.offset >= r2.offset + r2.size);

    let all = alloc.list_regions();
    assert_eq!(all.len(), 3);
}

#[test]
fn duplicate_name_rejected() {
    let mut alloc = create_allocator(1024 * 1024);

    alloc.create_region("dup", 1024).unwrap();
    let result = alloc.create_region("dup", 2048);
    assert!(matches!(result, Err(AllocError::NameExists { .. })));
}

#[test]
fn free_region_works() {
    let mut alloc = create_allocator(1024 * 1024);

    alloc.create_region("temp", 1024).unwrap();
    assert_eq!(alloc.list_regions().len(), 1);

    alloc.free_region("temp").unwrap();
    assert_eq!(alloc.list_regions().len(), 0);

    // Should not be findable.
    assert!(matches!(alloc.find_region("temp"), Err(AllocError::NotFound { .. })));
}

#[test]
fn free_nonexistent_errors() {
    let mut alloc = create_allocator(1024 * 1024);
    let result = alloc.free_region("ghost");
    assert!(matches!(result, Err(AllocError::NotFound { .. })));
}

#[test]
fn out_of_space() {
    // Very small pool.
    let catalog_overhead = CATALOG_HEADER_SIZE + MAX_REGIONS * CATALOG_ENTRY_SIZE;
    let pool_size = catalog_overhead + 100; // Only 100 bytes of data space.
    let mut alloc = create_allocator(pool_size);

    let result = alloc.create_region("too-big", 1000);
    assert!(matches!(result, Err(AllocError::OutOfSpace { .. })));
}

#[test]
fn recovery_fixes_allocating_state() {
    let pool_size = 1024 * 1024;

    // Init and create a region normally.
    let mut backend = {
        let mut alloc = create_allocator(pool_size);
        alloc.create_region("good", 1024).unwrap();
        alloc.into_backend()
    };

    // Simulate a crash during allocation by writing ALLOCATING directly.
    let entry = CatalogEntry {
        state: RegionState::Allocating,
        name: "crashed".to_string(),
        offset: 50000,
        size: 2048,
        created_epoch: 0,
    };
    write_entry(&mut backend, 0, 1, &entry);

    // Open and recover.
    let mut alloc = RegionAllocator::open(backend, 0, pool_size).unwrap();

    let fixed = alloc.recover();
    assert_eq!(fixed, 1);

    // "good" should still be there.
    assert!(alloc.find_region("good").is_ok());
    // "crashed" should be gone.
    assert!(alloc.find_region("crashed").is_err());
}

#[test]
fn recovery_fixes_freeing_state() {
    let pool_size = 1024 * 1024;

    let mut backend = {
        let mut alloc = create_allocator(pool_size);
        alloc.create_region("to-free", 1024).unwrap();
        alloc.into_backend()
    };

    // Simulate crash during free: manually set state to FREEING.
    let ent_offset = entry_offset(0, 0);
    backend.store_u8(ent_offset + ENT_STATE, RegionState::Freeing.to_u8(), MemOrder::Relaxed);
    backend.flush(ent_offset, 64);

    // Recovery should complete the free.
    let mut alloc = RegionAllocator::open(backend, 0, pool_size).unwrap();

    let fixed = alloc.recover();
    assert_eq!(fixed, 1);
    assert_eq!(alloc.list_regions().len(), 0);
    // A second run finds nothing.
    assert_eq!(alloc.recover(), 0);
}

#[test]
fn can_reuse_freed_slot() {
    let mut alloc = create_allocator(1024 * 1024);

    alloc.create_region("first", 1024).unwrap();
    alloc.free_region("first").unwrap();

    // Should be able to allocate again (reuses the freed slot).
    let handle = alloc.create_region("second", 2048).unwrap();
    assert_eq!(handle.name, "second");
    assert_eq!(handle.slot, 0); // Reused slot 0.
}

#[test]
fn contains_check() {
    let handle = RegionHandle { slot: 0, name: "test".into(), offset: 1000, size: 500 };

    assert!(handle.contains(1000, 100));
    assert!(handle.contains(1000, 500));
    assert!(!handle.contains(1000, 501)); // Exceeds
    assert!(!handle.contains(999, 1)); // Before start
}

#[test]
fn contains_near_the_end_of_the_number_range() {
    let handle = RegionHandle { slot: 0, name: "x".into(), offset: u64::MAX - 8, size: 8 };
    assert!(handle.contains(u64::MAX - 8, 8));
    assert!(!handle.contains(u64::MAX, u64::MAX));
}

#[test]
fn absolute_offset_calc() {
    let handle = RegionHandle { slot: 0, name: "test".into(), offset: 4096, size: 1024 };

    assert_eq!(handle.absolute_offset(0), 4096);
    assert_eq!(handle.absolute_offset(100), 4196);
}

#[test]
fn regions_are_placed_on_cachelines() {
    let mut alloc = create_allocator(1024 * 1024);
    let r1 = alloc.create_region("a", 1).unwrap();
    let r2 = alloc.create_region("b", 65).unwrap();
    let r3 = alloc.create_region("c", 64).unwrap();
    assert_eq!(r1.offset, CATALOG_SIZE as u64);
    assert_eq!(r2.offset, CATALOG_SIZE as u64 + 64);
    assert_eq!(r3.offset, CATALOG_SIZE as u64 + 192);
}

#[test]
fn catalog_size_is_header_and_entries() {
    assert_eq!(CATALOG_SIZE, CATALOG_HEADER_SIZE + MAX_REGIONS * CATALOG_ENTRY_SIZE);
    assert_eq!(entry_offset(128, 2), 128 + 64 + 2 * 64);
}

#[test]
fn init_needs_room_for_the_catalog() {
    let result = RegionAllocator::init(HeapBackend::new(100), 0, 100);
    assert!(matches!(
        result,
        Err(AllocError::OutOfSpace { requested: 16448, available: 100 })
    ));
}

#[test]
fn init_zeroes_entries() {
    let pool_size = CATALOG_SIZE + 64;
    let backend = HeapBackend::from_bytes(vec![0xEE; pool_size]);
    let mut backend = RegionAllocator::init(backend, 0, pool_size).unwrap().into_backend();
    for i in [0usize, 17, 255] {
        let mut entry = [1u8; 64];
        backend.read(entry_offset(0, i), &mut entry);
        assert_eq!(entry, [0u8; 64]);
    }
    assert_eq!(backend.load_u8(CATALOG_SIZE, MemOrder::Relaxed), 0xEE);
}

#[test]
fn open_rejects_bad_magic() {
    let result = RegionAllocator::open(HeapBackend::new(CATALOG_SIZE), 0, CATALOG_SIZE);
    match result {
        Err(error) => assert_eq!(
            error.to_string(),
            "invalid allocator state: bad magic: expected 0x46454E43455F414C, got \
             0x0000000000000000"
        ),
        Ok(_) => panic!("opened"),
    }
}

#[test]
fn long_name_rejected() {
    let mut alloc = create_allocator(1024 * 1024);
    assert!(alloc.create_region("exactly-24-bytes-long-ok", 8).is_ok());
    let result = alloc.create_region("exactly-25-bytes-long-bad", 8);
    assert_eq!(
        result,
        Err(AllocError::InvalidState { detail: "name too long: max 24 bytes".to_string() })
    );
}

#[test]
fn names_need_not_be_ascii() {
    let mut alloc = create_allocator(1024 * 1024);
    let name = "h\u{e9}llo \u{20ac}";
    let handle = alloc.create_region(name, 8).unwrap();
    assert_eq!(alloc.find_region(name).unwrap(), handle);
    assert_eq!(alloc.list_regions(), vec![handle]);
}

#[test]
fn invalid_name_bytes_are_replaced() {
    let mut backend = HeapBackend::new(CATALOG_SIZE);
    let at = entry_offset(0, 3);
    backend.write(at + ENT_NAME_LEN, &3u16.to_le_bytes());
    backend.write(at + ENT_NAME, &[b'a', 0xFF, b'b']);
    assert_eq!(read_entry(&mut backend, 0, 3).name, "a\u{fffd}b");
}

#[test]
fn entry_is_read_back_as_written() {
    let mut backend = HeapBackend::new(CATALOG_SIZE + 64);
    let entry = CatalogEntry {
        state: RegionState::Freeing,
        name: "an-entry".to_string(),
        offset: 77,
        size: 88,
        created_epoch: 99,
    };
    write_entry(&mut backend, 64, 255, &entry);
    let read = read_entry(&mut backend, 64, 255);
    assert_eq!(read.state, RegionState::Freeing);
    assert_eq!(read.name, "an-entry");
    assert_eq!((read.offset, read.size, read.created_epoch), (77, 88, 99));
}

#[test]
fn unknown_entry_state_counts_as_free() {
    let mut backend = HeapBackend::new(CATALOG_SIZE);
    backend.store_u8(entry_offset(0, 0), 200, MemOrder::Relaxed);
    assert_eq!(read_entry(&mut backend, 0, 0).state, RegionState::Free);
    assert_eq!(RegionState::from_u8(200), None);
    assert_eq!(RegionState::from_u8(3), Some(RegionState::Freeing));
    assert_eq!(RegionState::Active.to_u8(), 2);
}

#[test]
fn catalog_full() {
    let mut alloc = create_allocator(1024 * 1024);
    for i in 0..MAX_REGIONS {
        alloc.create_region(&format!("r{i}"), 64).unwrap();
    }
    let result = alloc.create_region("one-more", 64);
    assert_eq!(result, Err(AllocError::CatalogFull));
    assert_eq!(result.unwrap_err().to_string(), "catalog full: max 256 regions");
}

#[test]
fn region_count_is_kept() {
    let mut alloc = create_allocator(1024 * 1024);
    alloc.create_region("a", 8).unwrap();
    alloc.create_region("b", 8).unwrap();
    alloc.free_region("a").unwrap();
    assert_eq!(alloc.backend_mut().load_u64(CAT_HDR_REGION_COUNT, MemOrder::Relaxed), 1);
}

#[test]
fn available_space_is_reported() {
    let mut alloc = create_allocator(CATALOG_SIZE + 128);
    alloc.create_region("a", 10).unwrap();
    let result = alloc.create_region("b", 65);
    assert_eq!(result, Err(AllocError::OutOfSpace { requested: 65, available: 64 }));
    let result = alloc.create_region("b", u64::MAX);
    assert_eq!(result, Err(AllocError::OutOfSpace { requested: u64::MAX, available: 64 }));
}

#[test]
fn corrupt_entry_leaves_no_space() {
    let mut backend = create_allocator(1024 * 1024).into_backend();
    let entry = CatalogEntry {
        state: RegionState::Active,
        name: "huge".to_string(),
        offset: u64::MAX,
        size: u64::MAX,
        created_epoch: 0,
    };
    write_entry(&mut backend, 0, 0, &entry);
    let mut alloc = RegionAllocator::open(backend, 0, 1024 * 1024).unwrap();
    assert_eq!(
        alloc.create_region("b", 8),
        Err(AllocError::OutOfSpace { requested: 8, available: 0 })
    );
}

#[test]
fn region_data_is_reached_through_the_backend() {
    let mut alloc = create_allocator(1024 * 1024);
    let region = alloc.create_region("data", 64).unwrap();
    let at = region.absolute_offset(8) as usize;
    alloc.backend_mut().write(at, b"payload");
    let mut buf = [0u8; 7];
    alloc.backend_mut().read(at, &mut buf);
    assert_eq!(&buf, b"payload");
    assert_eq!(alloc.backend().size(), 1024 * 1024);
    assert_eq!(alloc.find_region("data").unwrap(), region);
}

#[test]
fn messages_of_allocator_errors() {
    let e = AllocError::NameExists { name: "x".to_string() };
    assert_eq!(e.to_string(), "region 'x' already exists");
    let e = AllocError::NotFound { name: "x".to_string() };
    assert_eq!(e.to_string(), "region 'x' not found");
    let e = AllocError::OutOfSpace { requested: 10, available: 3 };
    assert_eq!(e.to_string(), "out of space: requested 10, available 3");
    let e: AllocError = FenceError::ChecksumMismatch { index: 4 }.into();
    assert_eq!(e, AllocError::Backend(FenceError::ChecksumMismatch { index: 4 }));
    assert_eq!(e.to_string(), "backend error: checksum mismatch at index 4");
}

/// A crash in the middle of an allocation, at each of its accesses.
#[test]
fn interrupted_allocation_is_rolled_back_or_complete() {
    for stop in 0..3u8 {
        let mut backend = create_allocator(1024 * 1024).into_backend();
        let entry = CatalogEntry {
            state: RegionState::Allocating,
            name: "half".to_string(),
            offset: CATALOG_SIZE as u64,
            size: 64,
            created_epoch: 0,
        };
        if stop > 0 {
            write_entry(&mut backend, 0, 0, &entry);
        }
        if stop > 1 {
            backend.store_u8(entry_offset(0, 0), RegionState::Active.to_u8(), MemOrder::Release);
        }
        let mut alloc = RegionAllocator::open(backend, 0, 1024 * 1024).unwrap();
        alloc.recover();
        let names: Vec<String> = alloc.list_regions().into_iter().map(|r| r.name).collect();
        if stop > 1 {
            assert_eq!(names, vec!["half".to_string()]);
        } else {
            assert!(names.is_empty());
        }
    }
}

/// Recovery leaves the regions in use, their places and their number alone.
#[test]
fn recovery_keeps_the_catalog_in_order() {
    let mut alloc = create_allocator(1024 * 1024);
    alloc.create_region("a", 100).unwrap();
    alloc.create_region("b", 200).unwrap();
    let before = alloc.list_regions();
    let mut backend = alloc.into_backend();
    let entry = CatalogEntry {
        state: RegionState::Allocating,
        name: "half".to_string(),
        offset: 50001,
        size: 8,
        created_epoch: 0,
    };
    write_entry(&mut backend, 0, 2, &entry);
    let mut alloc = RegionAllocator::open(backend, 0, 1024 * 1024).unwrap();
    assert_eq!(alloc.recover(), 1);
    let after = alloc.list_regions();
    assert_eq!(after, before);
    assert!(after.iter().all(|region| region.offset % 64 == 0));
    let mut backend = alloc.into_backend();
    assert_eq!(backend.load_u64(CAT_HDR_REGION_COUNT, MemOrder::Relaxed), 2);
}

#[test]
fn refused_catalog_touches_nothing() {
    let mut backend = HeapBackend::new(CATALOG_SIZE + 64);
    let before = backend.as_bytes().to_vec();
    let refused = AllocError::OutOfSpace {
        requested: CATALOG_SIZE as u64,
        available: CATALOG_SIZE as u64 - 1,
    };
    assert_eq!(write_catalog(&mut backend, 0, CATALOG_SIZE - 1), Err(refused));
    assert_eq!(backend.as_bytes(), &before[..]);
    assert_eq!(write_catalog(&mut backend, 0, CATALOG_SIZE), Ok(()));
    assert!(RegionAllocator::open(backend, 0, CATALOG_SIZE).is_ok());
}

/// A crash between entry and count leaves the count behind, and nothing else out of order.
#[test]
fn allocator_goes_on_with_a_stale_count() {
    let mut alloc = create_allocator(1024 * 1024);
    alloc.create_region("kept", 100).unwrap();
    let late = alloc.create_region("late", 100).unwrap();
    let mut backend = alloc.into_backend();
    backend.store_u64(CAT_HDR_REGION_COUNT, 1, MemOrder::Relaxed);
    let mut alloc = RegionAllocator::open(backend, 0, 1024 * 1024).unwrap();
    assert_eq!(alloc.recover(), 0);
    assert_eq!(alloc.find_region("late").unwrap().offset, late.offset);
    let next = alloc.create_region("next", 100).unwrap();
    assert!(next.offset >= late.offset + late.size && next.offset % 64 == 0);
    alloc.free_region("late").unwrap();
    assert!(alloc.find_region("late").is_err());
    assert_eq!(alloc.list_regions().len(), 2);
}

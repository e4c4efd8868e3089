use fence::backend::{MemOrder, MemoryBackend};
use fence::heap_backend::HeapBackend;

fn create_backend(size: usize) -> HeapBackend {
    HeapBackend::new(size)
}

#[test]
fn read_write_roundtrip() {
    let mut backend = create_backend(4096);
    let data = b"hello, fence!";
    backend.write(0, data);
    let mut buf = vec![0u8; data.len()];
    backend.read(0, &mut buf);
    assert_eq!(&buf, data);
}

#[test]
fn read_write_at_offset() {
    let mut backend = create_backend(4096);
    let data = b"offset test";
    backend.write(1024, data);
    let mut buf = vec![0u8; data.len()];
    backend.read(1024, &mut buf);
    assert_eq!(&buf, data);
}

#[test]
fn atomic_u64_store_load() {
    let mut backend = create_backend(4096);
    backend.store_u64(0, 0xDEAD_BEEF_CAFE_BABE, MemOrder::SeqCst);
    let val = backend.load_u64(0, MemOrder::SeqCst);
    assert_eq!(val, 0xDEAD_BEEF_CAFE_BABE);
}

#[test]
fn atomic_fetch_add() {
    let mut backend = create_backend(4096);
    backend.store_u64(64, 10, MemOrder::SeqCst);
    let prev = backend.fetch_add_u64(64, 5, MemOrder::SeqCst);
    assert_eq!(prev, 10);
    let curr = backend.load_u64(64, MemOrder::SeqCst);
    assert_eq!(curr, 15);
}

#[test]
fn atomic_compare_exchange_success() {
    let mut backend = create_backend(4096);
    backend.store_u64(0, 42, MemOrder::SeqCst);
    let result = backend.compare_exchange_u64(0, 42, 99, MemOrder::SeqCst, MemOrder::SeqCst);
    assert_eq!(result, Ok(42));
    assert_eq!(backend.load_u64(0, MemOrder::SeqCst), 99);
}

#[test]
fn atomic_compare_exchange_failure() {
    let mut backend = create_backend(4096);
    backend.store_u64(0, 42, MemOrder::SeqCst);
    let result = backend.compare_exchange_u64(0, 100, 99, MemOrder::SeqCst, MemOrder::SeqCst);
    assert_eq!(result, Err(42));
    // Value unchanged
    assert_eq!(backend.load_u64(0, MemOrder::SeqCst), 42);
}

#[test]
fn atomic_u8_store_load() {
    let mut backend = create_backend(4096);
    backend.store_u8(7, 0xAB, MemOrder::SeqCst);
    let val = backend.load_u8(7, MemOrder::SeqCst);
    assert_eq!(val, 0xAB);
}

#[test]
fn flush_does_not_panic() {
    let mut backend = create_backend(4096);
    backend.write(0, b"some data to flush");
    backend.flush(0, 64);
}

#[test]
fn size_matches() {
    let backend = create_backend(8192);
    assert_eq!(backend.size(), 8192);
}

#[test]
fn multiple_regions_independent() {
    let mut backend = create_backend(4096);
    backend.write(0, b"region A");
    backend.write(2048, b"region B");

    let mut buf_a = vec![0u8; 8];
    let mut buf_b = vec![0u8; 8];
    backend.read(0, &mut buf_a);
    backend.read(2048, &mut buf_b);

    assert_eq!(&buf_a, b"region A");
    assert_eq!(&buf_b, b"region B");
}

#[test]
fn fresh_memory_is_zero() {
    let mut backend = create_backend(128);
    let mut buf = vec![1u8; 128];
    backend.read(0, &mut buf);
    assert!(buf.iter().all(|b| *b == 0));
}

#[test]
fn words_are_little_endian() {
    let mut backend = create_backend(64);
    backend.store_u64(8, 0x0102_0304_0506_0708, MemOrder::Relaxed);
    let mut buf = [0u8; 8];
    backend.read(8, &mut buf);
    assert_eq!(buf, [8, 7, 6, 5, 4, 3, 2, 1]);
}

#[test]
fn fetch_add_wraps_around() {
    let mut backend = create_backend(64);
    backend.store_u64(0, 5, MemOrder::Relaxed);
    let prev = backend.fetch_add_u64(0, u64::MAX, MemOrder::Relaxed);
    assert_eq!(prev, 5);
    assert_eq!(backend.load_u64(0, MemOrder::Relaxed), 4);
}

#[test]
fn from_bytes_keeps_contents() {
    let mut backend = HeapBackend::from_bytes(vec![1, 2, 3, 4]);
    backend.store_u8(2, 9, MemOrder::Relaxed);
    assert_eq!(backend.as_bytes(), &[1u8, 2, 9, 4]);
}

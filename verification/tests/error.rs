use fence::error::FenceError;

#[test]
fn display_pool_full() {
    let e = FenceError::PoolFull { capacity: 1024, requested_slot: 1024 };
    assert_eq!(e.to_string(), "pool full: capacity 1024, requested slot 1024");
}

#[test]
fn display_payload_too_large() {
    let e = FenceError::PayloadTooLarge { max: 192, got: 256 };
    assert_eq!(e.to_string(), "payload too large: max 192 bytes, got 256");
}

#[test]
fn display_checksum_mismatch() {
    let e = FenceError::ChecksumMismatch { index: 42 };
    assert_eq!(e.to_string(), "checksum mismatch at index 42");
}

#[test]
fn from_io_error() {
    let io_err = std::io::Error::new(std::io::ErrorKind::NotFound, "file gone");
    let fence_err: FenceError = io_err.into();
    assert!(matches!(fence_err, FenceError::Io { .. }));
}

#[test]
fn from_io_error_keeps_message() {
    let io_err = std::io::Error::new(std::io::ErrorKind::NotFound, "file gone");
    let fence_err: FenceError = io_err.into();
    assert_eq!(fence_err, FenceError::Io { detail: "file gone".to_string() });
    assert_eq!(fence_err.to_string(), "i/o error: file gone");
}

#[test]
fn display_other_errors() {
    let e = FenceError::MmapFailed { detail: "no space".to_string() };
    assert_eq!(e.to_string(), "mmap failed: no space");
    let e = FenceError::InvalidMagic { expected: 0xABC, actual: 0 };
    assert_eq!(
        e.to_string(),
        "invalid magic: expected 0x0000000000000ABC, got 0x0000000000000000"
    );
    let e = FenceError::IndexOutOfBounds { index: 7, committed_tail: 3 };
    assert_eq!(e.to_string(), "index 7 out of bounds (committed_tail: 3)");
    let e = FenceError::TrimBeyondCommitted { requested: 9, committed_tail: 4 };
    assert_eq!(e.to_string(), "trim to 9 exceeds committed_tail 4");
}

#[test]
fn display_largest_numbers() {
    let e = FenceError::ChecksumMismatch { index: u64::MAX };
    assert_eq!(e.to_string(), "checksum mismatch at index 18446744073709551615");
    let e = FenceError::InvalidMagic { expected: u64::MAX, actual: 0x1234_5678_9ABC_DEF0 };
    assert_eq!(
        e.to_string(),
        "invalid magic: expected 0xFFFFFFFFFFFFFFFF, got 0x123456789ABCDEF0"
    );
}

use fence::checksum::{compute, verify};

#[test]
fn compute_deterministic() {
    let a = compute(1, 42, b"hello");
    let b = compute(1, 42, b"hello");
    assert_eq!(a, b);
}

#[test]
fn different_payload_different_checksum() {
    let a = compute(1, 1, b"hello");
    let b = compute(1, 1, b"world");
    assert_ne!(a, b);
}

#[test]
fn different_term_different_checksum() {
    let a = compute(1, 1, b"data");
    let b = compute(2, 1, b"data");
    assert_ne!(a, b);
}

#[test]
fn different_index_different_checksum() {
    let a = compute(1, 1, b"data");
    let b = compute(1, 2, b"data");
    assert_ne!(a, b);
}

#[test]
fn empty_payload_works() {
    let crc = compute(0, 0, b"");
    assert!(crc > 0 || crc == 0); // just ensure no panic
    // Verify roundtrip
    assert!(verify(0, 0, b"", crc));
}

#[test]
fn verify_correct() {
    let crc = compute(5, 100, b"test payload");
    assert!(verify(5, 100, b"test payload", crc));
}

#[test]
fn verify_wrong_checksum() {
    let crc = compute(5, 100, b"test payload");
    assert!(!verify(5, 100, b"test payload", crc + 1));
}

#[test]
fn verify_wrong_payload() {
    let crc = compute(5, 100, b"test payload");
    assert!(!verify(5, 100, b"wrong payload", crc));
}

#[test]
fn checksum_fits_in_u32_range() {
    let crc = compute(u64::MAX, u64::MAX, b"max values test");
    assert_eq!(crc >> 32, 0);
}

/// CRC32C of sixteen zero bytes, and of a record.
#[test]
fn checksum_values() {
    assert_eq!(compute(0, 0, b""), 0x4270_9AEA);
    assert_eq!(compute(7, 9, b"payload"), 0x11C4_92BB);
    assert_eq!(compute(5, 100, b"test payload"), 0xB595_69FB);
}

/// Well-known values of CRC32C: 32 bytes of zeros, of ones, and counting up. The first
/// sixteen are term and index, little-endian.
#[test]
fn checksum_is_crc32c() {
    assert_eq!(compute(0, 0, &[0; 16]), 0x8A91_36AA);
    assert_eq!(compute(u64::MAX, u64::MAX, &[0xFF; 16]), 0x62A8_AB43);
    let counting: Vec<u8> = (16..32).collect();
    let checksum = compute(0x0706_0504_0302_0100, 0x0F0E_0D0C_0B0A_0908, &counting);
    assert_eq!(checksum, 0x46DD_794E);
}

/// A record at another index or term has another checksum.
#[test]
fn moved_record_shows() {
    let here = compute(3, 7, b"payload");
    for other in [0, 1, 8, 0xFFFF_FFFF, 7 | 1 << 63, 7 | 5 << 32] {
        assert_ne!(compute(3, other, b"payload"), here);
        assert_ne!(compute(other, 7, b"payload"), here);
    }
}

/// Damage within four consecutive bytes shows.
#[test]
fn damaged_payload_shows() {
    let payload = b"sixteen byte pay";
    let whole = compute(1, 1, payload);
    for at in 0..13 {
        for flip in [1u8, 0x80, 0xFF] {
            let mut damaged = payload.to_vec();
            damaged[at] ^= flip;
            damaged[at + 3] ^= 0x55;
            assert_ne!(compute(1, 1, &damaged), whole);
        }
    }
}

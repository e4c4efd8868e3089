//! Error type shared by the engine's operations.
use crate::text;
use vstd::prelude::*;
use vstd::string::*;

verus! {

/// Errors that can occur during pool operations.
#[derive(Debug, Clone, PartialEq, Eq)]
#[non_exhaustive]
pub enum FenceError {
    /// Pool has no remaining slots for a new record.
    PoolFull { capacity: u32, requested_slot: u64 },
    /// Payload exceeds the pool's configured maximum.
    PayloadTooLarge { max: u32, got: usize },
    /// Record at the given index has an invalid checksum (corruption or torn write).
    ChecksumMismatch { index: u64 },
    /// The pool file or region could not be memory-mapped.
    MmapFailed { detail: String },
    /// The pool header contains an invalid magic number.
    InvalidMagic { expected: u64, actual: u64 },
    /// An I/O error occurred during backend operations.
    Io { detail: String },
    /// The requested record index is out of bounds.
    IndexOutOfBounds { index: u64, committed_tail: u64 },
    /// Trim was requested past the committed tail.
    TrimBeyondCommitted { requested: u64, committed_tail: u64 },
}

impl FenceError {
    /// The message that describes the error.
    pub open spec fn message(self) -> Seq<char> {
        match self {
            FenceError::PoolFull { capacity, requested_slot } => "pool full: capacity "@
                + text::decimal(capacity as nat) + ", requested slot "@ + text::decimal(
                requested_slot as nat,
            ),
            FenceError::PayloadTooLarge { max, got } => "payload too large: max "@ + text::decimal(
                max as nat,
            ) + " bytes, got "@ + text::decimal(got as nat),
            FenceError::ChecksumMismatch { index } => "checksum mismatch at index "@
                + text::decimal(index as nat),
            FenceError::MmapFailed { detail } => "mmap failed: "@ + detail@,
            FenceError::InvalidMagic { expected, actual } => "invalid magic: expected 0x"@
                + text::hex(expected as nat, 16) + ", got 0x"@ + text::hex(actual as nat, 16),
            FenceError::Io { detail } => "i/o error: "@ + detail@,
            FenceError::IndexOutOfBounds { index, committed_tail } => "index "@ + text::decimal(
                index as nat,
            ) + " out of bounds (committed_tail: "@ + text::decimal(committed_tail as nat) + ")"@,
            FenceError::TrimBeyondCommitted { requested, committed_tail } => "trim to "@
                + text::decimal(requested as nat) + " exceeds committed_tail "@ + text::decimal(
                committed_tail as nat,
            ),
        }
    }

    /// Renders the error for display.
    pub fn to_string(&self) -> (s: String)
        ensures
            s@ == self.message(),
    {
        let mut s: String = String::new();
        match self {
            FenceError::PoolFull { capacity, requested_slot } => {
                s.append("pool full: capacity ");
                text::push_decimal(&mut s, *capacity as u64);
                s.append(", requested slot ");
                text::push_decimal(&mut s, *requested_slot);
            },
            FenceError::PayloadTooLarge { max, got } => {
                s.append("payload too large: max ");
                text::push_decimal(&mut s, *max as u64);
                s.append(" bytes, got ");
                text::push_decimal(&mut s, *got as u64);
            },
            FenceError::ChecksumMismatch { index } => {
                s.append("checksum mismatch at index ");
                text::push_decimal(&mut s, *index);
            },
            FenceError::MmapFailed { detail } => {
                s.append("mmap failed: ");
                s.append(detail.as_str());
            },
            FenceError::InvalidMagic { expected, actual } => {
                s.append("invalid magic: expected 0x");
                text::push_hex(&mut s, *expected, 16);
                s.append(", got 0x");
                text::push_hex(&mut s, *actual, 16);
            },
            FenceError::Io { detail } => {
                s.append("i/o error: ");
                s.append(detail.as_str());
            },
            FenceError::IndexOutOfBounds { index, committed_tail } => {
                s.append("index ");
                text::push_decimal(&mut s, *index);
                s.append(" out of bounds (committed_tail: ");
                text::push_decimal(&mut s, *committed_tail);
                s.append(")");
            },
            FenceError::TrimBeyondCommitted { requested, committed_tail } => {
                s.append("trim to ");
                text::push_decimal(&mut s, *requested);
                s.append(" exceeds committed_tail ");
                text::push_decimal(&mut s, *committed_tail);
            },
        }
        assert(s@ =~= self.message());
        s
    }
}

/// Declares `std::io::Error`, which is only asked for its message.
#[verifier::external_type_specification]
#[verifier::external_body]
pub struct ExIoError(std::io::Error);

impl From<std::io::Error> for FenceError {
    fn from(e: std::io::Error) -> (error: Self)
        ensures
            error matches FenceError::Io { detail } && to_string_from_display_ensures(&e, detail),
    {
        FenceError::Io { detail: e.to_string() }
    }
}

impl vstd::std_specs::convert::FromSpecImpl<std::io::Error> for FenceError {
    open spec fn obeys_from_spec() -> bool {
        false
    }

    open spec fn from_spec(e: std::io::Error) -> Self {
        arbitrary()
    }
}

} // verus!

//! Handles to allocated regions.
use vstd::prelude::*;

verus! {

/// A handle to an allocated region: what is needed to reach its data through a backend.
#[derive(Debug, Clone, PartialEq, Eq)]
pub struct RegionHandle {
    /// Catalog entry of the region.
    pub slot: usize,
    /// Name of the region.
    pub name: String,
    /// Absolute byte offset of the region's data in the pool.
    pub offset: u64,
    /// Size of the region in bytes.
    pub size: u64,
}

/// A region handle, as it stands in contracts.
#[verifier::ext_equal]
pub struct RegionView {
    pub slot: int,
    pub name: Seq<char>,
    pub offset: u64,
    pub size: u64,
}

impl View for RegionHandle {
    type V = RegionView;

    open spec fn view(&self) -> RegionView {
        RegionView {
            slot: self.slot as int,
            name: self.name@,
            offset: self.offset,
            size: self.size,
        }
    }
}

impl RegionHandle {
    /// Whether the `len` bytes from `byte_offset` on lie within the region.
    pub fn contains(&self, byte_offset: u64, len: u64) -> (inside: bool)
        ensures
            inside == (self.offset <= byte_offset && byte_offset + len <= self.offset + self.size),
    {
        byte_offset >= self.offset && byte_offset as u128 + len as u128 <= self.offset as u128
            + self.size as u128
    }

    /// The absolute pool offset of an offset within the region.
    pub fn absolute_offset(&self, relative: u64) -> (offset: u64)
        requires
            self.offset + relative <= u64::MAX,
        ensures
            offset == self.offset + relative,
    {
        self.offset + relative
    }
}

} // verus!

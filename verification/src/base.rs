//! Identifier and extent types shared by the pool engine and the cache.
//!
//! All identifiers are opaque, totally ordered 64-bit values; `next` returns
//! the successor.

use vstd::prelude::*;

verus! {

#[derive(Debug, Copy, Clone, PartialEq, Eq, Structural, Hash)]
pub struct PoolGuid(pub u64);

#[derive(Debug, Copy, Clone, PartialEq, Eq, Structural, Hash)]
pub struct BlockId(pub u64);

impl BlockId {
    pub fn next(&self) -> (r: BlockId)
        requires
            self.0 < u64::MAX,
        ensures
            r.0 == self.0 + 1,
    {
        BlockId(self.0 + 1)
    }
}

#[derive(Debug, Copy, Clone, PartialEq, Eq, Structural, Hash)]
pub struct ObjectId(pub u64);

impl ObjectId {
    pub fn next(&self) -> (r: ObjectId)
        requires
            self.0 < u64::MAX,
        ensures
            r.0 == self.0 + 1,
    {
        ObjectId(self.0 + 1)
    }
}

#[derive(Debug, Copy, Clone, PartialEq, Eq, Structural)]
pub struct Txg(pub u64);

impl Txg {
    pub fn checked_sub(self, rhs: u64) -> (r: Option<Txg>)
        ensures
            self.0 < rhs ==> r is None,
            self.0 >= rhs ==> r == Some(Txg((self.0 - rhs) as u64)),
    {
        if self.0 < rhs {
            None
        } else {
            Some(Txg(self.0 - rhs))
        }
    }
}

#[derive(Debug, Copy, Clone, PartialEq, Eq, Structural)]
pub struct CheckpointId(pub u64);

impl CheckpointId {
    pub fn next(&self) -> (r: CheckpointId)
        requires
            self.0 < u64::MAX,
        ensures
            r.0 == self.0 + 1,
    {
        CheckpointId(self.0 + 1)
    }
}

/// Cache access-time counter; a monotone logical clock, not wall time.
#[derive(Debug, Copy, Clone, PartialEq, Eq, Structural)]
pub struct Atime(pub u64);

impl Atime {
    pub fn next(&self) -> (r: Atime)
        requires
            self.0 < u64::MAX,
        ensures
            r.0 == self.0 + 1,
    {
        Atime(self.0 + 1)
    }
}

/// Identifier of one reclaim log within the extendible hash table.
#[derive(Debug, Copy, Clone, PartialEq, Eq, Structural)]
pub struct ReclaimLogId(pub u16);

impl ReclaimLogId {
    pub fn as_index(self) -> (r: usize)
        ensures
            r == self.0 as usize,
    {
        usize::from(self.0)
    }
}

/// Byte offset on the cache device.
#[derive(Debug, Copy, Clone, PartialEq, Eq, Structural)]
pub struct DiskLocation {
    pub offset: u64,
}

/// A contiguous run of bytes on the cache device.
#[derive(Debug, Copy, Clone, PartialEq, Eq, Structural)]
pub struct Extent {
    pub location: DiskLocation,
    pub size: u64,
}

impl Extent {
    /// The sub-extent starting `relative_offset` bytes in, `size` bytes long.
    pub fn range(&self, relative_offset: u64, size: u64) -> (r: Extent)
        requires
            relative_offset + size <= self.size,
            self.location.offset + relative_offset <= u64::MAX,
        ensures
            r.location.offset == self.location.offset + relative_offset,
            r.size == size,
    {
        Extent { location: DiskLocation { offset: self.location.offset + relative_offset }, size }
    }
}

/// Key of one cached block: the owning pool and the block within it.
#[derive(Debug, Copy, Clone, PartialEq, Eq, Structural, Hash)]
pub struct IndexKey {
    pub guid: PoolGuid,
    pub block: BlockId,
}

impl IndexKey {
    /// Total order on keys: by pool, then by block.
    pub open spec fn spec_lt(self, other: IndexKey) -> bool {
        self.guid.0 < other.guid.0
            || (self.guid.0 == other.guid.0 && self.block.0 < other.block.0)
    }

    pub open spec fn spec_le(self, other: IndexKey) -> bool {
        self.spec_lt(other) || self == other
    }

    pub fn lt(&self, other: &IndexKey) -> (r: bool)
        ensures
            r == self.spec_lt(*other),
    {
        self.guid.0 < other.guid.0
            || (self.guid.0 == other.guid.0 && self.block.0 < other.block.0)
    }

    pub fn le(&self, other: &IndexKey) -> (r: bool)
        ensures
            r == self.spec_le(*other),
    {
        self.guid.0 < other.guid.0
            || (self.guid.0 == other.guid.0 && self.block.0 <= other.block.0)
    }
}

/// Where a cached block lives on the device, how large it is, and when it
/// was last accessed.
#[derive(Debug, Copy, Clone, PartialEq, Eq, Structural)]
pub struct IndexValue {
    pub location: DiskLocation,
    pub size: u32,
    pub atime: Atime,
}

impl IndexValue {
    pub fn extent(&self) -> (r: Extent)
        ensures
            r.location == self.location,
            r.size == self.size as u64,
    {
        Extent { location: self.location, size: self.size as u64 }
    }
}

/// One entry of the cache index.
#[derive(Debug, Copy, Clone, PartialEq, Eq, Structural)]
pub struct IndexEntry {
    pub key: IndexKey,
    pub value: IndexValue,
}

} // verus!

use vstd::prelude::*;

verus! {

/// Identifier of one contiguous byte range of a device.
pub type RegionId = u32;

/// Write-time version counter: a total order on the versions of one key.
pub type Sequence = u64;

/// Where a persisted entry lives, and the sequence it was written with.
#[derive(Debug, Clone, Copy, PartialEq, Eq, Structural)]
pub struct EntryAddress {
    pub region: RegionId,
    pub offset: u32,
    pub len: u32,
    pub sequence: Sequence,
}

/// One entry descriptor produced by scanning a region.
#[derive(Debug, Clone, Copy, PartialEq, Eq, Structural)]
pub struct EntryInfo {
    pub hash: u64,
    pub addr: EntryAddress,
}

/// A logical deletion of a key hash at a sequence.
#[derive(Debug, Clone, Copy, PartialEq, Eq, Structural)]
pub struct Tombstone {
    pub hash: u64,
    pub sequence: Sequence,
}

/// An address published to the indexer, keyed by its hash.
#[derive(Debug, Clone, Copy, PartialEq, Eq, Structural)]
pub struct HashedEntryAddress {
    pub hash: u64,
    pub address: EntryAddress,
}

/// How a region's scan errors are treated during recovery.
#[derive(Debug, Clone, Copy, PartialEq, Eq, Structural)]
pub enum RecoverMode {
    /// Recover nothing: every region comes back empty.
    Skip,
    /// Stop scanning the region on an error and keep what was recovered.
    Quiet,
    /// Fail the region's recovery on an error.
    Strict,
}

} // verus!

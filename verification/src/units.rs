//! Sizes: sectors, bytes, and the constants that relate them.

use vstd::prelude::*;

verus! {

/// A count of 512-byte sectors, or a sector address on a device.
pub type Sectors = u64;

/// A count of bytes.
pub type Bytes = u64;

/// Bytes in one sector.
pub const SECTOR_SIZE: u64 = 512;

/// The number of whole sectors contained in `bytes`.
pub fn bytes_to_sectors(bytes: Bytes) -> (sectors: Sectors)
    ensures
        sectors == bytes / SECTOR_SIZE,
{
    bytes / SECTOR_SIZE
}

} // verus!

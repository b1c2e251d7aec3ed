//! Block-device admission, on-device metadata, and sector allocation for a
//! storage pool.
//!
//! The crate holds the decisions; it performs no I/O. A caller opens and
//! sizes the devices, hands the library what it read, and writes to the
//! devices what the library hands back.

pub mod blockdev;
pub mod blockdevmgr;
pub mod device;
pub mod errors;
pub mod filesystem;
pub mod metadata;
pub mod props;
pub mod range_alloc;
pub mod units;

//! Recovery of a large-object disk cache's index, and the positional I/O
//! engine that backs its reads and writes.

pub mod entry;
pub mod region_recover;
pub mod recover;
pub mod psync;

//! A library for keeping a folder of dated backup snapshots under a size
//! budget. It discovers no files itself: callers hand it the snapshots
//! (date, path, byte size) and it decides which ones to evict, preferring
//! snapshots whose loss degrades time coverage the least.

pub mod backups;
pub mod dates;
pub mod human_size;

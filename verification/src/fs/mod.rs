//! The filesystem log store: names of batches and segments, and the choice
//! of what to read from a directory listing.

pub mod paths;
pub mod peers;
pub mod batches;
pub mod pack;
pub mod segments;
pub mod sink;
pub mod source;
pub mod timestamp;

//! Merging of several status-bar feeds into one stream: a byte-level
//! extractor that cuts each block list out of a feed, a line format that
//! carries a block list with its priority, and an arbiter that decides which
//! update owns the merged output.

pub mod arbiter;
pub mod codec;
pub mod error;
pub mod extractor;
pub mod producer;
pub mod wire;

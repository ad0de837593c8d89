//! Streaming line deduplication: suppress every line that is identical to
//! the immediately preceding emitted line, as the classic `uniq` filter does.

pub mod dedup;
pub mod lines;
pub mod options;
pub mod stream;

//! Minimum, mean and maximum per station over a buffer of `station;reading`
//! lines.
//!
//! The buffer is cut into line-aligned ranges (`chunker`), each range is read
//! record by record (`record`) into a table of running statistics (`parser`,
//! `table`, `stats`), the tables are merged, and the merged table is written
//! out as one line ordered by station name (`listing`, `report`). `pipeline`
//! does all of it in a row; a caller with several cores reads the ranges side
//! by side and merges what comes back.
//!
//! Readings are held as whole tenths, the precision of the written summary, so
//! every sum is exact and merging is associative without any tolerance. How
//! the text of a reading becomes tenths is the caller's part.

pub mod scan;
pub mod chunker;
pub mod decimal;
pub mod listing;
pub mod order;
pub mod parser;
pub mod pipeline;
pub mod record;
pub mod report;
pub mod stats;
pub mod table;
pub mod tally;

pub use chunker::chunk;
pub use parser::{parse_chunk, ParseError};
pub use pipeline::summarize;
pub use report::report;
pub use stats::Stats;
pub use table::{merge, mergeable, Table};

//! Per-key minimum, maximum, sum and count over a file of `key;value` lines,
//! computed chunk by chunk and proved equal to one linear scan.
//!
//! The input is cut into chunks that end where records end (`chunk`), every
//! chunk is scanned by itself into a mapping from key to statistics (`scan`,
//! `record`, `value`, `stations`, `stats`), and the partial mappings are
//! merged (`merge`). `pipeline` puts these together and states that the
//! outcome is that of one linear scan, whatever the chunk size.
//!
//! Values are decimal numerals held exactly as whole tenths, so that every
//! statistic is exact and merging is associative; `report` writes them back
//! with one digit after the point.

pub mod bytes;
pub mod chunk;
pub mod merge;
pub mod pipeline;
pub mod record;
pub mod report;
pub mod scan;
pub mod stations;
pub mod stats;
pub mod text;
pub mod value;

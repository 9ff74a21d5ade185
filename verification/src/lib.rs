//! Aggregation of `key;value` records: parse a newline-delimited byte buffer,
//! group records by key, and compute per-key count, minimum, maximum and
//! truncating mean over values held as exact fixed-point tenths.

pub mod aggregate;
pub mod bytes;
pub mod keymap;
pub mod numeric;
pub mod partition;
pub mod pipeline;
pub mod record;
pub mod report;
pub mod scan;

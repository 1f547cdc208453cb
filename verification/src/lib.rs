//! Time-partitioned log storage and search.
//!
//! Ingest parses each log line into a record by a named-capture
//! pattern, normalizes its timestamp to milliseconds since the epoch,
//! serializes it as one line, and accumulates lines into size-bounded
//! compressed segments whose sealed names carry their timestamp span.
//! Search parses a directory's names into a coarse range index,
//! keeps the partitions whose span meets the query window, and scans
//! each one for lines holding a pattern match, in on-disk order.

pub mod augment;
pub mod codec;
pub mod index;
pub mod name;
pub mod num;
pub mod parse;
pub mod pipeline;
pub mod record;
pub mod regex;
pub mod search;
pub mod writer;

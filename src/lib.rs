//! Detection of hosts abused as reflectors: a table of the last time each
//! source address was seen, the staleness rule that decides which addresses
//! are reported and evicted, and the handling of eviction requests so that a
//! refresh that lands after a scan is not lost.
//!
//! - `table`: the flow table (`upsert`, `remove`, `scan_snapshot`).
//! - `expiry`: one expiry cycle, from a snapshot to removal requests.
//! - `ingest`: applying removal requests and captured frames to the table.
//! - `frame`: the normalised source address of an Ethernet frame.
//! - `laws`: properties that relate several of the operations.
//! - `letters`: letter frequencies over a list of strings.

pub mod expiry;
pub mod frame;
pub mod ingest;
pub mod laws;
pub mod letters;
pub mod table;

//! Parsing of the kernel's textual counters (aggregate CPU ticks, memory
//! table, swap table, uptime) and the metrics derived from them, with the
//! snapshot state that a periodic refresh replaces as a whole.
pub mod metrics;
pub mod parser;
pub mod state;
pub mod table;
pub mod text;

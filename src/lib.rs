//! Conversion of line-oriented files of eight-digit postal codes into a
//! packed binary file of four-byte little-endian words, one per line, in
//! input order, so that record `i` sits at byte offset `4 * i`.
//!
//! - `codec`: the record parser and the binary encoder.
//! - `lines`: the line source, which cuts a byte stream into lines.
//! - `driver`: the decisions of a run, as a state machine, and a whole run
//!   over an input held in memory.
//!
//! Beside them stand a few small utilities: grouping with per-group sums,
//! a shared lockable value, plain records of a fruit-salad service, and
//! taking the value out of a result.

pub mod codec;
pub mod lines;
pub mod driver;
pub mod group;
pub mod arc_mutex;
pub mod models;
pub mod errors;

//! Parallel sample sort of 32-bit float records held in a flat binary layout.
//!
//! A record is carried as its IEEE-754 bit pattern (`u32`). Ordering goes by a
//! total order key on those bits, so the library itself never touches a float.
//!
//! - `record`: the byte layout, and a checked store of records;
//! - `order`: the order key and sorting by it;
//! - `pivot`: sampling and pivot selection;
//! - `worker`: what each worker keeps, and the table that gives its offset;
//! - `laws`: what holds of a whole run, whatever pivots were drawn.
pub mod error;
pub mod laws;
pub mod order;
pub mod pivot;
pub mod record;
pub mod worker;

//! A small calendar library: validated Gregorian dates and times of day,
//! a bijective date <-> day-count conversion, and an absolute instant
//! (seconds since the epoch plus nanoseconds) composed from the two.

pub mod date;
pub mod ordinal;
pub mod time;
pub mod instant;

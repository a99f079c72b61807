//! Durations written in a compact textual form such as `1w6d23h49m59s`.
//!
//! A duration is a count of whole seconds with a nanosecond remainder. Its
//! text is a run of up to five groups, each a decimal magnitude followed by a
//! unit letter, in the fixed order weeks, days, hours, minutes, seconds.
//! Parsing accepts any such text; formatting always produces the canonical
//! one, in which every magnitude is reduced and no zero group is written.

pub mod decimal;
pub mod duration;
pub mod grammar;
pub mod laws;
pub mod range;

pub use duration::{DurationFlex, DurationFlexError, InvalidValue, EXPECTED_FORMAT};

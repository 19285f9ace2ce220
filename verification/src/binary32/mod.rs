//! IEEE 754 single precision numbers, held as their bit patterns and computed
//! with integers alone, so that every result is the same on every machine.

pub mod arith;
pub mod close;
pub mod convert;
pub mod exact;
pub mod order;
pub mod pattern;
pub mod quotient;
pub mod round;

pub use crate::binary32::pattern::Binary32;

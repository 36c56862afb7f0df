//! Quantities of measurement on IEEE 754 binary64 values.
//!
//! A quantity holds one number, its value in a fixed base unit. The number
//! is kept as the 64-bit encoding of a double-precision value, and all that
//! the library does with it is done on integers: conversions between units,
//! arithmetic, equality, ordering and the choice of a display scale. Each
//! operation is proved to give what the same operation on the values gives,
//! rounded to the nearest binary64 value where it has to be rounded.
//!
//! `binary64` reads an encoding as the value it denotes, `rounding` says what
//! rounding to the nearest value is and performs it, `arithmetic` adds,
//! subtracts, multiplies and divides, `measurement` holds what all kinds of
//! quantity share, and `charge` is electrical charge.

pub mod arithmetic;
pub mod binary64;
pub mod charge;
pub mod measurement;
pub mod rounding;

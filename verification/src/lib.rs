//! Detection of bit-flip squatting among package names: names that differ
//! from a known target name by exactly one bit of one byte, found in a
//! universe of known names, and classified as cyclical when the flipped
//! package's latest manifest depends on the original name.

pub mod bitflip;
pub mod classify;
pub mod text;

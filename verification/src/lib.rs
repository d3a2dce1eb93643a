//! A sequence container for 4-bit values ("nibbles"), stored two per byte.
//!
//! The container supports random access, append, split at an arbitrary nibble
//! index, and concatenation, all without wasting a full byte per 4-bit value.
//! Splitting and joining at odd indices re-pack the byte buffer on the fly,
//! and the unused lower half of the final byte of an odd-length sequence is
//! kept at zero so that later appends and joins never see stale bits.

pub mod laws;
pub mod nibble;

pub use nibble::NibbleVec;

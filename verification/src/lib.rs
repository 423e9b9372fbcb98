//! Trims a Minecraft world: region files are rewritten so that only the
//! chunks selected by an ordered chain of keep-predicates remain.
//!
//! Everything here works on bytes held in memory. A region file is a
//! `&[u8]`, a rewritten region file is a `Vec<u8>`; reading and writing the
//! files themselves is left to the caller.

pub mod mca;
pub mod patterns;
pub mod world;

//! The kinds of filter rule that the engine understands.

pub mod cosmetic;
pub mod hostnames;

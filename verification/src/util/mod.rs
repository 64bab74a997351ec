//! Utilities.

pub mod decimal;
pub mod normalize_identifier;
pub mod text;

//! Strings and slices.

pub mod fixed_str;
pub mod text;

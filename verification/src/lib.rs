//! Grouping formatter for numeric text.
//!
//! The library inserts a comma between every group of three characters in
//! the integer part of a numeric string, counted from the right, and leaves
//! the fractional part (the first decimal point and everything after it)
//! untouched. Grouping is purely positional, so digits of any script are
//! handled alike.

pub mod add_commas;
pub mod grouping;
pub mod laws;

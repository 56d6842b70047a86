//! Positional digit decomposition of unsigned integers.
//!
//! The crate decomposes a number into its base-`r` digits, supports
//! traversal from either end of the digit string, and folds a digit
//! string back into a number, in original or reversed order.

pub mod digits;
pub mod positional;

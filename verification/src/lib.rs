//! Small, independent utility functions over arrays, strings, dates and
//! numbers, each with a machine-checked contract.

pub mod arrays;
pub mod dates;
pub mod error;
pub mod maths;
pub mod strings;

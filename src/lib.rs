//! Small utilities: numeric-text classification and conversion, first-character
//! case changes, and flattening of nested options.
pub mod fs;
pub mod number;
pub mod option;
pub mod parse;
pub mod text;

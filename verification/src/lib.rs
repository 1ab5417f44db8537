//! Cleaning of Python package entry-point files.
//!
//! The library removes `if __name__ == "__main__":` blocks and stale
//! `__all__` lists from a source file, and appends a fresh `__all__` list
//! holding the names that the file's import statements bind.
//!
//! [`clean::clean_source`] does the whole of it, from the text of a file to
//! the text that replaces it. Its parts can be used alone:
//!
//! - [`segment`] decides which lines of the file are kept,
//! - [`extract`] finds the import statements in the text, with the `regex`
//!   crate,
//! - [`resolve`] reads from each statement the names that it binds,
//! - [`export`] puts the names in order and writes the export block.
//!
//! [`text`], [`order`] and [`lines`] hold what the others share: whitespace
//! and tokens, the order of names, and the cutting of a text into lines.

pub mod clean;
pub mod export;
pub mod extract;
pub mod lines;
pub mod order;
pub mod resolve;
pub mod segment;
pub mod text;

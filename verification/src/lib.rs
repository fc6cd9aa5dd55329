//! Validation of ownership rules against a repository.
//!
//! An ownership file maps patterns of paths to their owners, one rule a
//! line. This library reads such a file, compiles each rule to the globs that
//! stand for it, and finds the rules that nothing in a repository satisfies,
//! the rules that repeat an earlier rule, and the rules that an earlier rule
//! covers.
//!
//! The library reads no file and walks no directory: its callers hand it the
//! text of the file and what they found in the repository.
pub mod fx;
pub mod globs;
pub mod parser;
pub mod pattern;
pub mod text;
pub mod validators;

//! The checks that are run on a list of rules.
pub mod avoid_shadowing;
pub mod check_exists;
pub mod duplicate_patterns;
pub mod existence;
pub mod matcher;
pub mod record;
pub mod tracker;
pub mod validator;
pub mod workers;

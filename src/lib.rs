//! Portable glob patterns and a directory walk that prunes subtrees that can
//! never hold a match.
//!
//! `portable_glob` validates patterns of a restricted glob dialect whose
//! meaning is the same on every platform, and compiles them. `glob_walker`
//! combines compiled globs into a matcher that tells whether a relative path
//! matches, whether a directory can hold a match, and what a walk does with
//! each entry.
pub mod glob_walker;
pub mod portable_glob;

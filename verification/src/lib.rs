//! A configurable pattern-based source-code linter.
//!
//! Rules pair a primary regular expression with optional `required`,
//! `forbidden` and `ignore` companions.  The engine finds every candidate
//! match of the primary pattern in a file's text, suppresses candidates that
//! start inside an ignore span, validates the rest against the companions
//! anchored exactly at the candidate's start, and classifies each candidate
//! as `Pass`, `Fail` or `Skip`.  The classified matches are then grouped by
//! file, ordered deterministically, and rendered either as compact one-line
//! reports or as multi-line annotated excerpts.

pub mod lint;
pub mod locate;
pub mod pattern;
pub mod printer;

//! An interpreter for a minimal string-rewriting language.
//!
//! A program is an ordered list of rules, one per line of source text:
//! `pattern:replacement` rewrites and goes on, `pattern::replacement`
//! rewrites and stops, and any other line is a comment. A run starts from a
//! buffer of text. Each step applies the first rule whose pattern occurs in
//! the buffer, to the leftmost occurrence. The run halts when no rule
//! matches or a terminating rule has fired, and fails when it has used up
//! its steps or the buffer has outgrown its limit.
//!
//! - [`text`]: leftmost substring search and replacement.
//! - [`rule`]: rules, how a line compiles into one, and what one does to a
//!   buffer.
//! - [`program`]: programs, how source text compiles into one, and the scan
//!   that picks the rule to fire.
//! - [`engine`]: the configuration, the state machine, and the run.
//! - [`error`]: the kinds of failure.
//! - [`laws`]: what is proved of all rules, programs, buffers and
//!   configurations.

pub mod engine;
pub mod error;
pub mod laws;
pub mod program;
pub mod rule;
pub mod text;

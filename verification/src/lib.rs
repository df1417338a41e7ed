//! Structured-task observability: a program wraps its units of work into
//! tasks; tasks nest into a tree, carry tagged key/value data, and emit
//! events at their start and at their end, which reporters show.
//!
//! The library is the verified core. It holds no lock, starts no thread,
//! reads no clock and writes to no stream: the program around it does, and
//! hands it instants and results as plain values.
//!
//! - [`utils`], [`types`], [`chars`]: names with tags, tag sets, text.
//! - [`data`]: the data of a task, by key.
//! - [`task_internal`], [`uniq_id`], [`time`]: the record of a task.
//! - [`ids`], [`ordered`]: lists and sets of identifiers in increasing order.
//! - [`tree_view`], [`marking`], [`sweep`]: what a tree is, in words of sets
//!   and maps, what each operation does to it, and what holds of it always.
//! - [`walk`]: what a walk over a subtree has gathered, step by step.
//! - [`task_tree`], [`task`]: the tree and the handles of its tasks.
//! - [`runs`]: what holds after every sequence of operations.
//! - [`reporters`]: the reporters of text, of traces and of the live status
//!   of the terminal, and what the layout of the status holds.
//! - [`trace`]: a subtree laid out flat, for export.
//!
//! # What is taken on trust
//!
//! Verus believes, and does not check, the contracts of the calls into
//! other crates and into the part of the standard library that it has no
//! contract of. These are: `String::push` in [`chars`]; the clone of the
//! shared handle of an error formatter in [`task_tree`]; the styles of the
//! crate `colored` in [`reporters::colors`]; the timestamps of `chrono` and
//! the stripping of escape sequences by `strip-ansi-escapes` in
//! [`reporters::text`]; and the wrapping and the showing of the errors of
//! `anyhow` in [`errors`]. A reporter or an error formatter that the host
//! program brings is trusted to do what its trait says.

pub mod chars;
pub mod data;
pub mod errors;
pub mod ids;
pub mod level;
pub mod marking;
pub mod ordered;
pub mod reporters;
pub mod runs;
pub mod sweep;
pub mod task;
pub mod task_internal;
pub mod task_tree;
pub mod time;
pub mod trace;
pub mod tree_view;
pub mod types;
pub mod uniq_id;
pub mod utils;
pub mod walk;

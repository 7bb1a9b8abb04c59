//! A line-oriented task list: a tokenizer for command lines, a matcher from
//! arguments to commands, and the ordered store of items the commands act on.
pub mod command;
pub mod session;
pub mod store;

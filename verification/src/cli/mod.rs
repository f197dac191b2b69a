//! The command line: its options, and what each action decides once the outside
//! work is done.

pub mod def;
pub mod action;

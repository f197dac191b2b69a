//! What each action of the command line answers.

pub mod import;
pub mod next;
pub mod wrap;

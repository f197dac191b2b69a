//! Splitting and checking rsync daemon log chunks: the verified core of a
//! tool that cuts an rsync log into transfer chunks and imports their
//! summaries.

pub mod text;
pub mod pattern;
pub mod clock;
pub mod digest;
pub mod import;
pub mod next;
pub mod utils;
pub mod order;
pub mod lines;
pub mod run;
pub mod cli;

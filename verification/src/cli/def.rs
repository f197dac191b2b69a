//! The command line's options and actions, as plain values.

use vstd::prelude::*;

verus! {

/// The options of the command line.
#[derive(Debug, Clone, PartialEq, Eq)]
pub struct Args {
    /// Force color mode (defaults to checking whether the output is a terminal).
    pub color: bool,
    /// Force no-color mode (defaults to checking whether the output is a terminal).
    pub no_color: bool,
    /// Prepend the time to each log line.
    pub log_time: bool,
    /// How verbose the general logging is (how often the flag was given).
    pub verbose: u8,
    /// Component-wise logging settings.
    pub log: Option<Vec<String>>,
    /// The action to run.
    pub action: Option<Actions>,
}

/// The actions of the command line.
#[derive(Debug, Clone, PartialEq, Eq)]
pub enum Actions {
    /// Print the next complete chunk of a log file, from where its cursor stands.
    Next {
        /// The log file name.
        file_name: String,
        /// The cursor's name.
        cursor_name: String,
    },
    /// Read one chunk from standard input and store its summary.
    Import {
        /// The database file name.
        sqlite_db_path: String,
        /// The label stored with the new data.
        label: String,
        /// Where a chunk that does not read is saved.
        failed_chunks_folder: String,
    },
}

/// The cursor name used where none is given.
pub const DEFAULT_CURSOR_NAME: &'static str = "default";

impl Args {
    /// Whether coloring is forced on (`Some(true)`), forced off (`Some(false)`), or left
    /// to whether the output is a terminal (`None`); forcing it on wins.
    pub fn color_override(&self) -> (r: Option<bool>)
        ensures
            r == (if self.color {
                Some(true)
            } else if self.no_color {
                Some(false)
            } else {
                None::<bool>
            }),
    {
        if self.color {
            Some(true)
        } else if self.no_color {
            Some(false)
        } else {
            None
        }
    }
}

} // verus!

//! The answer of the import action.

use vstd::prelude::*;
use crate::import::{no_content, saves_failed_chunk};

verus! {

/// The answer of the import action, given how loading the chunk went: `Ok(true)` once it
/// was stored, `Ok(false)` where there was nothing to read, and any other error as it is.
pub fn run(load_result: Result<(), String>) -> (r: Result<bool, String>)
    ensures
        match load_result {
            Ok(()) => r == Ok::<bool, String>(true),
            Err(e) => if e@ == no_content() {
                r == Ok::<bool, String>(false)
            } else {
                r matches Err(m) && m@ == e@
            },
        },
{
    match load_result {
        Ok(()) => Ok(true),
        Err(e) => if saves_failed_chunk(&e) {
            Err(e)
        } else {
            Ok(false)
        },
    }
}

} // verus!

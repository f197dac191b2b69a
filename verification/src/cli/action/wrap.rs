//! The answer of the wrap action.

use vstd::prelude::*;

verus! {

/// The answer of the wrap action, given how wrapping went: `Ok(true)` on success, the
/// error as it is otherwise.
pub fn run(wrap_result: Result<(), String>) -> (r: Result<bool, String>)
    ensures
        match wrap_result {
            Ok(()) => r == Ok::<bool, String>(true),
            Err(e) => r matches Err(m) && m@ == e@,
        },
{
    match wrap_result {
        Ok(()) => Ok(true),
        Err(e) => Err(e),
    }
}

} // verus!

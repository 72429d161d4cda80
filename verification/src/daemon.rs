//! Small decisions of the daemon loop.

use vstd::prelude::*;

verus! {

/// How a light or camera state is written in the log.
pub fn on_off(on: bool) -> (s: &'static str)
    ensures
        s@ == (if on {
            "ON"@
        } else {
            "OFF"@
        }),
{
    if on {
        "ON"
    } else {
        "OFF"
    }
}

} // verus!

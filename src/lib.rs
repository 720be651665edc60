use vstd::prelude::*;

pub mod count;
pub mod csvio;
pub mod error;
pub mod pattern;
pub mod record;
pub mod report;
pub mod search;
pub mod select;

verus! {

/// Whether Unicode-aware matching is in force: the process-wide override wins over the flag.
pub fn effective_unicode(override_set: bool, flag: bool) -> (r: bool)
    ensures
        r == (override_set || flag),
{
    override_set || flag
}

} // verus!

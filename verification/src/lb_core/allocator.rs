//! Which allocator a binary reports.
//!
//! Each binary links its own allocator and registers its name once, so that the
//! running process can report which one is in force.

use vstd::prelude::*;

verus! {

/// The name that is reported, given the one that was registered.
pub open spec fn reported(registered: Option<&'static str>) -> Seq<char> {
    match registered {
        Some(name) => name@,
        None => "system"@,
    }
}

/// Record the allocator linked into this binary. Subsequent calls are ignored, so
/// the first registration wins.
pub fn register(registered: &mut Option<&'static str>, name: &'static str)
    ensures
        *final(registered) == (match *old(registered) {
            Some(first) => Some(first),
            None => Some(name),
        }),
{
    if registered.is_none() {
        *registered = Some(name);
    }
}

/// Name of the allocator that was registered, or `"system"` if none was.
#[must_use]
pub fn allocator_name(registered: Option<&'static str>) -> (r: &'static str)
    ensures
        r@ == reported(registered),
{
    match registered {
        Some(name) => name,
        None => "system",
    }
}

} // verus!

//! State that a system keeps for itself between runs.

use vstd::prelude::*;

verus! {

/// A system's own value, kept from one run to the next.
pub struct Local<'s, T>(pub &'s mut T);

} // verus!

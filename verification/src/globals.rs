use vstd::prelude::*;

verus! {

/// The largest number of times a single gate input may change during one clock tick. A gate
/// whose inputs change more often than this is considered to be oscillating.
pub const MAX_INPUT_CHANGES: usize = 5000;

} // verus!

use vstd::prelude::*;

verus! {

/// The `exit` builtin.
pub struct Exit;

} // verus!

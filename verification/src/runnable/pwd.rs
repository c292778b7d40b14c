use vstd::prelude::*;

verus! {

/// The `pwd` builtin.
pub struct Pwd;

} // verus!

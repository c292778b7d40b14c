use vstd::prelude::*;
use crate::utils::text::{join, joined, strings_view};

verus! {

/// The `echo` builtin.
pub struct Echo;

impl Echo {
    /// What `echo` prints: its arguments separated by single spaces.
    pub fn content(args: &Vec<String>) -> (r: String)
        ensures
            r@ == joined(strings_view(args@), seq![' ']),
    {
        proof {
            reveal_strlit(" ");
        }
        assert(" "@ == seq![' ']);
        join(args.as_slice(), " ")
    }
}

} // verus!

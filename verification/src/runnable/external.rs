use vstd::prelude::*;

verus! {

/// A program found on the `PATH`: its name and the full path of its file.
pub struct ExternalCommand {
    name: String,
    pub full_path: String,
}

impl ExternalCommand {
    /// The command `name`, run from `full_path`.
    pub fn new(name: String, full_path: String) -> (r: Self)
        ensures
            r.spec_name() == name@,
            r.spec_full_path() == full_path@,
    {
        ExternalCommand { name, full_path }
    }

    /// The command's name.
    pub closed spec fn spec_name(&self) -> Seq<char> {
        self.name@
    }

    /// The full path of the command's file.
    pub closed spec fn spec_full_path(&self) -> Seq<char> {
        self.full_path@
    }

    /// The command's name.
    pub fn name(&self) -> (r: String)
        ensures
            r@ == self.spec_name(),
    {
        self.name.clone()
    }

    /// An external command is not a builtin.
    pub fn is_builtin(&self) -> (r: bool)
        ensures
            !r,
    {
        false
    }

    /// The full path of the command's file.
    pub fn full_path(&self) -> (r: Option<&str>)
        ensures
            r matches Some(p) && p@ == self.spec_full_path(),
    {
        Some(self.full_path.as_str())
    }
}

} // verus!

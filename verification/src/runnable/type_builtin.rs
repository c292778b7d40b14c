use vstd::prelude::*;
use crate::runnable::{Outcome, OutcomeView};

verus! {

/// The `type` builtin.
pub struct Type;

/// What the command table says of a name: a builtin, or an external command with the full
/// path of its program when it has one.
pub enum CommandKind {
    Builtin,
    External(Option<String>),
}

/// What `type` reports for `name`, given what the command table says of it.
pub open spec fn type_report(name: Seq<char>, found: Option<CommandKind>) -> OutcomeView {
    match found {
        None => OutcomeView::Fail(name + ": not found"@, 127),
        Some(CommandKind::Builtin) => OutcomeView::Print(name + " is a shell builtin"@),
        Some(CommandKind::External(Some(path))) => OutcomeView::Print(name + " is "@ + path@),
        Some(CommandKind::External(None)) => OutcomeView::Fail(
            "Error: Command "@ + name + " does not have a full path"@,
            1,
        ),
    }
}

impl Type {
    /// Describes the command `name`: a builtin, the program it runs, or not found (exit
    /// status 127).
    pub fn describe(name: &str, found: Option<CommandKind>) -> (r: Outcome)
        ensures
            r@ == type_report(name@, found),
    {
        let mut t = String::new();
        match found {
            None => {
                t.append(name);
                t.append(": not found");
                Outcome::Fail(t, 127)
            },
            Some(CommandKind::Builtin) => {
                t.append(name);
                t.append(" is a shell builtin");
                Outcome::Print(t)
            },
            Some(CommandKind::External(Some(path))) => {
                t.append(name);
                t.append(" is ");
                t.append(path.as_str());
                Outcome::Print(t)
            },
            Some(CommandKind::External(None)) => {
                t.append("Error: Command ");
                t.append(name);
                t.append(" does not have a full path");
                Outcome::Fail(t, 1)
            },
        }
    }
}

} // verus!

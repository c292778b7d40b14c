use vstd::prelude::*;
use crate::utils::text::chars_of;

pub mod cd;
pub mod complete;
pub mod declare;
pub mod echo;
pub mod exit;
pub mod external;
pub mod history;
pub mod jobs;
pub mod pwd;
pub mod type_builtin;

verus! {

/// How a builtin ends: text to print on its output, an error message for standard error with
/// the exit status, or nothing to show.
pub enum Outcome {
    Print(String),
    Fail(String, i32),
    Done,
}

/// Model of an outcome.
pub enum OutcomeView {
    Print(Seq<char>),
    Fail(Seq<char>, i32),
    Done,
}

impl View for Outcome {
    type V = OutcomeView;

    open spec fn view(&self) -> OutcomeView {
        match self {
            Outcome::Print(t) => OutcomeView::Print(t@),
            Outcome::Fail(m, c) => OutcomeView::Fail(m@, *c),
            Outcome::Done => OutcomeView::Done,
        }
    }
}

/// The argument is an option: it starts with `-`.
pub open spec fn starts_with_dash(s: Seq<char>) -> bool {
    s.len() > 0 && s[0] == '-'
}

/// Index of the first argument from `i` on that is an option, or the number of arguments
/// when there is none.
pub open spec fn first_option(args: Seq<Seq<char>>, i: int) -> int
    decreases args.len() - i,
{
    if i >= args.len() {
        args.len() as int
    } else if starts_with_dash(args[i]) {
        i
    } else {
        first_option(args, i + 1)
    }
}

/// The error for a command that is neither a builtin nor a program on the `PATH` (exit
/// status 127).
pub fn command_not_found(command: &str) -> (r: Outcome)
    ensures
        r@ == OutcomeView::Fail(command@ + ": command not found"@, 127),
{
    let mut m = String::new();
    m.append(command);
    m.append(": command not found");
    Outcome::Fail(m, 127)
}

/// What to do with the next command of a parsed line.
pub enum PipelineStep {
    /// Start it in the background (the whole line was marked with `&`).
    RunBackground,
    /// Run it: it is a builtin or a program on the `PATH`.
    Run,
    /// Stop the line here with this outcome: the command is unknown.
    Stop(Outcome),
}

/// Decides what happens to the next command of a line: all commands of a background line are
/// started in the background; a known command runs; an unknown one ends the line with the
/// error `NAME: command not found` and exit status 127.
pub fn pipeline_step(background: bool, known: bool, command: &str) -> (s: PipelineStep)
    ensures
        background ==> s is RunBackground,
        !background && known ==> s is Run,
        !background && !known ==> (s matches PipelineStep::Stop(o) && o@ == OutcomeView::Fail(
            command@ + ": command not found"@,
            127,
        )),
{
    if background {
        PipelineStep::RunBackground
    } else if known {
        PipelineStep::Run
    } else {
        PipelineStep::Stop(command_not_found(command))
    }
}

/// Whether `s` starts with `-`.
pub fn is_option(s: &str) -> (r: bool)
    ensures
        r == starts_with_dash(s@),
{
    let v = chars_of(s);
    v.len() > 0 && v[0] == '-'
}

/// Whether `s` is exactly `-` followed by `c`.
pub fn flag_is(s: &str, c: char) -> (r: bool)
    ensures
        r == (s@ == seq!['-', c]),
{
    let v = chars_of(s);
    let r = v.len() == 2 && v[0] == '-' && v[1] == c;
    assert(r ==> v@ =~= seq!['-', c]);
    r
}

} // verus!

use vstd::prelude::*;

verus! {

/// Where a command reads its standard input from.
#[derive(Debug)]
pub enum Input {
    Stdin,
    Pipe,
    File(String),
}

/// Where a command writes one of its output streams.
#[derive(Debug)]
pub enum Output {
    Pipe,
    Stdout,
    Stderr,
    File(String),
    AppendFile(String),
}

/// Model of an input source.
pub enum InputSpec {
    Stdin,
    Pipe,
    File(Seq<char>),
}

/// Model of an output target.
pub enum OutputSpec {
    Pipe,
    Stdout,
    Stderr,
    File(Seq<char>),
    AppendFile(Seq<char>),
}

impl View for Input {
    type V = InputSpec;

    open spec fn view(&self) -> InputSpec {
        match self {
            Input::Stdin => InputSpec::Stdin,
            Input::Pipe => InputSpec::Pipe,
            Input::File(f) => InputSpec::File(f@),
        }
    }
}

impl View for Output {
    type V = OutputSpec;

    open spec fn view(&self) -> OutputSpec {
        match self {
            Output::Pipe => OutputSpec::Pipe,
            Output::Stdout => OutputSpec::Stdout,
            Output::Stderr => OutputSpec::Stderr,
            Output::File(f) => OutputSpec::File(f@),
            Output::AppendFile(f) => OutputSpec::AppendFile(f@),
        }
    }
}

impl Clone for Input {
    fn clone(&self) -> (r: Self)
        ensures
            r@ == self@,
    {
        match self {
            Input::Stdin => Input::Stdin,
            Input::Pipe => Input::Pipe,
            Input::File(f) => Input::File(f.clone()),
        }
    }
}

impl Clone for Output {
    fn clone(&self) -> (r: Self)
        ensures
            r@ == self@,
    {
        match self {
            Output::Pipe => Output::Pipe,
            Output::Stdout => Output::Stdout,
            Output::Stderr => Output::Stderr,
            Output::File(f) => Output::File(f.clone()),
            Output::AppendFile(f) => Output::AppendFile(f.clone()),
        }
    }
}

} // verus!

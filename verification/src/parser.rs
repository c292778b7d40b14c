use vstd::prelude::*;
use crate::runnable::declare::ShellVariable;
use crate::tokenizer::{PartSpec, RedirectOp, Token, TokenSpec, Word, WordPart};
use crate::utils::io::{Input, InputSpec, Output, OutputSpec};
use crate::utils::text::{decimal, decimal_string, push_char, strings_view};

verus! {

/// One command of a pipeline, with its arguments and streams.
#[derive(Debug)]
pub struct ParsedCommand {
    pub command: String,
    pub args: Vec<String>,
    pub stdin: Input,
    pub stdout: Output,
    pub stderr: Output,
}

/// A parsed command line: the pipeline, whether it runs in the background, and the command
/// and arguments that were being typed last (used for completion).
#[derive(Debug)]
pub struct ParsedShell {
    pub commands: Vec<ParsedCommand>,
    pub command_buffer: String,
    pub args_buffer: Vec<String>,
    pub background: bool,
}

/// How to parse: `strict` for a submitted line (errors are reported and variables are
/// expanded), non-strict while the line is being edited.
pub struct ParseCtx<'a> {
    pub strict: bool,
    pub shell_vars: &'a ShellVariable,
}

/// Model of a parsed command.
pub struct CmdSpec {
    pub command: Seq<char>,
    pub args: Seq<Seq<char>>,
    pub stdin: InputSpec,
    pub stdout: OutputSpec,
    pub stderr: OutputSpec,
}

/// Model of a parsed command line.
pub struct ShellSpec {
    pub commands: Seq<CmdSpec>,
    pub command_buffer: Seq<char>,
    pub args_buffer: Seq<Seq<char>>,
    pub background: bool,
}

impl View for ParsedCommand {
    type V = CmdSpec;

    open spec fn view(&self) -> CmdSpec {
        CmdSpec {
            command: self.command@,
            args: strings_view(self.args@),
            stdin: self.stdin@,
            stdout: self.stdout@,
            stderr: self.stderr@,
        }
    }
}

impl View for ParsedShell {
    type V = ShellSpec;

    open spec fn view(&self) -> ShellSpec {
        ShellSpec {
            commands: self.commands@.map_values(|c: ParsedCommand| c@),
            command_buffer: self.command_buffer@,
            args_buffer: strings_view(self.args_buffer@),
            background: self.background,
        }
    }
}

/// The text a word part stands for.
pub open spec fn expand_part(p: PartSpec, strict: bool, vars: Map<Seq<char>, Seq<char>>) -> Seq<
    char,
> {
    match p {
        PartSpec::Lit(l) => l,
        PartSpec::Var(v) => if strict {
            if vars.contains_key(v) {
                vars[v]
            } else {
                Seq::empty()
            }
        } else {
            seq!['$'] + v
        },
    }
}

/// The text a word stands for: its parts expanded and joined.
pub open spec fn expand_word(parts: Seq<PartSpec>, strict: bool, vars: Map<Seq<char>, Seq<char>>) -> Seq<
    char,
>
    decreases parts.len(),
{
    if parts.len() == 0 {
        Seq::empty()
    } else {
        expand_word(parts.drop_last(), strict, vars) + expand_part(parts.last(), strict, vars)
    }
}

/// The value of a word; in strict mode a word that expands to nothing is an error.
pub open spec fn word_value(parts: Seq<PartSpec>, strict: bool, vars: Map<Seq<char>, Seq<char>>) -> Result<
    Seq<char>,
    Seq<char>,
> {
    let r = expand_word(parts, strict, vars);
    if r.len() == 0 && strict {
        Err("empty word"@)
    } else {
        Ok(r)
    }
}

/// How a redirection operator is written: its descriptor digits, then `<`, `>` or `>>`.
pub open spec fn redirect_text(fd: Option<u8>, op: RedirectOp) -> Seq<char> {
    (match fd {
        Some(f) => decimal(f as nat),
        None => Seq::empty(),
    }) + match op {
        RedirectOp::Read => "<"@,
        RedirectOp::Write => ">"@,
        RedirectOp::Append => ">>"@,
    }
}

/// The file named after the redirection at `i`.
pub open spec fn expect_file_spec(
    toks: Seq<TokenSpec>,
    i: int,
    op: Seq<char>,
    strict: bool,
    vars: Map<Seq<char>, Seq<char>>,
) -> Result<Seq<char>, Seq<char>> {
    if i + 1 < toks.len() && toks[i + 1] is Word {
        word_value(toks[i + 1]->Word_0, strict, vars)
    } else if strict {
        Err("expected file after '"@ + op + "'"@)
    } else {
        Ok("unknown_redirect_"@ + decimal(i as nat))
    }
}

/// The error for a file descriptor that cannot be redirected.
pub open spec fn unsupported_fd(n: u8) -> Seq<char> {
    "unsupported file descriptor: "@ + decimal(n as nat)
}

/// The state of the parser between two tokens.
pub struct ParseState {
    pub i: int,
    pub command: Option<Seq<char>>,
    pub args: Seq<Seq<char>>,
    pub stdin: InputSpec,
    pub stdout: OutputSpec,
    pub stderr: OutputSpec,
    pub background: bool,
    pub commands: Seq<CmdSpec>,
}

/// The state the parser starts in.
pub open spec fn initial_state() -> ParseState {
    ParseState {
        i: 0,
        command: None,
        args: Seq::empty(),
        stdin: InputSpec::Stdin,
        stdout: OutputSpec::Stdout,
        stderr: OutputSpec::Stderr,
        background: false,
        commands: Seq::empty(),
    }
}

/// The result of parsing the tokens from state `st` on.
pub open spec fn parse_from(
    toks: Seq<TokenSpec>,
    strict: bool,
    vars: Map<Seq<char>, Seq<char>>,
    st: ParseState,
) -> Result<ShellSpec, Seq<char>>
    decreases toks.len() + 2 - st.i,
{
    if !(0 <= st.i < toks.len()) {
        let buffer = match st.command {
            Some(c) => c,
            None => Seq::empty(),
        };
        match st.command {
            Some(c) => Ok(
                ShellSpec {
                    commands: st.commands.push(
                        CmdSpec {
                            command: c,
                            args: st.args,
                            stdin: st.stdin,
                            stdout: st.stdout,
                            stderr: st.stderr,
                        },
                    ),
                    command_buffer: buffer,
                    args_buffer: st.args,
                    background: st.background,
                },
            ),
            None => if strict {
                Err("empty command"@)
            } else {
                Ok(
                    ShellSpec {
                        commands: st.commands,
                        command_buffer: buffer,
                        args_buffer: st.args,
                        background: st.background,
                    },
                )
            },
        }
    } else {
        match toks[st.i] {
            TokenSpec::Word(parts) => {
                let st2 = match word_value(parts, strict, vars) {
                    Ok(p) => if st.command is None {
                        ParseState { command: Some(p), ..st }
                    } else {
                        ParseState { args: st.args.push(p), ..st }
                    },
                    Err(_) => st,
                };
                parse_from(toks, strict, vars, ParseState { i: st.i + 1, ..st2 })
            },
            TokenSpec::Pipe => {
                if st.command is None && strict {
                    Err("empty command"@)
                } else {
                    let stdout = if st.stdout is Stdout {
                        OutputSpec::Pipe
                    } else {
                        st.stdout
                    };
                    let command = match st.command {
                        Some(c) => c,
                        None => Seq::empty(),
                    };
                    let cmd = CmdSpec {
                        command,
                        args: st.args,
                        stdin: st.stdin,
                        stdout,
                        stderr: st.stderr,
                    };
                    parse_from(
                        toks,
                        strict,
                        vars,
                        ParseState {
                            i: st.i + 1,
                            command: None,
                            args: Seq::empty(),
                            stdin: InputSpec::Pipe,
                            stdout: OutputSpec::Stdout,
                            stderr: OutputSpec::Stderr,
                            background: st.background,
                            commands: st.commands.push(cmd),
                        },
                    )
                }
            },
            TokenSpec::Background => parse_from(
                toks,
                strict,
                vars,
                ParseState { i: st.i + 1, background: true, ..st },
            ),
            TokenSpec::Redirect(fd, op) => {
                match expect_file_spec(toks, st.i, redirect_text(fd, op), strict, vars) {
                    Err(e) => Err(e),
                    Ok(file) => {
                        let n: u8 = match fd {
                            Some(f) => f,
                            None => if op is Read {
                                0
                            } else {
                                1
                            },
                        };
                        let next = ParseState { i: st.i + 2, ..st };
                        match op {
                            RedirectOp::Read => if n == 0 {
                                parse_from(
                                    toks,
                                    strict,
                                    vars,
                                    ParseState { stdin: InputSpec::File(file), ..next },
                                )
                            } else if strict {
                                Err(unsupported_fd(n))
                            } else {
                                parse_from(toks, strict, vars, next)
                            },
                            RedirectOp::Write => if n == 1 {
                                parse_from(
                                    toks,
                                    strict,
                                    vars,
                                    ParseState { stdout: OutputSpec::File(file), ..next },
                                )
                            } else if n == 2 {
                                parse_from(
                                    toks,
                                    strict,
                                    vars,
                                    ParseState { stderr: OutputSpec::File(file), ..next },
                                )
                            } else if strict {
                                Err(unsupported_fd(n))
                            } else {
                                parse_from(toks, strict, vars, next)
                            },
                            RedirectOp::Append => if n == 1 {
                                parse_from(
                                    toks,
                                    strict,
                                    vars,
                                    ParseState { stdout: OutputSpec::AppendFile(file), ..next },
                                )
                            } else if n == 2 {
                                parse_from(
                                    toks,
                                    strict,
                                    vars,
                                    ParseState { stderr: OutputSpec::AppendFile(file), ..next },
                                )
                            } else if strict {
                                Err(unsupported_fd(n))
                            } else {
                                parse_from(toks, strict, vars, next)
                            },
                        }
                    },
                }
            },
        }
    }
}

/// The result of parsing a token list.
pub open spec fn parse_spec(toks: Seq<TokenSpec>, strict: bool, vars: Map<Seq<char>, Seq<char>>) -> Result<
    ShellSpec,
    Seq<char>,
> {
    parse_from(toks, strict, vars, initial_state())
}

/// The views of a list of tokens.
pub open spec fn tokens_view(v: Seq<&Token>) -> Seq<TokenSpec> {
    v.map_values(|t: &Token| t@)
}

/// The value of `word`: its parts expanded and joined.
fn parse_word(word: &Word, ctx: &ParseCtx) -> (r: Result<String, String>)
    ensures
        match r {
            Ok(s) => word_value(word@, ctx.strict, ctx.shell_vars@) == Ok::<Seq<char>, Seq<char>>(s@),
            Err(e) => word_value(word@, ctx.strict, ctx.shell_vars@) == Err::<Seq<char>, Seq<char>>(e@),
        },
{
    let mut result = String::new();
    let mut k: usize = 0;
    while k < word.parts.len()
        invariant
            k <= word.parts.len(),
            result@ == expand_word(word@.take(k as int), ctx.strict, ctx.shell_vars@),
        decreases word.parts.len() - k,
    {
        assert(word@.take(k + 1).drop_last() =~= word@.take(k as int));
        assert(word@.take(k + 1).last() == word.parts@[k as int]@);
        match &word.parts[k] {
            WordPart::Literal(lit) => {
                result.append(lit.as_str());
            },
            WordPart::Variable(var) => {
                if ctx.strict {
                    match ctx.shell_vars.get(var.as_str()) {
                        Some(value) => {
                            result.append(value.as_str());
                        },
                        None => {
                            // an unset variable expands to nothing
                            assert(result@ =~= expand_word(
                                word@.take(k + 1),
                                ctx.strict,
                                ctx.shell_vars@,
                            ));
                        },
                    }
                } else {
                    let ghost before = result@;
                    push_char(&mut result, '$');
                    result.append(var.as_str());
                    assert(result@ =~= before + (seq!['$'] + var@));
                }
            },
        }
        k = k + 1;
    }
    assert(word@.take(word.parts.len() as int) =~= word@);
    if result.as_str().is_empty() && ctx.strict {
        return Err("empty word".to_owned());
    }
    Ok(result)
}

/// The model of an optional string.
pub open spec fn opt_view(o: Option<String>) -> Option<Seq<char>> {
    match o {
        Some(s) => Some(s@),
        None => None,
    }
}

/// The model of a parse result.
pub open spec fn result_view(r: Result<ParsedShell, String>) -> Result<ShellSpec, Seq<char>> {
    match r {
        Ok(p) => Ok(p@),
        Err(e) => Err(e@),
    }
}

/// The file named by the word after the redirection at `redirect_pos`.
fn expect_file(tokens: &[&Token], redirect_pos: usize, op: &str, ctx: &ParseCtx) -> (r: Result<
    String,
    String,
>)
    requires
        redirect_pos < tokens@.len(),
    ensures
        match r {
            Ok(f) => expect_file_spec(
                tokens_view(tokens@),
                redirect_pos as int,
                op@,
                ctx.strict,
                ctx.shell_vars@,
            ) == Ok::<Seq<char>, Seq<char>>(f@),
            Err(e) => expect_file_spec(
                tokens_view(tokens@),
                redirect_pos as int,
                op@,
                ctx.strict,
                ctx.shell_vars@,
            ) == Err::<Seq<char>, Seq<char>>(e@),
        },
{
    if redirect_pos < tokens.len() - 1 {
        if let Token::Str(wfile) = &tokens[redirect_pos + 1] {
            return parse_word(wfile, ctx);
        }
    }
    if ctx.strict {
        let mut msg = "expected file after '".to_owned();
        msg.append(op);
        msg.append("'");
        Err(msg)
    } else {
        let mut name = "unknown_redirect_".to_owned();
        let n = decimal_string(redirect_pos);
        name.append(n.as_str());
        Ok(name)
    }
}

/// The error for a descriptor that cannot be redirected.
fn unsupported_fd_error(n: u8) -> (e: String)
    ensures
        e@ == unsupported_fd(n),
{
    let mut msg = "unsupported file descriptor: ".to_owned();
    let d = decimal_string(n as usize);
    msg.append(d.as_str());
    msg
}

/// Parses a token list into a pipeline of commands with their redirections.
///
/// In strict mode, a pipe or the end of input without a command, a redirection without a
/// file, a word that expands to nothing after a redirection, and a redirection of an
/// unsupported descriptor are errors; words that expand to nothing elsewhere are dropped.
/// In non-strict mode parsing never fails.
pub fn parse(tokens: Vec<&Token>, ctx: ParseCtx) -> (r: Result<ParsedShell, String>)
    ensures
        result_view(r) == parse_spec(tokens_view(tokens@), ctx.strict, ctx.shell_vars@),
        !ctx.strict ==> r is Ok,
{
    let ghost toks = tokens_view(tokens@);
    let ghost strict = ctx.strict;
    let ghost vars = ctx.shell_vars@;
    let mut command: Option<String> = None;
    let mut args: Vec<String> = Vec::new();
    let mut stdin = Input::Stdin;
    let mut stdout = Output::Stdout;
    let mut stderr = Output::Stderr;
    let mut background = false;
    let mut i: usize = 0;
    let mut commands: Vec<ParsedCommand> = Vec::new();
    proof {
        lemma_parse_never_fails_lax(toks, vars, initial_state());
        assert(strings_view(args@) =~= Seq::<Seq<char>>::empty());
        assert(commands@.map_values(|c: ParsedCommand| c@) =~= Seq::<CmdSpec>::empty());
    }
    while i < tokens.len()
        invariant
            toks == tokens_view(tokens@),
            strict == ctx.strict,
            vars == ctx.shell_vars@,
            parse_spec(toks, strict, vars) == parse_from(
                toks,
                strict,
                vars,
                ParseState {
                    i: i as int,
                    command: opt_view(command),
                    args: strings_view(args@),
                    stdin: stdin@,
                    stdout: stdout@,
                    stderr: stderr@,
                    background,
                    commands: commands@.map_values(|c: ParsedCommand| c@),
                },
            ),
        decreases tokens.len() + 2 - i,
    {
        let ghost st = ParseState {
            i: i as int,
            command: opt_view(command),
            args: strings_view(args@),
            stdin: stdin@,
            stdout: stdout@,
            stderr: stderr@,
            background,
            commands: commands@.map_values(|c: ParsedCommand| c@),
        };
        assert(toks[i as int] == tokens@[i as int]@);
        match &tokens[i] {
            Token::Str(s) => {
                let parsed = parse_word(s, &ctx);
                match parsed {
                    Ok(p) => {
                        if command.is_none() {
                            command = Some(p);
                        } else {
                            let ghost before = args@;
                            args.push(p);
                            assert(strings_view(args@) =~= strings_view(before).push(p@));
                        }
                    },
                    Err(_) => {},
                }
                i = i + 1;
            },
            Token::Pipe => {
                if let Output::Stdout = stdout {
                    stdout = Output::Pipe;
                }
                let final_command = match command.take() {
                    Some(c) => c,
                    None => {
                        if ctx.strict {
                            return Err("empty command".to_owned());
                        }
                        String::new()
                    },
                };
                let cloned_args = clone_strings(&args);
                let parsed = ParsedCommand {
                    command: final_command,
                    args: cloned_args,
                    stdin: stdin.clone(),
                    stdout: stdout.clone(),
                    stderr: stderr.clone(),
                };
                let ghost before = commands@;
                commands.push(parsed);
                assert(commands@.map_values(|c: ParsedCommand| c@) =~= before.map_values(
                    |c: ParsedCommand| c@,
                ).push(parsed@));
                args.clear();
                assert(strings_view(args@) =~= Seq::<Seq<char>>::empty());
                stdout = Output::Stdout;
                stderr = Output::Stderr;
                stdin = Input::Pipe;
                command = None;
                i = i + 1;
            },
            Token::Background => {
                background = true;
                i = i + 1;
            },
            Token::Redirect { fd, op } => {
                let fd = *fd;
                let op = *op;
                let mut op_str = match fd {
                    Some(f) => decimal_string(f as usize),
                    None => String::new(),
                };
                match op {
                    RedirectOp::Read => op_str.append("<"),
                    RedirectOp::Write => op_str.append(">"),
                    RedirectOp::Append => op_str.append(">>"),
                }
                assert(op_str@ =~= redirect_text(fd, op));
                let file = match expect_file(tokens.as_slice(), i, op_str.as_str(), &ctx) {
                    Ok(f) => f,
                    Err(e) => {
                        return Err(e);
                    },
                };
                match op {
                    RedirectOp::Read => {
                        let n = match fd {
                            Some(f) => f,
                            None => 0,
                        };
                        if n == 0 {
                            stdin = Input::File(file);
                        } else if ctx.strict {
                            return Err(unsupported_fd_error(n));
                        }
                    },
                    RedirectOp::Write => {
                        let n = match fd {
                            Some(f) => f,
                            None => 1,
                        };
                        if n == 1 {
                            stdout = Output::File(file);
                        } else if n == 2 {
                            stderr = Output::File(file);
                        } else if ctx.strict {
                            return Err(unsupported_fd_error(n));
                        }
                    },
                    RedirectOp::Append => {
                        let n = match fd {
                            Some(f) => f,
                            None => 1,
                        };
                        if n == 1 {
                            stdout = Output::AppendFile(file);
                        } else if n == 2 {
                            stderr = Output::AppendFile(file);
                        } else if ctx.strict {
                            return Err(unsupported_fd_error(n));
                        }
                    },
                }
                if tokens.len() - i >= 2 {
                    i = i + 2;
                } else {
                    // the redirection was the last token: parsing is over either way
                    let ghost st2 = ParseState {
                        i: i as int,
                        command: opt_view(command),
                        args: strings_view(args@),
                        stdin: stdin@,
                        stdout: stdout@,
                        stderr: stderr@,
                        background,
                        commands: commands@.map_values(|c: ParsedCommand| c@),
                    };
                    assert(parse_from(toks, strict, vars, ParseState { i: i + 2, ..st2 })
                        == parse_from(toks, strict, vars, ParseState { i: tokens.len() as int, ..st2 }));
                    i = tokens.len();
                }
            },
        }
    }
    let command_buffer = match &command {
        Some(c) => c.clone(),
        None => String::new(),
    };
    let args_buffer = clone_strings(&args);
    match command {
        Some(final_command) => {
            let ghost before = commands@;
            let cmd = ParsedCommand { command: final_command, args, stdin, stdout, stderr };
            commands.push(cmd);
            assert(commands@.map_values(|c: ParsedCommand| c@) =~= before.map_values(
                |c: ParsedCommand| c@,
            ).push(cmd@));
        },
        None => {
            if ctx.strict {
                return Err("empty command".to_owned());
            }
        },
    }
    Ok(ParsedShell { commands, background, command_buffer, args_buffer })
}

/// A copy of a list of strings.
pub fn clone_strings(v: &Vec<String>) -> (r: Vec<String>)
    ensures
        r@ == v@,
{
    let mut r: Vec<String> = Vec::new();
    let mut k: usize = 0;
    while k < v.len()
        invariant
            k <= v.len(),
            r@ == v@.take(k as int),
        decreases v.len() - k,
    {
        r.push(v[k].clone());
        assert(r@ =~= v@.take(k + 1));
        k = k + 1;
    }
    assert(v@.take(v.len() as int) =~= v@);
    r
}

/// Parsing in non-strict mode never fails.
pub proof fn lemma_parse_never_fails_lax(
    toks: Seq<TokenSpec>,
    vars: Map<Seq<char>, Seq<char>>,
    st: ParseState,
)
    ensures
        parse_from(toks, false, vars, st) is Ok,
    decreases toks.len() + 2 - st.i,
{
    if 0 <= st.i < toks.len() {
        match toks[st.i] {
            TokenSpec::Word(parts) => {
                let st2 = match word_value(parts, false, vars) {
                    Ok(p) => if st.command is None {
                        ParseState { command: Some(p), ..st }
                    } else {
                        ParseState { args: st.args.push(p), ..st }
                    },
                    Err(_) => st,
                };
                lemma_parse_never_fails_lax(toks, vars, ParseState { i: st.i + 1, ..st2 });
            },
            TokenSpec::Pipe => {
                let stdout = if st.stdout is Stdout {
                    OutputSpec::Pipe
                } else {
                    st.stdout
                };
                let command = match st.command {
                    Some(c) => c,
                    None => Seq::empty(),
                };
                let cmd = CmdSpec {
                    command,
                    args: st.args,
                    stdin: st.stdin,
                    stdout,
                    stderr: st.stderr,
                };
                lemma_parse_never_fails_lax(
                    toks,
                    vars,
                    ParseState {
                        i: st.i + 1,
                        command: None,
                        args: Seq::empty(),
                        stdin: InputSpec::Pipe,
                        stdout: OutputSpec::Stdout,
                        stderr: OutputSpec::Stderr,
                        background: st.background,
                        commands: st.commands.push(cmd),
                    },
                );
            },
            TokenSpec::Background => {
                lemma_parse_never_fails_lax(toks, vars, ParseState { i: st.i + 1, background: true, ..st });
            },
            TokenSpec::Redirect(fd, op) => {
                let file = expect_file_spec(toks, st.i, redirect_text(fd, op), false, vars)->Ok_0;
                let next = ParseState { i: st.i + 2, ..st };
                lemma_parse_never_fails_lax(toks, vars, next);
                lemma_parse_never_fails_lax(toks, vars, ParseState { stdin: InputSpec::File(file), ..next });
                lemma_parse_never_fails_lax(toks, vars, ParseState { stdout: OutputSpec::File(file), ..next });
                lemma_parse_never_fails_lax(toks, vars, ParseState { stderr: OutputSpec::File(file), ..next });
                lemma_parse_never_fails_lax(toks, vars, ParseState { stdout: OutputSpec::AppendFile(file), ..next });
                lemma_parse_never_fails_lax(toks, vars, ParseState { stderr: OutputSpec::AppendFile(file), ..next });
            },
        }
    }
}

} // verus!

verus! {

/// Parsing on from a state only adds commands after those already finished.
proof fn lemma_parse_keeps_commands(
    toks: Seq<TokenSpec>,
    strict: bool,
    vars: Map<Seq<char>, Seq<char>>,
    st: ParseState,
)
    ensures
        parse_from(toks, strict, vars, st) matches Ok(sh) ==> sh.commands.len()
            >= st.commands.len() && forall|k: int|
            0 <= k < st.commands.len() ==> #[trigger] sh.commands[k] == st.commands[k],
    decreases toks.len() + 2 - st.i,
{
    if 0 <= st.i < toks.len() {
        match toks[st.i] {
            TokenSpec::Word(parts) => {
                let st2 = match word_value(parts, strict, vars) {
                    Ok(p) => if st.command is None {
                        ParseState { command: Some(p), ..st }
                    } else {
                        ParseState { args: st.args.push(p), ..st }
                    },
                    Err(_) => st,
                };
                lemma_parse_keeps_commands(toks, strict, vars, ParseState { i: st.i + 1, ..st2 });
            },
            TokenSpec::Pipe => {
                let stdout = if st.stdout is Stdout {
                    OutputSpec::Pipe
                } else {
                    st.stdout
                };
                let command = match st.command {
                    Some(c) => c,
                    None => Seq::empty(),
                };
                let cmd = CmdSpec {
                    command,
                    args: st.args,
                    stdin: st.stdin,
                    stdout,
                    stderr: st.stderr,
                };
                let nst = ParseState {
                    i: st.i + 1,
                    command: None,
                    args: Seq::empty(),
                    stdin: InputSpec::Pipe,
                    stdout: OutputSpec::Stdout,
                    stderr: OutputSpec::Stderr,
                    background: st.background,
                    commands: st.commands.push(cmd),
                };
                lemma_parse_keeps_commands(toks, strict, vars, nst);
                if parse_from(toks, strict, vars, st) is Ok {
                    assert(parse_from(toks, strict, vars, st) == parse_from(toks, strict, vars, nst));
                    assert forall|k: int| 0 <= k < st.commands.len() implies nst.commands[k]
                        == st.commands[k] by {}
                }
            },
            TokenSpec::Background => {
                lemma_parse_keeps_commands(
                    toks,
                    strict,
                    vars,
                    ParseState { i: st.i + 1, background: true, ..st },
                );
            },
            TokenSpec::Redirect(fd, op) => {
                match expect_file_spec(toks, st.i, redirect_text(fd, op), strict, vars) {
                    Err(_) => {},
                    Ok(file) => {
                        let next = ParseState { i: st.i + 2, ..st };
                        lemma_parse_keeps_commands(toks, strict, vars, next);
                        lemma_parse_keeps_commands(
                            toks,
                            strict,
                            vars,
                            ParseState { stdin: InputSpec::File(file), ..next },
                        );
                        lemma_parse_keeps_commands(
                            toks,
                            strict,
                            vars,
                            ParseState { stdout: OutputSpec::File(file), ..next },
                        );
                        lemma_parse_keeps_commands(
                            toks,
                            strict,
                            vars,
                            ParseState { stderr: OutputSpec::File(file), ..next },
                        );
                        lemma_parse_keeps_commands(
                            toks,
                            strict,
                            vars,
                            ParseState { stdout: OutputSpec::AppendFile(file), ..next },
                        );
                        lemma_parse_keeps_commands(
                            toks,
                            strict,
                            vars,
                            ParseState { stderr: OutputSpec::AppendFile(file), ..next },
                        );
                    },
                }
            },
        }
    }
}

/// Where the command at position `k` of a pipeline may read from: the first reads the
/// terminal or a file given with `<`; every later one reads the pipe from the command before
/// it, or a file given with `<`.
pub open spec fn stdin_fits(k: int, input: InputSpec) -> bool {
    if k == 0 {
        input is Stdin || input is File
    } else {
        input is Pipe || input is File
    }
}

/// Every finished command, and the one being read, has a fitting standard input.
spec fn stdin_inv(st: ParseState) -> bool {
    &&& forall|k: int| 0 <= k < st.commands.len() ==> stdin_fits(k, #[trigger] st.commands[k].stdin)
    &&& stdin_fits(st.commands.len() as int, st.stdin)
}

proof fn lemma_stdin_inv(
    toks: Seq<TokenSpec>,
    strict: bool,
    vars: Map<Seq<char>, Seq<char>>,
    st: ParseState,
)
    requires
        stdin_inv(st),
    ensures
        parse_from(toks, strict, vars, st) matches Ok(sh) ==> forall|k: int|
            0 <= k < sh.commands.len() ==> stdin_fits(k, #[trigger] sh.commands[k].stdin),
    decreases toks.len() + 2 - st.i,
{
    if !(0 <= st.i < toks.len()) {
        if parse_from(toks, strict, vars, st) is Ok {
            let sh = parse_from(toks, strict, vars, st)->Ok_0;
            assert forall|k: int| 0 <= k < sh.commands.len() implies stdin_fits(
                k,
                #[trigger] sh.commands[k].stdin,
            ) by {
                if k < st.commands.len() {
                    assert(sh.commands[k] == st.commands[k]);
                }
            }
        }
    } else {
        match toks[st.i] {
            TokenSpec::Word(parts) => {
                let st2 = match word_value(parts, strict, vars) {
                    Ok(p) => if st.command is None {
                        ParseState { command: Some(p), ..st }
                    } else {
                        ParseState { args: st.args.push(p), ..st }
                    },
                    Err(_) => st,
                };
                lemma_stdin_inv(toks, strict, vars, ParseState { i: st.i + 1, ..st2 });
            },
            TokenSpec::Pipe => {
                let stdout = if st.stdout is Stdout {
                    OutputSpec::Pipe
                } else {
                    st.stdout
                };
                let command = match st.command {
                    Some(c) => c,
                    None => Seq::empty(),
                };
                let cmd = CmdSpec {
                    command,
                    args: st.args,
                    stdin: st.stdin,
                    stdout,
                    stderr: st.stderr,
                };
                let nst = ParseState {
                    i: st.i + 1,
                    command: None,
                    args: Seq::empty(),
                    stdin: InputSpec::Pipe,
                    stdout: OutputSpec::Stdout,
                    stderr: OutputSpec::Stderr,
                    background: st.background,
                    commands: st.commands.push(cmd),
                };
                assert forall|k: int| 0 <= k < nst.commands.len() implies stdin_fits(
                    k,
                    #[trigger] nst.commands[k].stdin,
                ) by {
                    if k < st.commands.len() {
                        assert(nst.commands[k] == st.commands[k]);
                    }
                }
                lemma_stdin_inv(toks, strict, vars, nst);
            },
            TokenSpec::Background => {
                lemma_stdin_inv(
                    toks,
                    strict,
                    vars,
                    ParseState { i: st.i + 1, background: true, ..st },
                );
            },
            TokenSpec::Redirect(fd, op) => {
                match expect_file_spec(toks, st.i, redirect_text(fd, op), strict, vars) {
                    Err(_) => {},
                    Ok(file) => {
                        let next = ParseState { i: st.i + 2, ..st };
                        lemma_stdin_inv(toks, strict, vars, next);
                        lemma_stdin_inv(
                            toks,
                            strict,
                            vars,
                            ParseState { stdin: InputSpec::File(file), ..next },
                        );
                        lemma_stdin_inv(
                            toks,
                            strict,
                            vars,
                            ParseState { stdout: OutputSpec::File(file), ..next },
                        );
                        lemma_stdin_inv(
                            toks,
                            strict,
                            vars,
                            ParseState { stderr: OutputSpec::File(file), ..next },
                        );
                        lemma_stdin_inv(
                            toks,
                            strict,
                            vars,
                            ParseState { stdout: OutputSpec::AppendFile(file), ..next },
                        );
                        lemma_stdin_inv(
                            toks,
                            strict,
                            vars,
                            ParseState { stderr: OutputSpec::AppendFile(file), ..next },
                        );
                    },
                }
            },
        }
    }
}

/// In every parsed pipeline the first command reads the terminal or a file given with `<`,
/// and every later command reads the output of the command before it through the pipe, or a
/// file given with `<`: no command after a `|` is left reading the terminal.
pub proof fn lemma_pipeline_inputs(
    toks: Seq<TokenSpec>,
    strict: bool,
    vars: Map<Seq<char>, Seq<char>>,
)
    ensures
        parse_spec(toks, strict, vars) matches Ok(sh) ==> forall|k: int|
            0 <= k < sh.commands.len() ==> stdin_fits(k, #[trigger] sh.commands[k].stdin),
{
    lemma_stdin_inv(toks, strict, vars, initial_state());
}

} // verus!

verus! {

/// The descriptor a redirection acts on: the one written before it, else 0 for `<` and 1
/// for `>` and `>>`.
pub open spec fn redirect_fd(fd: Option<u8>, op: RedirectOp) -> u8 {
    match fd {
        Some(f) => f,
        None => if op is Read {
            0
        } else {
            1
        },
    }
}

/// A redirection changes exactly the stream its descriptor names. For a command word `c`
/// followed by one redirection `fd op` with file word `w` (both words with a value), at the
/// end of the line or before a `|` and whatever follows it, a strict parse that succeeds
/// gives a first command named `c` whose
/// - standard input is the file when the redirection is `<` on descriptor 0, else the terminal;
/// - standard output is the file (written or appended to) when it is `>` or `>>` on
///   descriptor 1, else the pipe when a `|` follows, else the terminal;
/// - standard error is the file (written or appended to) when it is `>` or `>>` on
///   descriptor 2, else the terminal.
/// Any other descriptor is refused.
pub proof fn lemma_redirect_sets_its_stream(
    c: Seq<PartSpec>,
    fd: Option<u8>,
    op: RedirectOp,
    w: Seq<PartSpec>,
    rest: Seq<TokenSpec>,
    vars: Map<Seq<char>, Seq<char>>,
)
    requires
        word_value(c, true, vars) is Ok,
        word_value(w, true, vars) is Ok,
        rest.len() == 0 || rest[0] is Pipe,
    ensures
        ({
            let toks = seq![TokenSpec::Word(c), TokenSpec::Redirect(fd, op), TokenSpec::Word(w)]
                + rest;
            let name = word_value(c, true, vars)->Ok_0;
            let f = word_value(w, true, vars)->Ok_0;
            let n = redirect_fd(fd, op);
            let reads = op is Read && n == 0;
            let writes = !(op is Read) && (n == 1 || n == 2);
            let target = if op is Append {
                OutputSpec::AppendFile(f)
            } else {
                OutputSpec::File(f)
            };
            &&& !reads && !writes ==> parse_spec(toks, true, vars) == Err::<ShellSpec, Seq<char>>(
                unsupported_fd(n),
            )
            &&& parse_spec(toks, true, vars) matches Ok(sh) ==> {
                &&& sh.commands.len() > 0
                &&& sh.commands[0].command == name
                &&& sh.commands[0].args == Seq::<Seq<char>>::empty()
                &&& sh.commands[0].stdin == if reads {
                    InputSpec::File(f)
                } else {
                    InputSpec::Stdin
                }
                &&& sh.commands[0].stdout == if writes && n == 1 {
                    target
                } else if rest.len() > 0 {
                    OutputSpec::Pipe
                } else {
                    OutputSpec::Stdout
                }
                &&& sh.commands[0].stderr == if writes && n == 2 {
                    target
                } else {
                    OutputSpec::Stderr
                }
            }
        }),
{
    let toks = seq![TokenSpec::Word(c), TokenSpec::Redirect(fd, op), TokenSpec::Word(w)] + rest;
    let name = word_value(c, true, vars)->Ok_0;
    let f = word_value(w, true, vars)->Ok_0;
    let n = redirect_fd(fd, op);
    assert(toks[0] == TokenSpec::Word(c));
    assert(toks[1] == TokenSpec::Redirect(fd, op));
    assert(toks[2] == TokenSpec::Word(w));
    let s0 = initial_state();
    let s1 = ParseState { i: 1, command: Some(name), ..s0 };
    assert(parse_from(toks, true, vars, s0) == parse_from(toks, true, vars, s1));
    assert(expect_file_spec(toks, 1, redirect_text(fd, op), true, vars) == Ok::<
        Seq<char>,
        Seq<char>,
    >(f));
    let next = ParseState { i: 3, ..s1 };
    let s3 = if op is Read && n == 0 {
        ParseState { stdin: InputSpec::File(f), ..next }
    } else if !(op is Read) && n == 1 {
        if op is Append {
            ParseState { stdout: OutputSpec::AppendFile(f), ..next }
        } else {
            ParseState { stdout: OutputSpec::File(f), ..next }
        }
    } else if !(op is Read) && n == 2 {
        if op is Append {
            ParseState { stderr: OutputSpec::AppendFile(f), ..next }
        } else {
            ParseState { stderr: OutputSpec::File(f), ..next }
        }
    } else {
        next
    };
    if (op is Read && n == 0) || (!(op is Read) && (n == 1 || n == 2)) {
        assert(parse_from(toks, true, vars, s1) == parse_from(toks, true, vars, s3));
        let cmd = CmdSpec {
            command: name,
            args: Seq::empty(),
            stdin: s3.stdin,
            stdout: if rest.len() > 0 && s3.stdout is Stdout {
                OutputSpec::Pipe
            } else {
                s3.stdout
            },
            stderr: s3.stderr,
        };
        if rest.len() == 0 {
            assert(parse_from(toks, true, vars, s3) matches Ok(sh) && sh.commands =~= seq![cmd]);
        } else {
            assert(toks[3] == rest[0]);
            let s4 = ParseState {
                i: 4,
                command: None,
                args: Seq::empty(),
                stdin: InputSpec::Pipe,
                stdout: OutputSpec::Stdout,
                stderr: OutputSpec::Stderr,
                background: false,
                commands: seq![cmd],
            };
            assert(Seq::<CmdSpec>::empty().push(cmd) =~= seq![cmd]);
            assert(parse_from(toks, true, vars, s3) == parse_from(toks, true, vars, s4));
            lemma_parse_keeps_commands(toks, true, vars, s4);
        }
    } else {
        assert(parse_from(toks, true, vars, s1) == Err::<ShellSpec, Seq<char>>(unsupported_fd(n)));
    }
}

} // verus!

verus! {

/// Two parse results that agree on everything but the standard error of the command at `k`:
/// both fail with the same error, or both succeed with the same commands, arguments, inputs
/// and outputs, and the same standard error for every command but the one at `k`.
pub open spec fn same_but_stderr_of(
    r1: Result<ShellSpec, Seq<char>>,
    r2: Result<ShellSpec, Seq<char>>,
    k: int,
) -> bool {
    match r1 {
        Ok(x) => r2 matches Ok(y) && {
            &&& x.commands.len() == y.commands.len()
            &&& forall|j: int|
                0 <= j < x.commands.len() ==> {
                    &&& (#[trigger] x.commands[j]).command == y.commands[j].command
                    &&& x.commands[j].args == y.commands[j].args
                    &&& x.commands[j].stdin == y.commands[j].stdin
                    &&& x.commands[j].stdout == y.commands[j].stdout
                    &&& j != k ==> x.commands[j].stderr == y.commands[j].stderr
                }
            &&& x.command_buffer == y.command_buffer
            &&& x.args_buffer == y.args_buffer
            &&& x.background == y.background
        },
        Err(e) => r2 == Err::<ShellSpec, Seq<char>>(e),
    }
}

/// Two parser states that agree on everything but the standard error of the command at `k`.
spec fn states_differ_in_stderr(s1: ParseState, s2: ParseState, k: int) -> bool {
    &&& s1.command == s2.command
    &&& s1.args == s2.args
    &&& s1.stdin == s2.stdin
    &&& s1.stdout == s2.stdout
    &&& s1.background == s2.background
    &&& s1.commands.len() == s2.commands.len()
    &&& k <= s1.commands.len()
    &&& forall|j: int|
        0 <= j < s1.commands.len() ==> {
            &&& (#[trigger] s1.commands[j]).command == s2.commands[j].command
            &&& s1.commands[j].args == s2.commands[j].args
            &&& s1.commands[j].stdin == s2.commands[j].stdin
            &&& s1.commands[j].stdout == s2.commands[j].stdout
            &&& j != k ==> s1.commands[j].stderr == s2.commands[j].stderr
        }
    &&& s1.commands.len() != k ==> s1.stderr == s2.stderr
}

/// Strict parsing of two token lists that agree from the two states on (the first two tokens
/// further on) keeps states that differ only in one command's standard error.
proof fn lemma_parse_same_but_stderr(
    t1: Seq<TokenSpec>,
    t2: Seq<TokenSpec>,
    vars: Map<Seq<char>, Seq<char>>,
    s1: ParseState,
    s2: ParseState,
    k: int,
)
    requires
        t1.len() == t2.len() + 2,
        0 <= s2.i,
        s1.i == s2.i + 2,
        forall|j: int| s2.i <= j < t2.len() ==> t1[j + 2] == #[trigger] t2[j],
        states_differ_in_stderr(s1, s2, k),
    ensures
        same_but_stderr_of(parse_from(t1, true, vars, s1), parse_from(t2, true, vars, s2), k),
    decreases t2.len() + 2 - s2.i,
{
    if !(s2.i < t2.len()) {
        let r1 = parse_from(t1, true, vars, s1);
        let r2 = parse_from(t2, true, vars, s2);
        if s1.command is Some {
            let sh1 = r1->Ok_0;
            let sh2 = r2->Ok_0;
            assert forall|j: int| 0 <= j < sh1.commands.len() implies {
                &&& (#[trigger] sh1.commands[j]).command == sh2.commands[j].command
                &&& sh1.commands[j].args == sh2.commands[j].args
                &&& sh1.commands[j].stdin == sh2.commands[j].stdin
                &&& sh1.commands[j].stdout == sh2.commands[j].stdout
                &&& j != k ==> sh1.commands[j].stderr == sh2.commands[j].stderr
            } by {
                if j < s1.commands.len() {
                    assert(sh1.commands[j] == s1.commands[j]);
                    assert(sh2.commands[j] == s2.commands[j]);
                }
            }
        }
    } else {
        let i1 = s1.i;
        let i2 = s2.i;
        assert(t1[i1] == t2[i2]);
        match t2[i2] {
            TokenSpec::Word(parts) => {
                let n1 = match word_value(parts, true, vars) {
                    Ok(p) => if s1.command is None {
                        ParseState { command: Some(p), ..s1 }
                    } else {
                        ParseState { args: s1.args.push(p), ..s1 }
                    },
                    Err(_) => s1,
                };
                let n2 = match word_value(parts, true, vars) {
                    Ok(p) => if s2.command is None {
                        ParseState { command: Some(p), ..s2 }
                    } else {
                        ParseState { args: s2.args.push(p), ..s2 }
                    },
                    Err(_) => s2,
                };
                lemma_parse_same_but_stderr(
                    t1,
                    t2,
                    vars,
                    ParseState { i: i1 + 1, ..n1 },
                    ParseState { i: i2 + 1, ..n2 },
                    k,
                );
            },
            TokenSpec::Pipe => {
                if s2.command is None {
                } else {
                    let c1 = CmdSpec {
                        command: s1.command->Some_0,
                        args: s1.args,
                        stdin: s1.stdin,
                        stdout: if s1.stdout is Stdout {
                            OutputSpec::Pipe
                        } else {
                            s1.stdout
                        },
                        stderr: s1.stderr,
                    };
                    let c2 = CmdSpec {
                        command: s2.command->Some_0,
                        args: s2.args,
                        stdin: s2.stdin,
                        stdout: if s2.stdout is Stdout {
                            OutputSpec::Pipe
                        } else {
                            s2.stdout
                        },
                        stderr: s2.stderr,
                    };
                    let n1 = ParseState {
                        i: i1 + 1,
                        command: None,
                        args: Seq::empty(),
                        stdin: InputSpec::Pipe,
                        stdout: OutputSpec::Stdout,
                        stderr: OutputSpec::Stderr,
                        background: s1.background,
                        commands: s1.commands.push(c1),
                    };
                    let n2 = ParseState {
                        i: i2 + 1,
                        command: None,
                        args: Seq::empty(),
                        stdin: InputSpec::Pipe,
                        stdout: OutputSpec::Stdout,
                        stderr: OutputSpec::Stderr,
                        background: s2.background,
                        commands: s2.commands.push(c2),
                    };
                    assert(parse_from(t1, true, vars, s1) == parse_from(t1, true, vars, n1));
                    assert(parse_from(t2, true, vars, s2) == parse_from(t2, true, vars, n2));
                    assert forall|j: int| 0 <= j < n1.commands.len() implies {
                        &&& (#[trigger] n1.commands[j]).command == n2.commands[j].command
                        &&& n1.commands[j].args == n2.commands[j].args
                        &&& n1.commands[j].stdin == n2.commands[j].stdin
                        &&& n1.commands[j].stdout == n2.commands[j].stdout
                        &&& j != k ==> n1.commands[j].stderr == n2.commands[j].stderr
                    } by {
                        if j < s1.commands.len() {
                            assert(n1.commands[j] == s1.commands[j]);
                            assert(n2.commands[j] == s2.commands[j]);
                        }
                    }
                    lemma_parse_same_but_stderr(t1, t2, vars, n1, n2, k);
                }
            },
            TokenSpec::Background => {
                lemma_parse_same_but_stderr(
                    t1,
                    t2,
                    vars,
                    ParseState { i: i1 + 1, background: true, ..s1 },
                    ParseState { i: i2 + 1, background: true, ..s2 },
                    k,
                );
            },
            TokenSpec::Redirect(fd, op) => {
                if i2 + 1 < t2.len() {
                    assert(t1[i1 + 1] == t2[i2 + 1]);
                }
                let e1 = expect_file_spec(t1, i1, redirect_text(fd, op), true, vars);
                let e2 = expect_file_spec(t2, i2, redirect_text(fd, op), true, vars);
                assert(e1 == e2);
                match e2 {
                    Err(_) => {},
                    Ok(file) => {
                        let x1 = ParseState { i: i1 + 2, ..s1 };
                        let x2 = ParseState { i: i2 + 2, ..s2 };
                        lemma_parse_same_but_stderr(t1, t2, vars, x1, x2, k);
                        lemma_parse_same_but_stderr(
                            t1,
                            t2,
                            vars,
                            ParseState { stdin: InputSpec::File(file), ..x1 },
                            ParseState { stdin: InputSpec::File(file), ..x2 },
                            k,
                        );
                        lemma_parse_same_but_stderr(
                            t1,
                            t2,
                            vars,
                            ParseState { stdout: OutputSpec::File(file), ..x1 },
                            ParseState { stdout: OutputSpec::File(file), ..x2 },
                            k,
                        );
                        lemma_parse_same_but_stderr(
                            t1,
                            t2,
                            vars,
                            ParseState { stderr: OutputSpec::File(file), ..x1 },
                            ParseState { stderr: OutputSpec::File(file), ..x2 },
                            k,
                        );
                        lemma_parse_same_but_stderr(
                            t1,
                            t2,
                            vars,
                            ParseState { stdout: OutputSpec::AppendFile(file), ..x1 },
                            ParseState { stdout: OutputSpec::AppendFile(file), ..x2 },
                            k,
                        );
                        lemma_parse_same_but_stderr(
                            t1,
                            t2,
                            vars,
                            ParseState { stderr: OutputSpec::AppendFile(file), ..x1 },
                            ParseState { stderr: OutputSpec::AppendFile(file), ..x2 },
                            k,
                        );
                    },
                }
            },
        }
    }
}

} // verus!

verus! {

/// Up to the place of an inserted `2>`/`2>>` redirection both token lists are parsed alike;
/// there the redirection changes only the standard error of the command being read.
proof fn lemma_stderr_redirect_from(
    pre: Seq<TokenSpec>,
    op: RedirectOp,
    w: Seq<PartSpec>,
    post: Seq<TokenSpec>,
    vars: Map<Seq<char>, Seq<char>>,
    st: ParseState,
)
    requires
        !(op is Read),
        word_value(w, true, vars) is Ok,
        pre.len() > 0 ==> !(pre.last() is Redirect),
        0 <= st.i <= pre.len(),
    ensures
        exists|k: int|
            same_but_stderr_of(
                parse_from(
                    pre + seq![TokenSpec::Redirect(Some(2u8), op), TokenSpec::Word(w)] + post,
                    true,
                    vars,
                    st,
                ),
                parse_from(pre + post, true, vars, st),
                k,
            ),
    decreases pre.len() - st.i,
{
    let t1 = pre + seq![TokenSpec::Redirect(Some(2u8), op), TokenSpec::Word(w)] + post;
    let t2 = pre + post;
    let i = st.i;
    let r1 = parse_from(t1, true, vars, st);
    let r2 = parse_from(t2, true, vars, st);
    if i == pre.len() {
        let f = word_value(w, true, vars)->Ok_0;
        assert(t1[i] == TokenSpec::Redirect(Some(2u8), op));
        assert(t1[i + 1] == TokenSpec::Word(w));
        assert(expect_file_spec(t1, i, redirect_text(Some(2u8), op), true, vars) == Ok::<
            Seq<char>,
            Seq<char>,
        >(f));
        let target = if op is Append {
            OutputSpec::AppendFile(f)
        } else {
            OutputSpec::File(f)
        };
        let s1 = ParseState { i: i + 2, stderr: target, ..st };
        assert(r1 == parse_from(t1, true, vars, s1));
        assert forall|j: int| i <= j < t2.len() implies t1[j + 2] == #[trigger] t2[j] by {
            assert(t2[j] == post[j - pre.len()]);
            assert(t1[j + 2] == post[j - pre.len()]);
        }
        let k = st.commands.len() as int;
        lemma_parse_same_but_stderr(t1, t2, vars, s1, st, k);
        assert(same_but_stderr_of(r1, r2, k));
    } else {
        assert(t1[i] == pre[i]);
        assert(t2[i] == pre[i]);
        match pre[i] {
            TokenSpec::Word(parts) => {
                let n = match word_value(parts, true, vars) {
                    Ok(p) => if st.command is None {
                        ParseState { command: Some(p), ..st }
                    } else {
                        ParseState { args: st.args.push(p), ..st }
                    },
                    Err(_) => st,
                };
                lemma_stderr_redirect_from(pre, op, w, post, vars, ParseState { i: i + 1, ..n });
            },
            TokenSpec::Pipe => {
                let cmd = CmdSpec {
                    command: match st.command {
                        Some(c) => c,
                        None => Seq::empty(),
                    },
                    args: st.args,
                    stdin: st.stdin,
                    stdout: if st.stdout is Stdout {
                        OutputSpec::Pipe
                    } else {
                        st.stdout
                    },
                    stderr: st.stderr,
                };
                let n = ParseState {
                    i: i + 1,
                    command: None,
                    args: Seq::empty(),
                    stdin: InputSpec::Pipe,
                    stdout: OutputSpec::Stdout,
                    stderr: OutputSpec::Stderr,
                    background: st.background,
                    commands: st.commands.push(cmd),
                };
                if st.command is None {
                    assert(r1 == Err::<ShellSpec, Seq<char>>("empty command"@));
                    assert(r2 == Err::<ShellSpec, Seq<char>>("empty command"@));
                    assert(same_but_stderr_of(r1, r2, 0));
                } else {
                    lemma_stderr_redirect_from(pre, op, w, post, vars, n);
                }
            },
            TokenSpec::Background => {
                lemma_stderr_redirect_from(
                    pre,
                    op,
                    w,
                    post,
                    vars,
                    ParseState { i: i + 1, background: true, ..st },
                );
            },
            TokenSpec::Redirect(fd, rop) => {
                assert(i + 1 < pre.len());
                assert(t1[i + 1] == pre[i + 1]);
                assert(t2[i + 1] == pre[i + 1]);
                let e1 = expect_file_spec(t1, i, redirect_text(fd, rop), true, vars);
                let e2 = expect_file_spec(t2, i, redirect_text(fd, rop), true, vars);
                assert(e1 == e2);
                match e2 {
                    Err(e) => {
                        assert(same_but_stderr_of(r1, r2, 0));
                    },
                    Ok(file) => {
                        let x = ParseState { i: i + 2, ..st };
                        let nfd: u8 = match fd {
                            Some(f) => f,
                            None => if rop is Read {
                                0
                            } else {
                                1
                            },
                        };
                        if rop is Read && nfd == 0 {
                            lemma_stderr_redirect_from(
                                pre,
                                op,
                                w,
                                post,
                                vars,
                                ParseState { stdin: InputSpec::File(file), ..x },
                            );
                        } else if rop is Write && nfd == 1 {
                            lemma_stderr_redirect_from(
                                pre,
                                op,
                                w,
                                post,
                                vars,
                                ParseState { stdout: OutputSpec::File(file), ..x },
                            );
                        } else if rop is Write && nfd == 2 {
                            lemma_stderr_redirect_from(
                                pre,
                                op,
                                w,
                                post,
                                vars,
                                ParseState { stderr: OutputSpec::File(file), ..x },
                            );
                        } else if rop is Append && nfd == 1 {
                            lemma_stderr_redirect_from(
                                pre,
                                op,
                                w,
                                post,
                                vars,
                                ParseState { stdout: OutputSpec::AppendFile(file), ..x },
                            );
                        } else if rop is Append && nfd == 2 {
                            lemma_stderr_redirect_from(
                                pre,
                                op,
                                w,
                                post,
                                vars,
                                ParseState { stderr: OutputSpec::AppendFile(file), ..x },
                            );
                        } else {
                            assert(r1 == Err::<ShellSpec, Seq<char>>(unsupported_fd(nfd)));
                            assert(r2 == Err::<ShellSpec, Seq<char>>(unsupported_fd(nfd)));
                            assert(same_but_stderr_of(r1, r2, 0));
                        }
                    },
                }
            },
        }
    }
}

/// A `2>` or `2>>` redirection only ever changes standard error. Inserting `2> f` or
/// `2>> f` (with `f` a word that has a value) into a line, anywhere but as the file operand
/// of another redirection, leaves the strict parse of the line as it was, except the standard
/// error of one command: the same error, or the same commands with the same arguments,
/// inputs and standard outputs.
pub proof fn lemma_stderr_redirect_changes_only_stderr(
    pre: Seq<TokenSpec>,
    op: RedirectOp,
    w: Seq<PartSpec>,
    post: Seq<TokenSpec>,
    vars: Map<Seq<char>, Seq<char>>,
)
    requires
        !(op is Read),
        word_value(w, true, vars) is Ok,
        pre.len() > 0 ==> !(pre.last() is Redirect),
    ensures
        exists|k: int|
            same_but_stderr_of(
                parse_spec(
                    pre + seq![TokenSpec::Redirect(Some(2u8), op), TokenSpec::Word(w)] + post,
                    true,
                    vars,
                ),
                parse_spec(pre + post, true, vars),
                k,
            ),
{
    lemma_stderr_redirect_from(pre, op, w, post, vars, initial_state());
}

} // verus!

verus! {

/// The values of a list of words (each assumed to have one).
pub open spec fn word_values(ws: Seq<Seq<PartSpec>>, strict: bool, vars: Map<Seq<char>, Seq<char>>) -> Seq<
    Seq<char>,
> {
    ws.map_values(|w: Seq<PartSpec>| word_value(w, strict, vars)->Ok_0)
}

/// Reading words after the command name adds their values to the arguments, in order.
proof fn lemma_words_become_args(
    toks: Seq<TokenSpec>,
    ws: Seq<Seq<PartSpec>>,
    strict: bool,
    vars: Map<Seq<char>, Seq<char>>,
    st: ParseState,
)
    requires
        st.command is Some,
        1 <= st.i <= toks.len(),
        toks.len() == ws.len() + 1,
        forall|k: int| 0 <= k < ws.len() ==> toks[k + 1] == TokenSpec::Word(#[trigger] ws[k]),
        forall|k: int| 0 <= k < ws.len() ==> (#[trigger] word_value(ws[k], strict, vars)) is Ok,
    ensures
        parse_from(toks, strict, vars, st) == Ok::<ShellSpec, Seq<char>>(
            ShellSpec {
                commands: st.commands.push(
                    CmdSpec {
                        command: st.command->Some_0,
                        args: st.args + word_values(ws, strict, vars).subrange(
                            st.i - 1,
                            ws.len() as int,
                        ),
                        stdin: st.stdin,
                        stdout: st.stdout,
                        stderr: st.stderr,
                    },
                ),
                command_buffer: st.command->Some_0,
                args_buffer: st.args + word_values(ws, strict, vars).subrange(
                    st.i - 1,
                    ws.len() as int,
                ),
                background: st.background,
            },
        ),
    decreases toks.len() - st.i,
{
    let vs = word_values(ws, strict, vars);
    if st.i < toks.len() {
        let k = st.i - 1;
        assert(toks[k + 1] == TokenSpec::Word(ws[k]));
        assert(word_value(ws[k], strict, vars) is Ok);
        let v = word_value(ws[k], strict, vars)->Ok_0;
        assert(vs[k] == v);
        let n = ParseState { i: st.i + 1, args: st.args.push(v), ..st };
        lemma_words_become_args(toks, ws, strict, vars, n);
        assert(st.args.push(v) + vs.subrange(st.i, ws.len() as int) =~= st.args + vs.subrange(
            st.i - 1,
            ws.len() as int,
        ));
    } else {
        assert(st.args + vs.subrange(st.i - 1, ws.len() as int) =~= st.args);
    }
}

/// A line of words is one command: the first word's value names it and the values of the
/// others are its arguments, in order; it reads the terminal and writes to the terminal and
/// does not run in the background.
pub proof fn lemma_words_make_one_command(
    c: Seq<PartSpec>,
    ws: Seq<Seq<PartSpec>>,
    strict: bool,
    vars: Map<Seq<char>, Seq<char>>,
)
    requires
        word_value(c, strict, vars) is Ok,
        forall|k: int| 0 <= k < ws.len() ==> (#[trigger] word_value(ws[k], strict, vars)) is Ok,
    ensures
        parse_spec(
            seq![TokenSpec::Word(c)] + ws.map_values(|w: Seq<PartSpec>| TokenSpec::Word(w)),
            strict,
            vars,
        ) == Ok::<ShellSpec, Seq<char>>(
            ShellSpec {
                commands: seq![
                    CmdSpec {
                        command: word_value(c, strict, vars)->Ok_0,
                        args: word_values(ws, strict, vars),
                        stdin: InputSpec::Stdin,
                        stdout: OutputSpec::Stdout,
                        stderr: OutputSpec::Stderr,
                    },
                ],
                command_buffer: word_value(c, strict, vars)->Ok_0,
                args_buffer: word_values(ws, strict, vars),
                background: false,
            },
        ),
{
    let toks = seq![TokenSpec::Word(c)] + ws.map_values(|w: Seq<PartSpec>| TokenSpec::Word(w));
    let name = word_value(c, strict, vars)->Ok_0;
    assert(toks[0] == TokenSpec::Word(c));
    assert forall|k: int| 0 <= k < ws.len() implies toks[k + 1] == TokenSpec::Word(
        #[trigger] ws[k],
    ) by {}
    let s1 = ParseState { i: 1, command: Some(name), ..initial_state() };
    assert(parse_spec(toks, strict, vars) == parse_from(toks, strict, vars, s1));
    lemma_words_become_args(toks, ws, strict, vars, s1);
    let vs = word_values(ws, strict, vars);
    assert(Seq::<Seq<char>>::empty() + vs.subrange(0, ws.len() as int) =~= vs);
    assert(Seq::<CmdSpec>::empty().push(
        CmdSpec {
            command: name,
            args: vs,
            stdin: InputSpec::Stdin,
            stdout: OutputSpec::Stdout,
            stderr: OutputSpec::Stderr,
        },
    ) =~= seq![
        CmdSpec {
            command: name,
            args: vs,
            stdin: InputSpec::Stdin,
            stdout: OutputSpec::Stdout,
            stderr: OutputSpec::Stderr,
        },
    ]);
}

} // verus!

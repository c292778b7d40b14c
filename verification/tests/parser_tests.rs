use shell::parser::{parse, ParseCtx, ParsedShell};
use shell::runnable::declare::ShellVariable;
use shell::tokenizer::{LexedToken, Token, Tokenizer};
use shell::utils::io::{Input, Output};

fn run_parse(s: &str, strict: bool, vars: &ShellVariable) -> Result<ParsedShell, String> {
    let mut t = Tokenizer::new(s.to_string());
    let lexed: Vec<LexedToken> = t.tokenize();
    let tokens: Vec<&Token> = lexed.iter().map(|t| &t.token).collect();
    parse(tokens, ParseCtx { strict, shell_vars: vars })
}

#[test]
fn parse_pipeline_with_redirection() {
    let vars = ShellVariable::new();
    let p = run_parse("ls -l | grep x > out", false, &vars).unwrap();
    assert_eq!(p.commands.len(), 2);
    assert_eq!(p.commands[0].command, "ls");
    assert_eq!(p.commands[0].args, vec!["-l".to_string()]);
    assert!(matches!(p.commands[0].stdin, Input::Stdin));
    assert!(matches!(p.commands[0].stdout, Output::Pipe));
    assert!(matches!(p.commands[0].stderr, Output::Stderr));
    assert_eq!(p.commands[1].command, "grep");
    assert_eq!(p.commands[1].args, vec!["x".to_string()]);
    assert!(matches!(p.commands[1].stdin, Input::Pipe));
    assert!(matches!(&p.commands[1].stdout, Output::File(f) if f == "out"));
    assert_eq!(p.command_buffer, "grep");
    assert_eq!(p.args_buffer, vec!["x".to_string()]);
    assert!(!p.background);
}

#[test]
fn parse_strict_empty_command_is_refused() {
    let vars = ShellVariable::new();
    assert_eq!(run_parse("| ls", true, &vars).err().unwrap(), "empty command");
    assert_eq!(run_parse("", true, &vars).err().unwrap(), "empty command");
}

#[test]
fn parse_lenient_accepts_empty_line() {
    let vars = ShellVariable::new();
    let p = run_parse("", false, &vars).unwrap();
    assert!(p.commands.is_empty());
    assert_eq!(p.command_buffer, "");
    assert!(p.args_buffer.is_empty());
}

#[test]
fn parse_missing_file_after_redirection() {
    let vars = ShellVariable::new();
    assert_eq!(run_parse("ls >", true, &vars).err().unwrap(), "expected file after '>'");
    assert_eq!(run_parse("ls 2>>", true, &vars).err().unwrap(), "expected file after '2>>'");
    let p = run_parse("ls >", false, &vars).unwrap();
    assert!(matches!(&p.commands[0].stdout, Output::File(f) if f == "unknown_redirect_1"));
}

#[test]
fn parse_unsupported_descriptor() {
    let vars = ShellVariable::new();
    assert_eq!(
        run_parse("ls 3> f", true, &vars).err().unwrap(),
        "unsupported file descriptor: 3"
    );
    let p = run_parse("ls 3> f", false, &vars).unwrap();
    assert!(matches!(p.commands[0].stdout, Output::Stdout));
}

#[test]
fn parse_redirections_set_streams() {
    let vars = ShellVariable::new();
    let p = run_parse("cmd <in 2>err >>log", true, &vars).unwrap();
    let c = &p.commands[0];
    assert!(matches!(&c.stdin, Input::File(f) if f == "in"));
    assert!(matches!(&c.stderr, Output::File(f) if f == "err"));
    assert!(matches!(&c.stdout, Output::AppendFile(f) if f == "log"));
}

#[test]
fn parse_expands_variables_only_when_strict() {
    let mut vars = ShellVariable::new();
    vars.insert("X".to_string(), "1".to_string());
    let strict = run_parse("echo $X", true, &vars).unwrap();
    assert_eq!(strict.commands[0].args, vec!["1".to_string()]);
    let lax = run_parse("echo $X", false, &vars).unwrap();
    assert_eq!(lax.commands[0].args, vec!["$X".to_string()]);
}

#[test]
fn parse_drops_empty_words_when_strict() {
    let vars = ShellVariable::new();
    let p = run_parse("echo $UNSET", true, &vars).unwrap();
    assert!(p.commands[0].args.is_empty());
}

#[test]
fn parse_background_flag() {
    let vars = ShellVariable::new();
    let p = run_parse("sleep 1 &", true, &vars).unwrap();
    assert!(p.background);
    assert_eq!(p.commands[0].args, vec!["1".to_string()]);
}

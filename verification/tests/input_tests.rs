use shell::input::{Action, InputCtx, InputShell, KeyCode, KeyPress, LineEditor, SuggestionType};
use shell::parser::ParsedShell;
use shell::runnable::complete::CompletionPath;
use shell::runnable::declare::ShellVariable;
use shell::runnable::history::HistoryCtx;
use shell::structures::trie::Trie;

fn key(c: char) -> KeyPress {
    KeyPress { code: KeyCode::Char(c), ctrl: false }
}

fn ctrl(c: char) -> KeyPress {
    KeyPress { code: KeyCode::Char(c), ctrl: true }
}

fn plain(code: KeyCode) -> KeyPress {
    KeyPress { code, ctrl: false }
}

struct Env {
    paths: CompletionPath,
    cmds: Trie,
    files: Trie,
    vars: ShellVariable,
}

fn env(cmds: &[&str], files: &[&str]) -> Env {
    let mut c = Trie::new();
    for w in cmds {
        c.insert(w);
    }
    let mut f = Trie::new();
    for w in files {
        f.insert(w);
    }
    Env { paths: CompletionPath::new(), cmds: c, files: f, vars: ShellVariable::new() }
}

fn ctx(e: &Env) -> InputCtx<'_> {
    InputCtx { completions_path: &e.paths, cmd_pref: &e.cmds, filesystem_pref: &e.files, shell_vars: &e.vars }
}

fn redraw_text(a: &Action) -> String {
    match a {
        Action::Redraw(r) => r.clone(),
        Action::EraseRedraw(r) => r.clone(),
        _ => panic!("not a redraw"),
    }
}

fn type_str(ed: &mut LineEditor, s: &str, e: &Env, h: &mut HistoryCtx) {
    for c in s.chars() {
        ed.step(key(c), "$ ", &ctx(e), h);
    }
}

#[test]
fn render_colours_tokens() {
    let toks = InputShell::tokenize_buffer("ls ");
    assert_eq!(InputShell::render("ls ", "$ ", &toks), "\r$ \x1b[K\x1b[37mls\x1b[0m ");
    let toks = InputShell::tokenize_buffer("a > b");
    assert_eq!(
        InputShell::render("a > b", "> ", &toks),
        "\r> \x1b[K\x1b[37ma\x1b[0m\x1b[31m >\x1b[0m\x1b[37m b\x1b[0m"
    );
    let toks = InputShell::tokenize_buffer("x | y &");
    assert_eq!(
        InputShell::render("x | y &", "", &toks),
        "\r\x1b[K\x1b[37mx\x1b[0m\x1b[34m |\x1b[0m\x1b[37m y\x1b[0m\x1b[34m &\x1b[0m"
    );
}

#[test]
fn typing_and_erasing() {
    let e = env(&[], &[]);
    let mut h = HistoryCtx { entries: vec![], last_appended: 0 };
    let mut ed = LineEditor::new(0);
    let a = ed.step(key('l'), "$ ", &ctx(&e), &mut h);
    assert_eq!(redraw_text(&a), "\r$ \x1b[K\x1b[37ml\x1b[0m");
    assert_eq!(ed.buffer, "l");
    let a = ed.step(plain(KeyCode::Backspace), "$ ", &ctx(&e), &mut h);
    assert!(matches!(a, Action::EraseRedraw(_)));
    assert_eq!(redraw_text(&a), "\r$ \x1b[K");
    assert_eq!(ed.buffer, "");
    let a = ed.step(plain(KeyCode::Backspace), "$ ", &ctx(&e), &mut h);
    assert!(matches!(a, Action::Nothing));
    assert!(matches!(ed.step(plain(KeyCode::Other), "$ ", &ctx(&e), &mut h), Action::Nothing));
    assert_eq!(ed.key_presses.len(), 3);
    ed.step(key('x'), "$ ", &ctx(&e), &mut h);
    assert_eq!(ed.key_presses.len(), 3);
    assert_eq!(ed.key_presses[2], KeyCode::Char('x'));
}

#[test]
fn history_navigation() {
    let e = env(&[], &[]);
    let mut h = HistoryCtx { entries: vec!["a".to_string(), "b".to_string()], last_appended: 0 };
    let mut ed = LineEditor::new(2);
    assert!(matches!(ed.step(plain(KeyCode::Down), "$ ", &ctx(&e), &mut h), Action::Nothing));
    ed.step(plain(KeyCode::Up), "$ ", &ctx(&e), &mut h);
    assert_eq!((ed.buffer.as_str(), ed.current_history), ("b", 1));
    ed.step(plain(KeyCode::Up), "$ ", &ctx(&e), &mut h);
    assert_eq!((ed.buffer.as_str(), ed.current_history), ("a", 0));
    assert!(matches!(ed.step(plain(KeyCode::Up), "$ ", &ctx(&e), &mut h), Action::Nothing));
    ed.step(plain(KeyCode::Down), "$ ", &ctx(&e), &mut h);
    assert_eq!((ed.buffer.as_str(), ed.current_history), ("b", 1));
    assert!(matches!(ed.step(plain(KeyCode::Down), "$ ", &ctx(&e), &mut h), Action::Nothing));
}

#[test]
fn enter_submits_and_records_history() {
    let e = env(&[], &[]);
    let mut h = HistoryCtx { entries: vec![], last_appended: 0 };
    let mut ed = LineEditor::new(0);
    type_str(&mut ed, "echo hi", &e, &mut h);
    match ed.step(plain(KeyCode::Enter), "$ ", &ctx(&e), &mut h) {
        Action::Submit(extra, Ok(p)) => {
            assert!(extra);
            assert_eq!(p.commands[0].command, "echo");
            assert_eq!(p.commands[0].args, vec!["hi".to_string()]);
        }
        _ => panic!("expected a submitted line"),
    }
    assert_eq!(h.entries, vec!["echo hi".to_string()]);
}

#[test]
fn control_keys() {
    let e = env(&[], &[]);
    let mut h = HistoryCtx { entries: vec![], last_appended: 0 };
    let mut ed = LineEditor::new(0);
    assert!(matches!(ed.step(ctrl('c'), "$ ", &ctx(&e), &mut h), Action::Interrupt));
    assert!(matches!(ed.step(ctrl('x'), "$ ", &ctx(&e), &mut h), Action::Nothing));
    type_str(&mut ed, "ls", &e, &mut h);
    match ed.step(ctrl('z'), "$ ", &ctx(&e), &mut h) {
        Action::DebugRedraw(p, _) => assert_eq!(p.command_buffer, "ls"),
        _ => panic!("expected a debug redraw"),
    }
    assert_eq!(ed.buffer, "lsz");
    match ed.step(ctrl('j'), "$ ", &ctx(&e), &mut h) {
        Action::Submit(extra, Ok(_)) => assert!(!extra),
        _ => panic!("expected a submitted line"),
    }
    assert_eq!(h.entries, vec!["lsz".to_string()]);
    let mut ed2 = LineEditor::new(1);
    match ed2.step(plain(KeyCode::Enter), "$ ", &ctx(&e), &mut h) {
        Action::Submit(_, Err(m)) => assert_eq!(m, "empty command"),
        _ => panic!("expected a parse error"),
    }
}

fn tab(ed: &mut LineEditor, e: &Env, h: &mut HistoryCtx) -> Action {
    match ed.step(plain(KeyCode::Tab), "$ ", &ctx(e), h) {
        Action::Suggest(s, partial) => {
            assert!(InputShell::suggestions_fit(&s, &partial));
            ed.on_suggestions(s, &partial, "$ ")
        }
        other => other,
    }
}

#[test]
fn tab_completes_a_single_command() {
    let e = env(&["echo", "exit"], &[]);
    let mut h = HistoryCtx { entries: vec![], last_appended: 0 };
    let mut ed = LineEditor::new(0);
    type_str(&mut ed, "ec", &e, &mut h);
    let a = tab(&mut ed, &e, &mut h);
    assert!(matches!(a, Action::Redraw(_)));
    assert_eq!(ed.buffer, "echo ");
}

#[test]
fn tab_twice_lists_ambiguous_commands() {
    let e = env(&["exit", "echo"], &[]);
    let mut h = HistoryCtx { entries: vec![], last_appended: 0 };
    let mut ed = LineEditor::new(0);
    type_str(&mut ed, "e", &e, &mut h);
    assert!(matches!(tab(&mut ed, &e, &mut h), Action::Bell));
    assert_eq!(ed.tab_cnt, 1);
    match tab(&mut ed, &e, &mut h) {
        Action::ListSuggestions(list, r) => {
            assert_eq!(list, vec!["echo".to_string(), "exit".to_string()]);
            assert_eq!(r, "\r$ \x1b[K\x1b[37me\x1b[0m");
        }
        _ => panic!("expected the list"),
    }
    assert_eq!(ed.tab_cnt, 0);
    assert_eq!(ed.buffer, "e");
}

#[test]
fn tab_inserts_common_prefix_and_file_names() {
    let e = env(&["abc1", "abc2"], &["src/", "small.txt"]);
    let mut h = HistoryCtx { entries: vec![], last_appended: 0 };
    let mut ed = LineEditor::new(0);
    type_str(&mut ed, "a", &e, &mut h);
    assert!(matches!(tab(&mut ed, &e, &mut h), Action::Redraw(_)));
    assert_eq!(ed.buffer, "abc");
    let mut ed2 = LineEditor::new(0);
    type_str(&mut ed2, "cat sr", &e, &mut h);
    assert!(matches!(tab(&mut ed2, &e, &mut h), Action::Redraw(_)));
    assert_eq!(ed2.buffer, "cat src/");
    let mut ed3 = LineEditor::new(0);
    type_str(&mut ed3, "zz", &e, &mut h);
    assert!(matches!(tab(&mut ed3, &e, &mut h), Action::Bell));
}

#[test]
fn tab_asks_the_completion_program() {
    let mut e = env(&["git"], &[]);
    e.paths.insert("git".to_string(), "/bin/comp".to_string());
    let mut h = HistoryCtx { entries: vec![], last_appended: 0 };
    let mut ed = LineEditor::new(0);
    type_str(&mut ed, "git ch", &e, &mut h);
    match ed.step(plain(KeyCode::Tab), "$ ", &ctx(&e), &mut h) {
        Action::RequestCompletion(req, partial) => {
            assert_eq!(req.name, "git");
            assert_eq!(req.partial, "ch");
            assert_eq!(req.previous, "git");
            assert_eq!(req.path, "/bin/comp");
            assert_eq!(req.buffer, "git ch");
            assert_eq!(req.cursor, 6);
            assert_eq!(partial, "ch");
            let a = ed.on_suggestions(vec!["checkout".to_string()], &partial, "$ ");
            assert!(matches!(a, Action::Redraw(_)));
            assert_eq!(ed.buffer, "git checkout ");
        }
        _ => panic!("expected a completion request"),
    }
}

#[test]
fn last_token_of_lines() {
    assert_eq!(InputShell::last_token("ls foo"), "foo");
    assert_eq!(InputShell::last_token("ls foo "), "");
    assert_eq!(InputShell::last_token("ls\t"), "ls");
    assert_eq!(InputShell::last_token(""), "");
    assert_eq!(InputShell::last_token("ab"), "ab");
}

#[test]
fn suggestions_fit_checks_character_boundaries() {
    let v = |s: &[&str]| s.iter().map(|x| x.to_string()).collect::<Vec<String>>();
    assert!(!InputShell::suggestions_fit(&v(&["é", "è"]), ""));
    assert!(InputShell::suggestions_fit(&v(&["abc"]), "a"));
    assert!(!InputShell::suggestions_fit(&v(&["x"]), "é"));
    assert!(InputShell::suggestions_fit(&v(&[]), "anything"));
    assert!(InputShell::suggestions_fit(&v(&["éa", "éb"]), "é"));
}

#[test]
fn suggestion_type_of_lines() {
    let mut paths = CompletionPath::new();
    paths.insert("git".to_string(), "/c".to_string());
    let vars = ShellVariable::new();
    let e = Env { paths, cmds: Trie::new(), files: Trie::new(), vars };
    let parsed = |s: &str| -> ParsedShell {
        let toks = InputShell::tokenize_buffer(s);
        InputShell::parse_buffer(false, &ctx(&e), &toks).unwrap()
    };
    match InputShell::suggestion_type("git a b", &parsed("git a b"), &e.paths) {
        SuggestionType::Complete(prev, cur, path) => {
            assert_eq!((prev.as_str(), cur.as_str(), path.as_str()), ("a", "b", "/c"));
        }
        _ => panic!("expected the completion program"),
    }
    assert!(matches!(
        InputShell::suggestion_type("ls", &parsed("ls"), &e.paths),
        SuggestionType::Command
    ));
    assert!(matches!(
        InputShell::suggestion_type("ls ", &parsed("ls "), &e.paths),
        SuggestionType::Filesystem
    ));
    assert!(matches!(
        InputShell::suggestion_type("ls x", &parsed("ls x"), &e.paths),
        SuggestionType::Filesystem
    ));
}

fn strip_colours(s: &str) -> String {
    let mut out = String::new();
    let mut chars = s.chars().peekable();
    while let Some(c) = chars.next() {
        if c == '\x1b' {
            for d in chars.by_ref() {
                if d == 'm' || d == 'K' {
                    break;
                }
            }
        } else if c != '\r' {
            out.push(c);
        }
    }
    out
}

#[test]
fn colours_only_decorate_the_line() {
    for line in ["a > b | c &", "echo 'x y' 2>> log", "  é  "] {
        let toks = InputShell::tokenize_buffer(line);
        let shown = InputShell::render(line, "$ ", &toks);
        assert_eq!(strip_colours(&shown), format!("$ {}", line));
    }
}

#[test]
fn completion_does_not_depend_on_order() {
    let e = env(&[], &[]);
    let mut h = HistoryCtx { entries: vec![], last_appended: 0 };
    let words = ["bx1", "ax2", "ax1"];
    let mut results = Vec::new();
    for order in [[0, 1, 2], [2, 1, 0], [1, 2, 0]] {
        let mut ed = LineEditor::new(0);
        type_str(&mut ed, "a", &e, &mut h);
        let s: Vec<String> = order.iter().map(|&i| words[i].to_string()).collect();
        ed.tab_cnt = 1;
        match ed.on_suggestions(s, "a", "$ ") {
            Action::ListSuggestions(list, _) => results.push(list),
            _ => panic!("expected the list"),
        }
    }
    assert_eq!(results[0], vec!["ax1".to_string(), "ax2".to_string(), "bx1".to_string()]);
    assert_eq!(results[0], results[1]);
    assert_eq!(results[1], results[2]);
    let mut a = LineEditor::new(0);
    type_str(&mut a, "a", &e, &mut h);
    a.on_suggestions(vec!["abc1".to_string(), "abc2".to_string()], "a", "$ ");
    let mut b = LineEditor::new(0);
    type_str(&mut b, "a", &e, &mut h);
    b.on_suggestions(vec!["abc2".to_string(), "abc1".to_string()], "a", "$ ");
    assert_eq!(a.buffer, "abc");
    assert_eq!(a.buffer, b.buffer);
}

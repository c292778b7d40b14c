use shell::tokenizer::{LexedToken, RedirectOp, Token, Tokenizer, Word, WordPart};

fn lex(s: &str) -> Vec<LexedToken> {
    let mut t = Tokenizer::new(s.to_string());
    t.tokenize()
}

fn lit(s: &str) -> WordPart {
    WordPart::Literal(s.to_string())
}

fn var(s: &str) -> WordPart {
    WordPart::Variable(s.to_string())
}

fn word(parts: Vec<WordPart>) -> Token {
    Token::Str(Word { parts })
}

fn spans(v: &[LexedToken]) -> Vec<(usize, usize)> {
    v.iter().map(|t| (t.start, t.end)).collect()
}

#[test]
fn tokenize_simple_command() {
    let toks = lex("ls -la");
    assert_eq!(toks.len(), 2);
    assert_eq!(toks[0].token, word(vec![lit("ls")]));
    assert_eq!(toks[1].token, word(vec![lit("-la")]));
    assert_eq!(spans(&toks), vec![(0, 2), (2, 6)]);
}

#[test]
fn tokenize_redirections() {
    let toks = lex("echo hi 2>err.txt >> log");
    let kinds: Vec<Token> = toks.iter().map(|t| t.token.clone()).collect();
    assert_eq!(
        kinds,
        vec![
            word(vec![lit("echo")]),
            word(vec![lit("hi")]),
            Token::Redirect { fd: Some(2), op: RedirectOp::Write },
            word(vec![lit("err.txt")]),
            Token::Redirect { fd: None, op: RedirectOp::Append },
            word(vec![lit("log")]),
        ]
    );
    assert_eq!(spans(&toks), vec![(0, 4), (4, 7), (7, 10), (10, 17), (17, 20), (20, 24)]);
}

#[test]
fn tokenize_read_redirection_and_digit_word() {
    let toks = lex("sort <in 3");
    let kinds: Vec<Token> = toks.iter().map(|t| t.token.clone()).collect();
    assert_eq!(
        kinds,
        vec![
            word(vec![lit("sort")]),
            Token::Redirect { fd: None, op: RedirectOp::Read },
            word(vec![lit("in")]),
            word(vec![lit("3")]),
        ]
    );
}

#[test]
fn tokenize_pipe_and_background() {
    let toks = lex("a | b &");
    let kinds: Vec<Token> = toks.iter().map(|t| t.token.clone()).collect();
    assert_eq!(
        kinds,
        vec![word(vec![lit("a")]), Token::Pipe, word(vec![lit("b")]), Token::Background]
    );
    assert_eq!(spans(&toks), vec![(0, 1), (1, 3), (3, 5), (5, 7)]);
}

#[test]
fn tokenize_quotes_and_escapes() {
    let toks = lex("echo 'a b' \"c d\" e\\ f");
    let kinds: Vec<Token> = toks.iter().map(|t| t.token.clone()).collect();
    assert_eq!(
        kinds,
        vec![
            word(vec![lit("echo")]),
            word(vec![lit("a b")]),
            word(vec![lit("c d")]),
            word(vec![lit("e f")]),
        ]
    );
}

#[test]
fn tokenize_variables() {
    let toks = lex("echo $HOME ${X}y");
    let kinds: Vec<Token> = toks.iter().map(|t| t.token.clone()).collect();
    assert_eq!(
        kinds,
        vec![
            word(vec![lit("echo")]),
            word(vec![lit(""), var("HOME"), lit("")]),
            word(vec![lit(""), var("X"), lit("y")]),
        ]
    );
}

#[test]
fn tokenize_counts_bytes_of_multibyte_characters() {
    let toks = lex("é x");
    assert_eq!(toks[0].token, word(vec![lit("é")]));
    assert_eq!(spans(&toks), vec![(0, 2), (2, 4)]);
}

#[test]
fn tokenize_only_whitespace_gives_nothing() {
    assert!(lex("   \t ").is_empty());
    assert!(lex("").is_empty());
}

#[test]
fn word_new_is_empty() {
    assert!(Word::new().parts.is_empty());
}

#[test]
fn next_token_steps_through_input() {
    let mut t = Tokenizer::new("a b".to_string());
    let first = t.next_token().unwrap();
    assert_eq!((first.start, first.end), (0, 1));
    let second = t.next_token().unwrap();
    assert_eq!((second.start, second.end), (1, 3));
    assert!(t.next_token().is_none());
}

#[test]
fn tokenize_variable_name_stops_at_punctuation() {
    let toks = lex("$A-b $é_1.x");
    let kinds: Vec<Token> = toks.iter().map(|t| t.token.clone()).collect();
    assert_eq!(
        kinds,
        vec![
            word(vec![lit(""), var("A"), lit("-b")]),
            word(vec![lit(""), var("é_1"), lit(".x")]),
        ]
    );
}

#[test]
fn token_spans_tile_the_input() {
    for s in ["  ls -la  ", "a|b&c", "echo 'x y' 2>>log  \t", "é è"] {
        let toks = lex(s);
        assert_eq!(toks[0].start, 0);
        for w in toks.windows(2) {
            assert!(w[0].start < w[0].end);
            assert_eq!(w[0].end, w[1].start);
        }
        let last = toks.last().unwrap();
        assert!(last.start < last.end);
        assert!(s[last.end..].chars().all(char::is_whitespace));
    }
    let mut t = Tokenizer::new("ls x".to_string());
    assert_eq!(t.tokenize().len(), 2);
    assert!(t.tokenize().is_empty());
}

#[test]
fn variable_name_stops_at_ascii_punctuation() {
    let toks = lex("$HOME/x");
    assert_eq!(toks[0].token, word(vec![lit(""), var("HOME"), lit("/x")]));
}

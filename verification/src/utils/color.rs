use vstd::prelude::*;
use vstd::string::StringExecFns;
use crate::tokenizer::{LexedToken, Token, TokenSpec};

verus! {

/// The colours used to highlight a command line.
enum Color {
    Red,
    _Green,
    _Yellow,
    Blue,
    _Magenta,
    _Cyan,
    White,
}

/// The escape sequence that switches the terminal's foreground to colour number `d`.
pub open spec fn sgr_fg(d: char) -> Seq<char> {
    seq!['\u{1b}', '[', '3', d, 'm']
}

/// The escape sequence that resets the terminal's colours.
pub open spec fn sgr_reset() -> Seq<char> {
    seq!['\u{1b}', '[', '0', 'm']
}

/// The colour digit of each colour.
spec fn digit_of(c: Color) -> char {
    match c {
        Color::Red => '1',
        Color::_Green => '2',
        Color::_Yellow => '3',
        Color::Blue => '4',
        Color::_Magenta => '5',
        Color::_Cyan => '6',
        Color::White => '7',
    }
}

/// The colour digit a token is shown in: words white, redirections red, `&` and `|` blue.
pub open spec fn token_digit(t: TokenSpec) -> char {
    match t {
        TokenSpec::Word(_) => '7',
        TokenSpec::Redirect(_, _) => '1',
        TokenSpec::Background => '4',
        TokenSpec::Pipe => '4',
    }
}

/// The text of `raw` shown in the colour of token `t`.
pub open spec fn colored(raw: Seq<char>, t: TokenSpec) -> Seq<char> {
    sgr_fg(token_digit(t)) + raw + sgr_reset()
}

/// The escape sequence for `color`.
fn color_to_ansi(color: Color) -> (r: &'static str)
    ensures
        r@ == sgr_fg(digit_of(color)),
{
    match color {
        Color::Red => {
            proof {
                reveal_strlit("\x1b[31m");
            }
            assert("\x1b[31m"@ =~= sgr_fg('1'));
            "\x1b[31m"
        },
        Color::_Green => {
            proof {
                reveal_strlit("\x1b[32m");
            }
            assert("\x1b[32m"@ =~= sgr_fg('2'));
            "\x1b[32m"
        },
        Color::_Yellow => {
            proof {
                reveal_strlit("\x1b[33m");
            }
            assert("\x1b[33m"@ =~= sgr_fg('3'));
            "\x1b[33m"
        },
        Color::Blue => {
            proof {
                reveal_strlit("\x1b[34m");
            }
            assert("\x1b[34m"@ =~= sgr_fg('4'));
            "\x1b[34m"
        },
        Color::_Magenta => {
            proof {
                reveal_strlit("\x1b[35m");
            }
            assert("\x1b[35m"@ =~= sgr_fg('5'));
            "\x1b[35m"
        },
        Color::_Cyan => {
            proof {
                reveal_strlit("\x1b[36m");
            }
            assert("\x1b[36m"@ =~= sgr_fg('6'));
            "\x1b[36m"
        },
        Color::White => {
            proof {
                reveal_strlit("\x1b[37m");
            }
            assert("\x1b[37m"@ =~= sgr_fg('7'));
            "\x1b[37m"
        },
    }
}

/// `s` wrapped in the escape sequences that colour it and reset the colour afterwards.
fn color_str(s: &str, color: Color) -> (r: String)
    ensures
        r@ == sgr_fg(digit_of(color)) + s@ + sgr_reset(),
{
    let mut r = String::new();
    r.append(color_to_ansi(color));
    r.append(s);
    proof {
        reveal_strlit("\x1b[0m");
    }
    assert("\x1b[0m"@ =~= sgr_reset());
    r.append("\x1b[0m");
    r
}

/// The text `raw` of a token, coloured by the token's kind.
pub fn color_token(raw: &str, lex_token: &LexedToken) -> (r: String)
    ensures
        r@ == colored(raw@, lex_token.token@),
{
    match &lex_token.token {
        Token::Str(_) => color_str(raw, Color::White),
        Token::Redirect { .. } => color_str(raw, Color::Red),
        Token::Background => color_str(raw, Color::Blue),
        Token::Pipe => color_str(raw, Color::Blue),
    }
}

} // verus!

use vstd::prelude::*;
use vstd::utf8::encode_scalar;
use crate::utils::text::{byte_len, byte_offset, char_len_utf8, chars_of, lemma_byte_offset_bound, lemma_byte_offset_step, push_char};

verus! {

/// The kind of a redirection operator.
#[derive(Debug, Clone, Copy, PartialEq, Eq, Structural)]
pub enum RedirectOp {
    /// `<`
    Read,
    /// `>`
    Write,
    /// `>>`
    Append,
}

/// A piece of a word: literal text, or the name of a variable to expand.
#[derive(Debug, Clone, PartialEq, Eq)]
pub enum WordPart {
    Literal(String),
    Variable(String),
}

/// A shell word made of literal and variable parts.
#[derive(Debug, Clone, PartialEq, Eq)]
pub struct Word {
    pub parts: Vec<WordPart>,
}

impl Word {
    /// A word with no parts.
    pub fn new() -> (r: Self)
        ensures
            r.parts@ == Seq::<WordPart>::empty(),
    {
        Word { parts: Vec::new() }
    }
}

/// A lexical token of the shell language.
#[derive(Debug, Clone, PartialEq, Eq)]
pub enum Token {
    Str(Word),
    Redirect { fd: Option<u8>, op: RedirectOp },
    Background,
    Pipe,
}

/// A token together with the byte range of the input it was read from.
pub struct LexedToken {
    pub token: Token,
    pub start: usize,
    pub end: usize,
}

/// Model of a word part.
pub enum PartSpec {
    Lit(Seq<char>),
    Var(Seq<char>),
}

/// Model of a token.
pub enum TokenSpec {
    Word(Seq<PartSpec>),
    Redirect(Option<u8>, RedirectOp),
    Background,
    Pipe,
}

impl View for WordPart {
    type V = PartSpec;

    open spec fn view(&self) -> PartSpec {
        match self {
            WordPart::Literal(s) => PartSpec::Lit(s@),
            WordPart::Variable(s) => PartSpec::Var(s@),
        }
    }
}

impl View for Word {
    type V = Seq<PartSpec>;

    open spec fn view(&self) -> Seq<PartSpec> {
        self.parts@.map_values(|p: WordPart| p@)
    }
}

impl View for Token {
    type V = TokenSpec;

    open spec fn view(&self) -> TokenSpec {
        match self {
            Token::Str(w) => TokenSpec::Word(w@),
            Token::Redirect { fd, op } => TokenSpec::Redirect(*fd, *op),
            Token::Background => TokenSpec::Background,
            Token::Pipe => TokenSpec::Pipe,
        }
    }
}

impl View for LexedToken {
    type V = (TokenSpec, nat, nat);

    open spec fn view(&self) -> (TokenSpec, nat, nat) {
        (self.token@, self.start as nat, self.end as nat)
    }
}

/// Characters with the Unicode `White_Space` property, which is what `char::is_whitespace` tests.
pub open spec fn is_ws(c: char) -> bool {
    let v = c as u32;
    ||| 0x09 <= v <= 0x0D
    ||| v == 0x20
    ||| v == 0x85
    ||| v == 0xA0
    ||| v == 0x1680
    ||| 0x2000 <= v <= 0x200A
    ||| v == 0x2028
    ||| v == 0x2029
    ||| v == 0x202F
    ||| v == 0x205F
    ||| v == 0x3000
}

/// ASCII decimal digit.
pub open spec fn is_digit(c: char) -> bool {
    '0' <= c <= '9'
}

/// What `char::is_alphanumeric` returns (Unicode `Alphabetic` or `Numeric`).
pub uninterp spec fn is_alphanumeric(c: char) -> bool;

/// A character that may stand in a bare `$name`: `_`, or an alphanumeric character. For
/// ASCII that is a letter or a digit; beyond ASCII it is what `char::is_alphanumeric` says.
pub open spec fn is_name_char(c: char) -> bool {
    c == '_' || if (c as u32) < 0x80 {
        is_ascii_alnum(c)
    } else {
        is_alphanumeric(c)
    }
}

/// Whether `c` has the Unicode `White_Space` property.
pub fn is_whitespace(c: char) -> (b: bool)
    ensures
        b == is_ws(c),
{
    let v = c as u32;
    (0x09 <= v && v <= 0x0D) || v == 0x20 || v == 0x85 || v == 0xA0 || v == 0x1680 || (0x2000 <= v
        && v <= 0x200A) || v == 0x2028 || v == 0x2029 || v == 0x202F || v == 0x205F || v == 0x3000
}

/// An ASCII letter or digit.
pub open spec fn is_ascii_alnum(c: char) -> bool {
    ('a' <= c <= 'z') || ('A' <= c <= 'Z') || ('0' <= c <= '9')
}

/// Calls `char::is_alphanumeric`. Its result (whether `c` has the Unicode `Alphabetic` or
/// `Numeric` property, a table lookup) depends on `c` alone and is named `is_alphanumeric`.
/// Of ASCII characters the documentation settles it: letters and digits are alphanumeric,
/// every other ASCII character is not. Nothing is claimed beyond ASCII.
#[verifier::external_body]
fn char_is_alphanumeric(c: char) -> (b: bool)
    ensures
        b == is_alphanumeric(c),
        (c as u32) < 0x80 ==> (b <==> is_ascii_alnum(c)),
{
    c.is_alphanumeric()
}

/// Index of the first character at or after `i` that is not whitespace.
pub open spec fn skip_ws(s: Seq<char>, i: int) -> int
    decreases s.len() - i,
{
    if 0 <= i < s.len() && is_ws(s[i]) {
        skip_ws(s, i + 1)
    } else {
        i
    }
}

/// The file descriptor prefix of a redirection at `i`: a digit directly followed by `<` or `>`.
pub open spec fn fd_at(s: Seq<char>, i: int) -> Option<u8> {
    if 0 <= i && i + 1 < s.len() && is_digit(s[i]) && (s[i + 1] == '>' || s[i + 1] == '<') {
        Some((s[i] as u32 - '0' as u32) as u8)
    } else {
        None
    }
}

/// The redirection operator starting at `i`, if any: its descriptor, its kind, and where it ends.
pub open spec fn redirect_at(s: Seq<char>, i: int) -> Option<(Option<u8>, RedirectOp, int)> {
    let fd = fd_at(s, i);
    let j = if fd is Some { i + 1 } else { i };
    if 0 <= j && j + 1 < s.len() && s[j] == '>' && s[j + 1] == '>' {
        Some((fd, RedirectOp::Append, j + 2))
    } else if 0 <= j < s.len() && s[j] == '>' {
        Some((fd, RedirectOp::Write, j + 1))
    } else if 0 <= j < s.len() && s[j] == '<' {
        Some((fd, RedirectOp::Read, j + 1))
    } else {
        None
    }
}

/// Reads a `${...}` variable name from `i` (just after `{`): up to and past the closing `}`,
/// or to the end of the input.
pub open spec fn braced_name(s: Seq<char>, i: int, acc: Seq<char>) -> (Seq<char>, int)
    decreases s.len() - i,
{
    if 0 <= i < s.len() {
        if s[i] == '}' {
            (acc, i + 1)
        } else {
            braced_name(s, i + 1, acc.push(s[i]))
        }
    } else {
        (acc, i)
    }
}

/// Reads a bare `$name` variable name from `i`: alphanumeric characters and `_`
/// (see `is_name_char`).
pub open spec fn bare_name(s: Seq<char>, i: int, acc: Seq<char>) -> (Seq<char>, int)
    decreases s.len() - i,
{
    if 0 <= i < s.len() && is_name_char(s[i]) {
        bare_name(s, i + 1, acc.push(s[i]))
    } else {
        (acc, i)
    }
}

/// The variable name read after a `$` at `i - 1`, and where reading stopped.
pub open spec fn var_name_at(s: Seq<char>, i: int) -> (Seq<char>, int) {
    if 0 <= i < s.len() && s[i] == '{' {
        braced_name(s, i + 1, Seq::empty())
    } else {
        bare_name(s, i, Seq::empty())
    }
}

/// The word scanner: from position `i` in quoting state `quote`, escape state `esc`,
/// with the finished parts `parts` and the literal text `cur` read so far, the token that
/// the scan produces and the position where it stops.
pub open spec fn scan_word(
    s: Seq<char>,
    i: int,
    quote: Option<char>,
    esc: bool,
    parts: Seq<PartSpec>,
    cur: Seq<char>,
) -> (TokenSpec, int)
    decreases s.len() - i,
{
    if !(0 <= i < s.len()) {
        (TokenSpec::Word(parts.push(PartSpec::Lit(cur))), i)
    } else {
        let c = s[i];
        if esc {
            scan_word(s, i + 1, quote, false, parts, cur.push(c))
        } else if c == '\\' && quote != Some('\'') {
            scan_word(s, i + 1, quote, true, parts, cur)
        } else if quote is None && (c == '\'' || c == '"') {
            scan_word(s, i + 1, Some(c), false, parts, cur)
        } else if quote == Some(c) {
            scan_word(s, i + 1, None, false, parts, cur)
        } else if quote is None && is_ws(c) {
            (TokenSpec::Word(parts.push(PartSpec::Lit(cur))), i)
        } else if quote is None && c == '&' {
            (TokenSpec::Background, i + 1)
        } else if quote is None && c == '|' {
            (TokenSpec::Pipe, i + 1)
        } else if quote is None && c == '$' {
            proof {
                lemma_var_name(s, i + 1);
            }
            let (name, j) = var_name_at(s, i + 1);
            scan_word(
                s,
                j,
                None,
                false,
                parts.push(PartSpec::Lit(cur)).push(PartSpec::Var(name)),
                Seq::empty(),
            )
        } else if quote is None && redirect_at(s, i) is Some {
            (TokenSpec::Word(parts.push(PartSpec::Lit(cur))), i)
        } else {
            scan_word(s, i + 1, quote, false, parts, cur.push(c))
        }
    }
}

/// The token read from position `p` (after skipping whitespace) and the position where it ends,
/// or `None` when only whitespace is left.
pub open spec fn lex_token(s: Seq<char>, p: int) -> Option<(TokenSpec, int)> {
    let q = skip_ws(s, p);
    if q >= s.len() {
        None
    } else {
        match redirect_at(s, q) {
            Some((fd, op, e)) => Some((TokenSpec::Redirect(fd, op), e)),
            None => Some(scan_word(s, q, None, false, Seq::empty(), Seq::empty())),
        }
    }
}

/// All tokens read from position `p` on: each with its start and end as character indices.
pub open spec fn lex_all(s: Seq<char>, p: int) -> Seq<(TokenSpec, int, int)>
    decreases s.len() - p,
{
    if 0 <= p <= s.len() {
        match lex_token(s, p) {
            None => Seq::empty(),
            Some((t, e)) => {
                proof {
                    lemma_lex_token_progress(s, p);
                }
                seq![(t, p, e)] + lex_all(s, e)
            },
        }
    } else {
        Seq::empty()
    }
}

/// The tokens of `s` with their byte ranges, as `Tokenizer::tokenize` returns them.
pub open spec fn tokenize_spec(s: Seq<char>) -> Seq<(TokenSpec, nat, nat)> {
    with_bytes(s, lex_all(s, 0))
}

/// The kinds of the tokens of `s`, without their ranges.
pub open spec fn line_tokens(s: Seq<char>) -> Seq<TokenSpec> {
    lex_all(s, 0).map_values(|x: (TokenSpec, int, int)| x.0)
}

/// Skipping whitespace stays within the input, passes only whitespace, and stops on a
/// non-whitespace character.
pub proof fn lemma_skip_ws(s: Seq<char>, i: int)
    requires
        0 <= i <= s.len(),
    ensures
        i <= skip_ws(s, i) <= s.len(),
        skip_ws(s, i) < s.len() ==> !is_ws(s[skip_ws(s, i)]),
        forall|k: int| i <= k < skip_ws(s, i) ==> is_ws(s[k]),
    decreases s.len() - i,
{
    if i < s.len() && is_ws(s[i]) {
        lemma_skip_ws(s, i + 1);
    }
}

/// Reading a braced variable name never moves backwards and stays within the input.
pub proof fn lemma_braced_name(s: Seq<char>, i: int, acc: Seq<char>)
    requires
        0 <= i,
    ensures
        i <= braced_name(s, i, acc).1,
        braced_name(s, i, acc).1 <= s.len() || braced_name(s, i, acc).1 == i,
    decreases s.len() - i,
{
    if 0 <= i < s.len() && s[i] != '}' {
        lemma_braced_name(s, i + 1, acc.push(s[i]));
    }
}

/// Reading a bare variable name never moves backwards and stays within the input.
pub proof fn lemma_bare_name(s: Seq<char>, i: int, acc: Seq<char>)
    requires
        0 <= i,
    ensures
        i <= bare_name(s, i, acc).1,
        bare_name(s, i, acc).1 <= s.len() || bare_name(s, i, acc).1 == i,
    decreases s.len() - i,
{
    if 0 <= i < s.len() && is_name_char(s[i]) {
        lemma_bare_name(s, i + 1, acc.push(s[i]));
    }
}

/// Reading a variable name never moves backwards and stays within the input.
pub proof fn lemma_var_name(s: Seq<char>, i: int)
    requires
        0 <= i <= s.len(),
    ensures
        i <= var_name_at(s, i).1 <= s.len(),
{
    if 0 <= i < s.len() && s[i] == '{' {
        lemma_braced_name(s, i + 1, Seq::empty());
    } else {
        lemma_bare_name(s, i, Seq::empty());
    }
}

/// Scanning a word never moves backwards and stays within the input.
pub proof fn lemma_scan_word_bounds(
    s: Seq<char>,
    i: int,
    quote: Option<char>,
    esc: bool,
    parts: Seq<PartSpec>,
    cur: Seq<char>,
)
    requires
        0 <= i <= s.len(),
    ensures
        i <= scan_word(s, i, quote, esc, parts, cur).1 <= s.len(),
    decreases s.len() - i,
{
    if 0 <= i < s.len() {
        let c = s[i];
        if esc {
            lemma_scan_word_bounds(s, i + 1, quote, false, parts, cur.push(c));
        } else if c == '\\' && quote != Some('\'') {
            lemma_scan_word_bounds(s, i + 1, quote, true, parts, cur);
        } else if quote is None && (c == '\'' || c == '"') {
            lemma_scan_word_bounds(s, i + 1, Some(c), false, parts, cur);
        } else if quote == Some(c) {
            lemma_scan_word_bounds(s, i + 1, None, false, parts, cur);
        } else if quote is None && is_ws(c) {
        } else if quote is None && c == '&' {
        } else if quote is None && c == '|' {
        } else if quote is None && c == '$' {
            lemma_var_name(s, i + 1);
            let (name, j) = var_name_at(s, i + 1);
            lemma_scan_word_bounds(
                s,
                j,
                None,
                false,
                parts.push(PartSpec::Lit(cur)).push(PartSpec::Var(name)),
                Seq::empty(),
            );
        } else if quote is None && redirect_at(s, i) is Some {
        } else {
            lemma_scan_word_bounds(s, i + 1, quote, false, parts, cur.push(c));
        }
    }
}

/// A token that is read always consumes at least one character.
pub proof fn lemma_lex_token_progress(s: Seq<char>, p: int)
    requires
        0 <= p <= s.len(),
    ensures
        lex_token(s, p) matches Some((t, e)) ==> p < e <= s.len(),
        lex_token(s, p) is None ==> skip_ws(s, p) == s.len(),
{
    lemma_skip_ws(s, p);
    let q = skip_ws(s, p);
    if q < s.len() {
        if redirect_at(s, q) is None {
            let c = s[q];
            let e = Seq::<PartSpec>::empty();
            let z = Seq::<char>::empty();
            if c == '\\' {
                lemma_scan_word_bounds(s, q + 1, None, true, e, z);
            } else if c == '\'' || c == '"' {
                lemma_scan_word_bounds(s, q + 1, Some(c), false, e, z);
            } else if c == '$' {
                lemma_var_name(s, q + 1);
                let (name, j) = var_name_at(s, q + 1);
                lemma_scan_word_bounds(
                    s,
                    j,
                    None,
                    false,
                    e.push(PartSpec::Lit(z)).push(PartSpec::Var(name)),
                    Seq::empty(),
                );
            } else if c != '&' && c != '|' {
                lemma_scan_word_bounds(s, q + 1, None, false, e, z.push(c));
            }
        }
    }
}


/// The tokens of a lexing run with their character indices turned into byte offsets of `s`.
pub open spec fn with_bytes(s: Seq<char>, toks: Seq<(TokenSpec, int, int)>) -> Seq<(TokenSpec, nat, nat)> {
    toks.map_values(|x: (TokenSpec, int, int)| (x.0, byte_offset(s, x.1), byte_offset(s, x.2)))
}

/// Matching a one-character literal at `i` means reading that character there.
pub proof fn lemma_match_one(s: Seq<char>, i: int, a: char)
    requires
        0 <= i,
    ensures
        (i + 1 <= s.len() && s.subrange(i, i + 1) =~= seq![a]) <==> (i < s.len() && s[i] == a),
{
    if i < s.len() && s[i] == a {
        assert(s.subrange(i, i + 1) =~= seq![a]);
    }
    if i + 1 <= s.len() && s.subrange(i, i + 1) =~= seq![a] {
        assert(s.subrange(i, i + 1)[0] == s[i]);
    }
}

/// Matching a two-character literal at `i` means reading those two characters there.
pub proof fn lemma_match_two(s: Seq<char>, i: int, a: char, b: char)
    requires
        0 <= i,
    ensures
        (i + 2 <= s.len() && s.subrange(i, i + 2) =~= seq![a, b]) <==> (i + 1 < s.len() && s[i]
            == a && s[i + 1] == b),
{
    if i + 1 < s.len() && s[i] == a && s[i + 1] == b {
        assert(s.subrange(i, i + 2) =~= seq![a, b]);
    }
    if i + 2 <= s.len() && s.subrange(i, i + 2) =~= seq![a, b] {
        assert(s.subrange(i, i + 2)[0] == s[i]);
        assert(s.subrange(i, i + 2)[1] == s[i + 1]);
    }
}

/// A lexer over a line of shell input.
pub struct Tokenizer {
    input: Vec<char>,
    position: usize,
    byte_position: usize,
}

impl Tokenizer {
    /// The characters being tokenized.
    pub closed spec fn text(&self) -> Seq<char> {
        self.input@
    }

    /// The current position, as a character index into `text()`.
    pub closed spec fn pos(&self) -> int {
        self.position as int
    }

    /// Internal consistency of the position fields.
    pub closed spec fn wf(&self) -> bool {
        &&& self.position <= self.input.len()
        &&& self.byte_position == byte_offset(self.input@, self.position as int)
        &&& byte_len(self.input@) <= usize::MAX
    }

    /// Starts tokenizing `input` from its beginning.
    pub fn new(input: String) -> (t: Self)
        ensures
            t.wf(),
            t.text() == input@,
            t.pos() == 0,
    {
        let _n = input.as_str().as_bytes().len();
        let chars = chars_of(input.as_str());
        assert(chars@.take(0) =~= Seq::<char>::empty());
        assert(vstd::utf8::encode_utf8(Seq::<char>::empty()) =~= Seq::<u8>::empty());
        Self { input: chars, position: 0, byte_position: 0 }
    }

    /// The character at the current position, if any.
    fn peek(&self) -> (r: Option<char>)
        requires
            self.wf(),
        ensures
            r == (if self.pos() < self.text().len() {
                Some(self.text()[self.pos()])
            } else {
                None::<char>
            }),
    {
        if self.position < self.input.len() {
            Some(self.input[self.position])
        } else {
            None
        }
    }

    /// Whether the input continues with `pat` at the current position.
    fn starts_with(&self, pat: &str) -> (r: bool)
        requires
            self.wf(),
        ensures
            r == (self.pos() + pat@.len() <= self.text().len() && self.text().subrange(
                self.pos(),
                self.pos() + pat@.len(),
            ) =~= pat@),
    {
        let p = chars_of(pat);
        if self.input.len() - self.position < p.len() {
            return false;
        }
        let mut k: usize = 0;
        while k < p.len()
            invariant
                self.wf(),
                p@ == pat@,
                self.position + p.len() <= self.input.len(),
                k <= p.len(),
                forall|j: int| 0 <= j < k ==> self.input@[self.position + j] == p@[j],
            decreases p.len() - k,
        {
            if self.input[self.position + k] != p[k] {
                assert(self.text().subrange(self.pos(), self.pos() + pat@.len())[k as int] != pat@[k as int]);
                return false;
            }
            k = k + 1;
        }
        true
    }

    /// Moves past the character `c` at the current position.
    fn advance_char(&mut self, c: char)
        requires
            old(self).wf(),
            old(self).pos() < old(self).text().len(),
            c == old(self).text()[old(self).pos()],
        ensures
            final(self).wf(),
            final(self).text() == old(self).text(),
            final(self).pos() == old(self).pos() + 1,
    {
        proof {
            lemma_byte_offset_step(self.input@, self.position as int);
            lemma_byte_offset_bound(self.input@, self.position + 1);
        }
        self.byte_position = self.byte_position + char_len_utf8(c);
        self.position = self.position + 1;
    }

    /// Moves past whitespace.
    fn skip_whitespace(&mut self)
        requires
            old(self).wf(),
        ensures
            final(self).wf(),
            final(self).text() == old(self).text(),
            final(self).pos() == skip_ws(old(self).text(), old(self).pos()),
    {
        let ghost s = self.input@;
        let ghost p0 = self.position as int;
        loop
            invariant
                self.wf(),
                self.input@ == s,
                p0 <= self.pos(),
                skip_ws(s, p0) == skip_ws(s, self.pos()),
            ensures
                self.wf(),
                self.input@ == s,
                self.pos() == skip_ws(s, p0),
            decreases s.len() - self.pos(),
        {
            match self.peek() {
                Some(c) => {
                    if !is_whitespace(c) {
                        break;
                    }
                    self.advance_char(c);
                },
                None => {
                    break;
                },
            }
        }
    }

    /// Reads a descriptor digit when a `<` or `>` follows it; otherwise stays put.
    fn try_take_fd(&mut self) -> (r: Option<u8>)
        requires
            old(self).wf(),
        ensures
            final(self).wf(),
            final(self).text() == old(self).text(),
            r == fd_at(old(self).text(), old(self).pos()),
            final(self).pos() == old(self).pos() + (if r is Some {
                1int
            } else {
                0int
            }),
    {
        let start = self.position;
        let start_bytes = self.byte_position;
        let c = match self.peek() {
            Some(c) => c,
            None => {
                return None;
            },
        };
        if !('0' <= c && c <= '9') {
            return None;
        }
        self.advance_char(c);
        proof {
            reveal_strlit(">");
            reveal_strlit("<");
            assert(">"@ =~= seq!['>']);
            assert("<"@ =~= seq!['<']);
            lemma_match_one(self.input@, self.pos(), '>');
            lemma_match_one(self.input@, self.pos(), '<');
        }
        if self.starts_with(">") || self.starts_with("<") {
            Some(((c as u32) - ('0' as u32)) as u8)
        } else {
            self.position = start;
            self.byte_position = start_bytes;
            None
        }
    }

    /// Reads a redirection operator with its optional descriptor; otherwise stays put.
    fn try_redirect(&mut self) -> (r: Option<Token>)
        requires
            old(self).wf(),
        ensures
            final(self).wf(),
            final(self).text() == old(self).text(),
            match redirect_at(old(self).text(), old(self).pos()) {
                Some((fd, op, e)) => r matches Some(t) && t@ == TokenSpec::Redirect(fd, op)
                    && final(self).pos() == e,
                None => r is None && final(self).pos() == old(self).pos(),
            },
    {
        let start = self.position;
        let start_bytes = self.byte_position;
        let ghost s = self.input@;
        let fd = self.try_take_fd();
        proof {
            reveal_strlit(">>");
            reveal_strlit(">");
            reveal_strlit("<");
            assert(">>"@ =~= seq!['>', '>']);
            assert(">"@ =~= seq!['>']);
            assert("<"@ =~= seq!['<']);
            lemma_match_two(s, self.pos(), '>', '>');
            lemma_match_one(s, self.pos(), '>');
            lemma_match_one(s, self.pos(), '<');
            lemma_byte_offset_bound(s, self.position as int);
        }
        let op = if self.starts_with(">>") {
            proof {
                lemma_byte_offset_step(s, self.position as int);
                lemma_byte_offset_step(s, self.position + 1);
                lemma_byte_offset_bound(s, self.position + 2);
            }
            self.position = self.position + 2;
            self.byte_position = self.byte_position + 2;
            Some(RedirectOp::Append)
        } else if self.starts_with(">") {
            proof {
                lemma_byte_offset_step(s, self.position as int);
                lemma_byte_offset_bound(s, self.position + 1);
            }
            self.position = self.position + 1;
            self.byte_position = self.byte_position + 1;
            Some(RedirectOp::Write)
        } else if self.starts_with("<") {
            proof {
                lemma_byte_offset_step(s, self.position as int);
                lemma_byte_offset_bound(s, self.position + 1);
            }
            self.position = self.position + 1;
            self.byte_position = self.byte_position + 1;
            Some(RedirectOp::Read)
        } else {
            None
        };
        match op {
            Some(op) => Some(Token::Redirect { fd, op }),
            None => {
                self.position = start;
                self.byte_position = start_bytes;
                None
            },
        }
    }

    /// Reads the name of a `$` variable; the position is just after the `$`.
    fn read_var_name(&mut self) -> (name: String)
        requires
            old(self).wf(),
        ensures
            final(self).wf(),
            final(self).text() == old(self).text(),
            (name@, final(self).pos()) == var_name_at(old(self).text(), old(self).pos()),
    {
        let ghost s = self.input@;
        let mut var_name = String::new();
        if let Some(next) = self.peek() {
            if next == '{' {
                self.advance_char(next);
                let ghost k0 = self.pos();
                loop
                    invariant_except_break
                        braced_name(s, k0, Seq::empty()) == braced_name(s, self.pos(), var_name@),
                    invariant
                        self.wf(),
                        self.input@ == s,
                        k0 <= self.pos(),
                    ensures
                        self.wf(),
                        self.input@ == s,
                        braced_name(s, k0, Seq::empty()) == (var_name@, self.pos()),
                    decreases s.len() - self.pos(),
                {
                    match self.peek() {
                        Some(c) => {
                            if c == '}' {
                                self.advance_char(c);
                                break;
                            }
                            push_char(&mut var_name, c);
                            self.advance_char(c);
                        },
                        None => {
                            break;
                        },
                    }
                }
                return var_name;
            }
        }
        let ghost k0 = self.pos();
        loop
            invariant
                self.wf(),
                self.input@ == s,
                k0 <= self.pos(),
                bare_name(s, k0, Seq::empty()) == bare_name(s, self.pos(), var_name@),
            ensures
                self.wf(),
                self.input@ == s,
                bare_name(s, k0, Seq::empty()) == (var_name@, self.pos()),
            decreases s.len() - self.pos(),
        {
            match self.peek() {
                Some(c) => {
                    if char_is_alphanumeric(c) || c == '_' {
                        push_char(&mut var_name, c);
                        self.advance_char(c);
                    } else {
                        break;
                    }
                },
                None => {
                    break;
                },
            }
        }
        var_name
    }

    /// Reads the next token, skipping the whitespace before it. The token's byte range starts
    /// where this call started (before the whitespace) and ends where the token ends.
    /// Returns `None` when only whitespace is left.
    pub fn next_token(&mut self) -> (r: Option<LexedToken>)
        requires
            old(self).wf(),
        ensures
            final(self).wf(),
            final(self).text() == old(self).text(),
            match lex_token(old(self).text(), old(self).pos()) {
                None => r is None && final(self).pos() == skip_ws(old(self).text(), old(self).pos()),
                Some((t, e)) => r matches Some(lt) && lt@ == (t, byte_offset(
                    old(self).text(),
                    old(self).pos(),
                ), byte_offset(old(self).text(), e)) && final(self).pos() == e,
            },
    {
        let ghost s = self.input@;
        let ghost p0 = self.pos();
        let start = self.byte_position;
        self.skip_whitespace();
        let ghost q = self.pos();
        if self.position >= self.input.len() {
            return None;
        }
        if let Some(redirect) = self.try_redirect() {
            return Some(LexedToken { token: redirect, start, end: self.byte_position });
        }
        proof {
            lemma_skip_ws(s, p0);
        }
        let mut quote: Option<char> = None;
        let mut escape = false;
        let mut word = Word::new();
        let mut word_part = String::new();
        assert(word@ =~= Seq::<PartSpec>::empty());
        loop
            invariant
                self.wf(),
                self.input@ == s,
                s == old(self).text(),
                p0 == old(self).pos(),
                q <= self.pos(),
                start == byte_offset(s, p0),
                lex_token(s, p0) == Some(scan_word(s, q, None, false, Seq::empty(), Seq::empty())),
                scan_word(s, q, None, false, Seq::empty(), Seq::empty()) == scan_word(
                    s,
                    self.pos(),
                    quote,
                    escape,
                    word@,
                    word_part@,
                ),
            ensures
                self.wf(),
                self.input@ == s,
                lex_token(s, p0) == Some(scan_word(s, q, None, false, Seq::empty(), Seq::empty())),
                scan_word(s, q, None, false, Seq::empty(), Seq::empty()) == (TokenSpec::Word(
                    word@.push(PartSpec::Lit(word_part@)),
                ), self.pos()),
                start == byte_offset(s, p0),
            decreases s.len() - self.pos(),
        {
            let c = match self.peek() {
                Some(c) => c,
                None => {
                    break;
                },
            };
            if escape {
                push_char(&mut word_part, c);
                self.advance_char(c);
                escape = false;
                continue;
            }
            let in_single = match quote {
                Some(qc) => qc == '\'',
                None => false,
            };
            if c == '\\' && !in_single {
                self.advance_char(c);
                escape = true;
                continue;
            }
            if quote.is_none() && (c == '\'' || c == '"') {
                quote = Some(c);
                self.advance_char(c);
                continue;
            }
            let closes = match quote {
                Some(qc) => qc == c,
                None => false,
            };
            if closes {
                quote = None;
                self.advance_char(c);
                continue;
            }
            if quote.is_none() {
                if is_whitespace(c) {
                    break;
                }
                if c == '&' {
                    self.advance_char(c);
                    return Some(
                        LexedToken { token: Token::Background, start, end: self.byte_position },
                    );
                }
                if c == '|' {
                    self.advance_char(c);
                    return Some(LexedToken { token: Token::Pipe, start, end: self.byte_position });
                }
                if c == '$' {
                    let ghost old_parts = word@;
                    let ghost old_cur = word_part@;
                    word.parts.push(WordPart::Literal(word_part));
                    word_part = String::new();
                    self.advance_char(c);
                    proof {
                        lemma_var_name(s, self.pos());
                    }
                    let var_name = self.read_var_name();
                    word.parts.push(WordPart::Variable(var_name));
                    assert(word@ =~= old_parts.push(PartSpec::Lit(old_cur)).push(
                        PartSpec::Var(var_name@),
                    ));
                    continue;
                }
                let here = self.position;
                let here_bytes = self.byte_position;
                let is_redirect = self.try_redirect().is_some();
                self.position = here;
                self.byte_position = here_bytes;
                if is_redirect {
                    break;
                }
            }
            push_char(&mut word_part, c);
            self.advance_char(c);
        }
        let ghost old_parts = word@;
        word.parts.push(WordPart::Literal(word_part));
        assert(word@ =~= old_parts.push(PartSpec::Lit(word_part@)));
        Some(LexedToken { token: Token::Str(word), start, end: self.byte_position })
    }

    /// Reads all remaining tokens.
    pub fn tokenize(&mut self) -> (tokens: Vec<LexedToken>)
        requires
            old(self).wf(),
        ensures
            final(self).wf(),
            final(self).text() == old(self).text(),
            final(self).pos() == old(self).text().len(),
            tokens@.map_values(|t: LexedToken| t@) == with_bytes(
                old(self).text(),
                lex_all(old(self).text(), old(self).pos()),
            ),
    {
        let ghost s = self.input@;
        let ghost p0 = self.pos();
        let mut tokens: Vec<LexedToken> = Vec::new();
        let ghost mut done: Seq<(TokenSpec, int, int)> = Seq::empty();
        loop
            invariant
                self.wf(),
                self.input@ == s,
                0 <= self.pos() <= s.len(),
                done + lex_all(s, self.pos()) == lex_all(s, p0),
                tokens@.map_values(|t: LexedToken| t@) == with_bytes(s, done),
            ensures
                self.wf(),
                self.input@ == s,
                self.pos() == s.len(),
                tokens@.map_values(|t: LexedToken| t@) == with_bytes(s, lex_all(s, p0)),
            decreases s.len() - self.pos(),
        {
            let ghost before = self.pos();
            proof {
                lemma_lex_token_progress(s, before);
            }
            match self.next_token() {
                Some(token) => {
                    let ghost tv = token@;
                    proof {
                        let (t, e) = lex_token(s, before).unwrap();
                        assert(lex_all(s, before) == seq![(t, before, e)] + lex_all(s, e));
                        assert(done + lex_all(s, before) =~= done.push((t, before, e)) + lex_all(s, e));
                        assert(with_bytes(s, done.push((t, before, e))).drop_last() =~= with_bytes(s, done));
                        done = done.push((t, before, e));
                    }
                    let ghost prev = tokens@;
                    tokens.push(token);
                    assert(tokens@ == prev.push(token));
                    assert(tokens@.map_values(|t: LexedToken| t@) =~= prev.map_values(
                        |t: LexedToken| t@,
                    ).push(tv));
                    assert(with_bytes(s, done) =~= with_bytes(s, done.drop_last()).push(tv));
                },
                None => {
                    proof {
                        assert(done =~= done + lex_all(s, before));
                    }
                    break;
                },
            }
        }
        tokens
    }
}

/// The lexer's tokens tile the input from `p` on: there are none exactly when only
/// whitespace is left; otherwise the first starts at `p`, each is non-empty, each starts where
/// the one before ended, and only whitespace follows the last. From the end nothing is read.
pub proof fn lemma_lex_all_tiles(s: Seq<char>, p: int)
    requires
        0 <= p <= s.len(),
    ensures
        lex_all(s, s.len() as int).len() == 0,
        lex_all(s, p).len() == 0 <==> (forall|k: int| p <= k < s.len() ==> is_ws(s[k])),
        lex_all(s, p).len() > 0 ==> lex_all(s, p)[0].1 == p,
        forall|i: int|
            0 <= i < lex_all(s, p).len() ==> p <= (#[trigger] lex_all(s, p)[i]).1 < lex_all(s, p)[i].2
                <= s.len(),
        forall|i: int|
            0 <= i < lex_all(s, p).len() - 1 ==> (#[trigger] lex_all(s, p)[i]).2 == lex_all(s, p)[i
                + 1].1,
        lex_all(s, p).len() > 0 ==> forall|k: int|
            lex_all(s, p).last().2 <= k < s.len() ==> is_ws(s[k]),
    decreases s.len() - p,
{
    lemma_skip_ws(s, s.len() as int);
    lemma_skip_ws(s, p);
    lemma_lex_token_progress(s, p);
    let t = lex_all(s, p);
    match lex_token(s, p) {
        None => {},
        Some((tok, e)) => {
            lemma_lex_all_tiles(s, e);
            let r = lex_all(s, e);
            assert(t == seq![(tok, p, e)] + r);
            let q = skip_ws(s, p);
            assert(q < s.len() && !is_ws(s[q]));
            assert forall|i: int| 0 <= i < t.len() implies p <= (#[trigger] t[i]).1 < t[i].2 <= s.len() by {
                if i > 0 {
                    assert(t[i] == r[i - 1]);
                }
            }
            assert forall|i: int| 0 <= i < t.len() - 1 implies (#[trigger] t[i]).2 == t[i + 1].1 by {
                if i > 0 {
                    assert(t[i] == r[i - 1]);
                    assert(t[i + 1] == r[i]);
                } else {
                    assert(t[1] == r[0]);
                }
            }
            if r.len() > 0 {
                assert(t.last() == r.last());
            }
        },
    }
}

/// The byte ranges that `tokenize` gives tile the input: none exactly when the input is all
/// whitespace; otherwise the first starts at 0, each is non-empty, each starts where the one
/// before ended, and only whitespace lies after the last.
pub proof fn lemma_tokenize_tiles(s: Seq<char>)
    ensures
        tokenize_spec(s).len() == 0 <==> (forall|k: int| 0 <= k < s.len() ==> is_ws(s[k])),
        tokenize_spec(s).len() > 0 ==> tokenize_spec(s)[0].1 == 0,
        forall|i: int|
            0 <= i < tokenize_spec(s).len() ==> (#[trigger] tokenize_spec(s)[i]).1 < tokenize_spec(
                s,
            )[i].2 <= byte_len(s),
        forall|i: int|
            0 <= i < tokenize_spec(s).len() - 1 ==> (#[trigger] tokenize_spec(s)[i]).2
                == tokenize_spec(s)[i + 1].1,
        tokenize_spec(s).len() > 0 ==> forall|k: int|
            0 <= k < s.len() && byte_offset(s, k) >= tokenize_spec(s).last().2 ==> is_ws(s[k]),
{
    lemma_lex_all_tiles(s, 0);
    let t = lex_all(s, 0);
    let v = tokenize_spec(s);
    assert(v.len() == t.len());
    assert forall|i: int| 0 <= i < v.len() implies (#[trigger] v[i]).1 < v[i].2 <= byte_len(s) by {
        assert(v[i] == (t[i].0, byte_offset(s, t[i].1), byte_offset(s, t[i].2)));
        lemma_byte_offset_strict(s, t[i].1, t[i].2);
    }
    assert forall|i: int| 0 <= i < v.len() - 1 implies (#[trigger] v[i]).2 == v[i + 1].1 by {
        assert(t[i].2 == t[i + 1].1);
    }
    if v.len() > 0 {
        assert(s.take(0) =~= Seq::<char>::empty());
        assert(v[0].1 == byte_offset(s, 0));
        let e = t.last().2;
        assert(v.last() == v[v.len() - 1]);
        assert(v.last().2 == byte_offset(s, e));
        assert forall|k: int| 0 <= k < s.len() && byte_offset(s, k) >= v.last().2 implies is_ws(
            s[k],
        ) by {
            if k < e {
                lemma_byte_offset_strict(s, k, e);
            }
        }
    }
}

/// A later character index has a larger byte offset, at most the byte length of the whole.
proof fn lemma_byte_offset_strict(s: Seq<char>, i: int, j: int)
    requires
        0 <= i < j <= s.len(),
    ensures
        byte_offset(s, i) < byte_offset(s, j) <= byte_len(s),
    decreases j - i,
{
    lemma_byte_offset_step(s, j - 1);
    lemma_byte_offset_bound(s, j);
    if i < j - 1 {
        lemma_byte_offset_strict(s, i, j - 1);
    }
}

} // verus!

verus! {

/// A character that a word takes as it is, whatever comes next, and that cannot start or end
/// a token: not whitespace, not a quote, `\`, `$`, `&`, `|`, `<` or `>`.
pub open spec fn is_plain(c: char) -> bool {
    !is_ws(c) && c != '\'' && c != '"' && c != '\\' && c != '$' && c != '&' && c != '|' && c
        != '<' && c != '>'
}

/// How a redirection operator without a descriptor is written.
pub open spec fn operator_text(op: RedirectOp) -> Seq<char> {
    match op {
        RedirectOp::Read => seq!['<'],
        RedirectOp::Write => seq!['>'],
        RedirectOp::Append => seq!['>', '>'],
    }
}

/// The kinds of the tokens that `Tokenizer::tokenize` returns for `s`.
pub open spec fn token_kinds(s: Seq<char>) -> Seq<TokenSpec> {
    tokenize_spec(s).map_values(|x: (TokenSpec, nat, nat)| x.0)
}

/// Reading plain characters outside quotes adds them to the literal text and nothing else.
proof fn lemma_plain_run(s: Seq<char>, i: int, j: int, parts: Seq<PartSpec>, cur: Seq<char>)
    requires
        0 <= i <= j <= s.len(),
        forall|k: int| i <= k < j ==> is_plain(#[trigger] s[k]) && redirect_at(s, k) is None,
    ensures
        scan_word(s, i, None, false, parts, cur) == scan_word(
            s,
            j,
            None,
            false,
            parts,
            cur + s.subrange(i, j),
        ),
    decreases j - i,
{
    if i < j {
        let c = s[i];
        assert(is_plain(s[i]) && redirect_at(s, i) is None);
        assert(scan_word(s, i, None, false, parts, cur) == scan_word(
            s,
            i + 1,
            None,
            false,
            parts,
            cur.push(c),
        ));
        lemma_plain_run(s, i + 1, j, parts, cur.push(c));
        assert(cur.push(c) + s.subrange(i + 1, j) =~= cur + s.subrange(i, j));
    } else {
        assert(cur + s.subrange(i, j) =~= cur);
    }
}

/// Inside quotes `q`, every character other than `q` (and, between double quotes, other
/// than `\`) is added to the literal text as it is.
proof fn lemma_quoted_run(
    s: Seq<char>,
    i: int,
    j: int,
    q: char,
    parts: Seq<PartSpec>,
    cur: Seq<char>,
)
    requires
        0 <= i <= j <= s.len(),
        q == '\'' || q == '"',
        forall|k: int| i <= k < j ==> #[trigger] s[k] != q && (q == '"' ==> s[k] != '\\'),
    ensures
        scan_word(s, i, Some(q), false, parts, cur) == scan_word(
            s,
            j,
            Some(q),
            false,
            parts,
            cur + s.subrange(i, j),
        ),
    decreases j - i,
{
    if i < j {
        let c = s[i];
        assert(s[i] != q);
        assert(scan_word(s, i, Some(q), false, parts, cur) == scan_word(
            s,
            i + 1,
            Some(q),
            false,
            parts,
            cur.push(c),
        ));
        lemma_quoted_run(s, i + 1, j, q, parts, cur.push(c));
        assert(cur.push(c) + s.subrange(i + 1, j) =~= cur + s.subrange(i, j));
    } else {
        assert(cur + s.subrange(i, j) =~= cur);
    }
}

/// From the end of the input no token is read.
proof fn lemma_lex_all_at_end(s: Seq<char>)
    ensures
        lex_all(s, s.len() as int) == Seq::<(TokenSpec, int, int)>::empty(),
{
    assert(skip_ws(s, s.len() as int) == s.len());
}

/// The kinds of `tokenize`'s tokens are those of the lexing run from the start.
proof fn lemma_token_kinds(s: Seq<char>)
    ensures
        token_kinds(s) == lex_all(s, 0).map_values(|x: (TokenSpec, int, int)| x.0),
{
    assert(token_kinds(s) =~= lex_all(s, 0).map_values(|x: (TokenSpec, int, int)| x.0));
}

/// How a descriptor before a redirection operator is written: one decimal digit, or nothing.
pub open spec fn fd_text(fd: Option<u8>) -> Seq<char> {
    match fd {
        Some(n) => seq![('0' as u32 + n) as char],
        None => Seq::empty(),
    }
}

/// A redirection operator ends the word before it: for words `a` and `b` of plain characters
/// (`a` not ending in a digit, which would be read as the operator's descriptor), the line
/// `a` `fd op` `b` written without spaces, with an optional one-digit descriptor `fd`, gives
/// three tokens: the word `a`, the redirection `op` on `fd`, and the word `b`. No word keeps
/// the operator or its descriptor in its text.
pub proof fn lemma_redirect_ends_word(a: Seq<char>, fd: Option<u8>, op: RedirectOp, b: Seq<char>)
    requires
        a.len() > 0,
        b.len() > 0,
        forall|k: int| 0 <= k < a.len() ==> is_plain(#[trigger] a[k]),
        forall|k: int| 0 <= k < b.len() ==> is_plain(#[trigger] b[k]),
        !is_digit(a.last()),
        fd matches Some(n) ==> n <= 9,
    ensures
        token_kinds(a + fd_text(fd) + operator_text(op) + b) == seq![
            TokenSpec::Word(seq![PartSpec::Lit(a)]),
            TokenSpec::Redirect(fd, op),
            TokenSpec::Word(seq![PartSpec::Lit(b)]),
        ],
{
    let r = fd_text(fd) + operator_text(op);
    let s = a + fd_text(fd) + operator_text(op) + b;
    assert(s =~= a + r + b);
    let la = a.len() as int;
    let lf = fd_text(fd).len() as int;
    let e = la + r.len();
    let n = s.len() as int;
    assert(s.subrange(0, la) =~= a);
    assert(s.subrange(e, n) =~= b);
    assert forall|k: int| 0 <= k < la implies is_plain(#[trigger] s[k]) && redirect_at(s, k) is None by {
        assert(s[k] == a[k]);
        if k + 1 < la {
            assert(s[k + 1] == a[k + 1]);
        }
    }
    assert forall|k: int| e <= k < n implies is_plain(#[trigger] s[k]) && redirect_at(s, k) is None by {
        assert(s[k] == b[k - e]);
        if k + 1 < n {
            assert(s[k + 1] == b[k + 1 - e]);
        }
    }
    // the word `a`
    assert(s[0] == a[0]);
    assert(skip_ws(s, 0) == 0);
    lemma_plain_run(s, 0, la, Seq::empty(), Seq::empty());
    assert(Seq::<char>::empty() + s.subrange(0, la) =~= a);
    assert(s[la] == r[0]);
    assert(s[la + lf] == operator_text(op)[0]);
    if operator_text(op).len() == 2 {
        assert(s[la + lf + 1] == operator_text(op)[1]);
    }
    assert(s[e] == b[0]);
    match fd {
        Some(d) => {
            assert(s[la] == ('0' as u32 + d) as char);
            assert(fd_at(s, la) == Some(d));
        },
        None => {
            assert(fd_at(s, la) is None);
        },
    }
    assert(redirect_at(s, la) == Some((fd, op, e)));
    assert(scan_word(s, la, None, false, Seq::empty(), a) == (
        TokenSpec::Word(seq![PartSpec::Lit(a)]),
        la,
    ));
    assert(lex_token(s, 0) == Some((TokenSpec::Word(seq![PartSpec::Lit(a)]), la)));
    // the operator
    assert(skip_ws(s, la) == la);
    assert(lex_token(s, la) == Some((TokenSpec::Redirect(fd, op), e)));
    // the word `b`
    assert(skip_ws(s, e) == e);
    lemma_plain_run(s, e, n, Seq::empty(), Seq::empty());
    assert(Seq::<char>::empty() + s.subrange(e, n) =~= b);
    assert(scan_word(s, n, None, false, Seq::empty(), b) == (
        TokenSpec::Word(seq![PartSpec::Lit(b)]),
        n,
    ));
    assert(lex_token(s, e) == Some((TokenSpec::Word(seq![PartSpec::Lit(b)]), n)));
    lemma_lex_all_at_end(s);
    let t = lex_all(s, 0);
    assert(lex_all(s, e) == seq![(TokenSpec::Word(seq![PartSpec::Lit(b)]), e, n)]
        + lex_all(s, n));
    assert(lex_all(s, la) == seq![(TokenSpec::Redirect(fd, op), la, e)] + lex_all(s, e));
    assert(t == seq![(TokenSpec::Word(seq![PartSpec::Lit(a)]), 0, la)] + lex_all(s, la));
    lemma_token_kinds(s);
    assert(token_kinds(s) =~= seq![
        TokenSpec::Word(seq![PartSpec::Lit(a)]),
        TokenSpec::Redirect(fd, op),
        TokenSpec::Word(seq![PartSpec::Lit(b)]),
    ]);
}

/// Quoted text is one word, taken literally: for a quote `q` and a text `t` without `q`
/// (and, between double quotes, without `\`, which escapes there), the line `q t q` gives
/// exactly one word whose text is `t`. Whitespace, the other quote character, `$`, `|`, `&`,
/// `<`, `>` and, between single quotes, `\` are all kept as they are.
pub proof fn lemma_quoted_text_is_literal(q: char, t: Seq<char>)
    requires
        q == '\'' || q == '"',
        forall|k: int| 0 <= k < t.len() ==> #[trigger] t[k] != q,
        q == '"' ==> forall|k: int| 0 <= k < t.len() ==> #[trigger] t[k] != '\\',
    ensures
        token_kinds(seq![q] + t + seq![q]) == seq![TokenSpec::Word(seq![PartSpec::Lit(t)])],
{
    let s = seq![q] + t + seq![q];
    let n = s.len() as int;
    assert(s[0] == q);
    assert(s[n - 1] == q);
    assert(skip_ws(s, 0) == 0);
    assert(redirect_at(s, 0) is None);
    assert forall|k: int| 1 <= k < n - 1 implies #[trigger] s[k] != q && (q == '"' ==> s[k]
        != '\\') by {
        assert(s[k] == t[k - 1]);
    }
    assert(scan_word(s, 0, None, false, Seq::empty(), Seq::empty()) == scan_word(
        s,
        1,
        Some(q),
        false,
        Seq::empty(),
        Seq::empty(),
    ));
    lemma_quoted_run(s, 1, n - 1, q, Seq::empty(), Seq::empty());
    assert(Seq::<char>::empty() + s.subrange(1, n - 1) =~= t);
    assert(scan_word(s, n - 1, Some(q), false, Seq::empty(), t) == scan_word(
        s,
        n,
        None,
        false,
        Seq::empty(),
        t,
    ));
    assert(lex_token(s, 0) == Some((TokenSpec::Word(seq![PartSpec::Lit(t)]), n)));
    lemma_lex_all_at_end(s);
    assert(lex_all(s, 0) == seq![(TokenSpec::Word(seq![PartSpec::Lit(t)]), 0, n)] + lex_all(
        s,
        n,
    ));
    lemma_token_kinds(s);
    assert(token_kinds(s) =~= seq![TokenSpec::Word(seq![PartSpec::Lit(t)])]);
}


/// A backslash outside single quotes escapes the next character: `\c` and `"\c"` are both
/// the one-character word `c`, whatever `c` is (a quote, a space, `$`, `|`, `>`, ...).
pub proof fn lemma_escape_takes_next_char(c: char)
    ensures
        token_kinds(seq!['\\', c]) == seq![TokenSpec::Word(seq![PartSpec::Lit(seq![c])])],
        token_kinds(seq!['"', '\\', c, '"']) == seq![TokenSpec::Word(seq![PartSpec::Lit(seq![c])])],
{
    let s = seq!['\\', c];
    assert(skip_ws(s, 0) == 0);
    assert(redirect_at(s, 0) is None);
    assert(scan_word(s, 0, None, false, Seq::empty(), Seq::empty()) == scan_word(
        s,
        1,
        None,
        true,
        Seq::empty(),
        Seq::empty(),
    ));
    assert(scan_word(s, 1, None, true, Seq::empty(), Seq::empty()) == scan_word(
        s,
        2,
        None,
        false,
        Seq::empty(),
        seq![c],
    ));
    assert(Seq::<char>::empty().push(c) =~= seq![c]);
    lemma_lex_all_at_end(s);
    assert(lex_all(s, 0) == seq![(TokenSpec::Word(seq![PartSpec::Lit(seq![c])]), 0, 2int)]
        + lex_all(s, 2));
    lemma_token_kinds(s);
    assert(token_kinds(s) =~= seq![TokenSpec::Word(seq![PartSpec::Lit(seq![c])])]);
    let d = seq!['"', '\\', c, '"'];
    assert(skip_ws(d, 0) == 0);
    assert(redirect_at(d, 0) is None);
    assert(scan_word(d, 0, None, false, Seq::empty(), Seq::empty()) == scan_word(
        d,
        1,
        Some('"'),
        false,
        Seq::empty(),
        Seq::empty(),
    ));
    assert(scan_word(d, 1, Some('"'), false, Seq::empty(), Seq::empty()) == scan_word(
        d,
        2,
        Some('"'),
        true,
        Seq::empty(),
        Seq::empty(),
    ));
    assert(scan_word(d, 2, Some('"'), true, Seq::empty(), Seq::empty()) == scan_word(
        d,
        3,
        Some('"'),
        false,
        Seq::empty(),
        seq![c],
    ));
    assert(scan_word(d, 3, Some('"'), false, Seq::empty(), seq![c]) == scan_word(
        d,
        4,
        None,
        false,
        Seq::empty(),
        seq![c],
    ));
    lemma_lex_all_at_end(d);
    assert(lex_all(d, 0) == seq![(TokenSpec::Word(seq![PartSpec::Lit(seq![c])]), 0, 4int)]
        + lex_all(d, 4));
    lemma_token_kinds(d);
    assert(token_kinds(d) =~= seq![TokenSpec::Word(seq![PartSpec::Lit(seq![c])])]);
}

/// Reading a bare name over name characters takes all of them.
proof fn lemma_bare_name_run(s: Seq<char>, i: int, acc: Seq<char>)
    requires
        0 <= i <= s.len(),
        forall|k: int| i <= k < s.len() ==> is_name_char(#[trigger] s[k]),
    ensures
        bare_name(s, i, acc) == (acc + s.subrange(i, s.len() as int), s.len() as int),
    decreases s.len() - i,
{
    if i < s.len() {
        lemma_bare_name_run(s, i + 1, acc.push(s[i]));
        assert(acc.push(s[i]) + s.subrange(i + 1, s.len() as int) =~= acc + s.subrange(
            i,
            s.len() as int,
        ));
    } else {
        assert(acc + s.subrange(i, i) =~= acc);
    }
}

/// Reading a braced name takes everything up to the first `}`.
proof fn lemma_braced_name_run(s: Seq<char>, i: int, j: int, acc: Seq<char>)
    requires
        0 <= i <= j < s.len(),
        s[j] == '}',
        forall|k: int| i <= k < j ==> #[trigger] s[k] != '}',
    ensures
        braced_name(s, i, acc) == (acc + s.subrange(i, j), j + 1),
    decreases j - i,
{
    if i < j {
        lemma_braced_name_run(s, i + 1, j, acc.push(s[i]));
        assert(acc.push(s[i]) + s.subrange(i + 1, j) =~= acc + s.subrange(i, j));
    } else {
        assert(acc + s.subrange(i, i) =~= acc);
    }
}

/// A `$` outside quotes starts a variable: `$name`, for a name of name characters (see
/// `is_name_char`), and `${t}`, for any text `t` without `}`, are each one word made of an
/// empty literal, the variable `name` (or `t`) and an empty literal.
pub proof fn lemma_dollar_reads_variable(name: Seq<char>, t: Seq<char>)
    requires
        name.len() > 0,
        forall|k: int| 0 <= k < name.len() ==> is_name_char(#[trigger] name[k]),
        forall|k: int| 0 <= k < t.len() ==> #[trigger] t[k] != '}',
    ensures
        token_kinds(seq!['$'] + name) == seq![
            TokenSpec::Word(
                seq![PartSpec::Lit(Seq::empty()), PartSpec::Var(name), PartSpec::Lit(Seq::empty())],
            ),
        ],
        token_kinds(seq!['$', '{'] + t + seq!['}']) == seq![
            TokenSpec::Word(
                seq![PartSpec::Lit(Seq::empty()), PartSpec::Var(t), PartSpec::Lit(Seq::empty())],
            ),
        ],
{
    let parts = |v: Seq<char>|
        seq![PartSpec::Lit(Seq::<char>::empty()), PartSpec::Var(v)];
    let s = seq!['$'] + name;
    let n = s.len() as int;
    assert(s[0] == '$');
    assert(skip_ws(s, 0) == 0);
    assert(redirect_at(s, 0) is None);
    assert(s[1] == name[0]);
    assert forall|k: int| 1 <= k < n implies is_name_char(#[trigger] s[k]) by {
        assert(s[k] == name[k - 1]);
    }
    lemma_bare_name_run(s, 1, Seq::empty());
    assert(Seq::<char>::empty() + s.subrange(1, n) =~= name);
    assert(var_name_at(s, 1) == (name, n));
    assert(Seq::<PartSpec>::empty().push(PartSpec::Lit(Seq::empty())).push(PartSpec::Var(name))
        =~= parts(name));
    assert(scan_word(s, 0, None, false, Seq::empty(), Seq::empty()) == scan_word(
        s,
        n,
        None,
        false,
        parts(name),
        Seq::empty(),
    ));
    assert(parts(name).push(PartSpec::Lit(Seq::empty())) =~= seq![
        PartSpec::Lit(Seq::empty()),
        PartSpec::Var(name),
        PartSpec::Lit(Seq::empty()),
    ]);
    lemma_lex_all_at_end(s);
    assert(lex_all(s, 0) == seq![
        (
            TokenSpec::Word(
                seq![PartSpec::Lit(Seq::empty()), PartSpec::Var(name), PartSpec::Lit(Seq::empty())],
            ),
            0,
            n,
        ),
    ] + lex_all(s, n));
    lemma_token_kinds(s);
    assert(token_kinds(s) =~= seq![
        TokenSpec::Word(
            seq![PartSpec::Lit(Seq::empty()), PartSpec::Var(name), PartSpec::Lit(Seq::empty())],
        ),
    ]);
    let b = seq!['$', '{'] + t + seq!['}'];
    let m = b.len() as int;
    assert(b[0] == '$');
    assert(b[1] == '{');
    assert(b[m - 1] == '}');
    assert(skip_ws(b, 0) == 0);
    assert(redirect_at(b, 0) is None);
    assert forall|k: int| 2 <= k < m - 1 implies #[trigger] b[k] != '}' by {
        assert(b[k] == t[k - 2]);
    }
    lemma_braced_name_run(b, 2, m - 1, Seq::empty());
    assert(Seq::<char>::empty() + b.subrange(2, m - 1) =~= t);
    assert(var_name_at(b, 1) == (t, m));
    assert(Seq::<PartSpec>::empty().push(PartSpec::Lit(Seq::empty())).push(PartSpec::Var(t))
        =~= parts(t));
    assert(scan_word(b, 0, None, false, Seq::empty(), Seq::empty()) == scan_word(
        b,
        m,
        None,
        false,
        parts(t),
        Seq::empty(),
    ));
    assert(parts(t).push(PartSpec::Lit(Seq::empty())) =~= seq![
        PartSpec::Lit(Seq::empty()),
        PartSpec::Var(t),
        PartSpec::Lit(Seq::empty()),
    ]);
    lemma_lex_all_at_end(b);
    assert(lex_all(b, 0) == seq![
        (
            TokenSpec::Word(
                seq![PartSpec::Lit(Seq::empty()), PartSpec::Var(t), PartSpec::Lit(Seq::empty())],
            ),
            0,
            m,
        ),
    ] + lex_all(b, m));
    lemma_token_kinds(b);
    assert(token_kinds(b) =~= seq![
        TokenSpec::Word(
            seq![PartSpec::Lit(Seq::empty()), PartSpec::Var(t), PartSpec::Lit(Seq::empty())],
        ),
    ]);
}

} // verus!

use vstd::prelude::*;
use vstd::string::StringExecFns;
use vstd::utf8::{encode_utf8, is_char_boundary};
use crate::input::render::{lemma_lex_all_placed, rendered};
use crate::parser::{parse, parse_spec, result_view, tokens_view, ParseCtx, ParsedShell, ShellSpec};
use crate::runnable::complete::CompletionPath;
use crate::runnable::declare::ShellVariable;
use crate::runnable::history::HistoryCtx;
use crate::structures::string::{common_len, common_prefix_len, encodings, lcp};
use crate::structures::trie::{completes, Trie};
use crate::tokenizer::{
    is_whitespace, is_ws, lex_all, line_tokens, tokenize_spec, LexedToken, Token, TokenSpec, Tokenizer,
};
use crate::utils::order::{sort_strings, sorted};
use crate::utils::text::{
    byte_count, byte_len, byte_offset, byte_slice, chars_of, lemma_trim_end_take, push_char,
    strings_view, trim_end,
};

pub mod render;

verus! {

/// The word before the one being completed.
pub type PrevArg = String;

/// The word being completed.
pub type CurrentArg = String;

/// The path of a completion program.
pub type PathComplete = String;

/// Where completions come from: a command's completion program (with the previous word, the
/// current word and the program's path), the command names, or the file system.
#[derive(Debug)]
pub enum SuggestionType {
    Complete(PrevArg, CurrentArg, PathComplete),
    Command,
    Filesystem,
}

/// A key as the line editor tells keys apart.
#[derive(Debug, Clone, Copy, PartialEq, Eq, Structural)]
pub enum KeyCode {
    Char(char),
    Up,
    Down,
    Backspace,
    Tab,
    Enter,
    Other,
}

/// A key press: the key, and whether Control was held.
#[derive(Debug, Clone, Copy, PartialEq, Eq, Structural)]
pub struct KeyPress {
    pub code: KeyCode,
    pub ctrl: bool,
}

/// What a command's completion program is run with: the command's name, the word being
/// completed, the word before it, the program's path, the whole line and the cursor position
/// (in bytes).
pub struct CompletionRequest {
    pub name: String,
    pub partial: String,
    pub previous: String,
    pub path: String,
    pub buffer: String,
    pub cursor: usize,
}

/// What the terminal has to do after a key press.
pub enum Action {
    /// Nothing; wait for the next key.
    Nothing,
    /// Ring the bell.
    Bell,
    /// Print this text, which redraws the line.
    Redraw(String),
    /// Erase the last character on screen, then print this text, which redraws the line.
    EraseRedraw(String),
    /// Show the parsed line for debugging, then print this text, which redraws the line.
    DebugRedraw(ParsedShell, String),
    /// These completions were found for this word; they are applied with `on_suggestions`.
    Suggest(Vec<String>, String),
    /// Run the completion program; its output completes this word, with `on_suggestions`.
    RequestCompletion(CompletionRequest, String),
    /// Print the completions on a line of their own, then print this text, which redraws the line.
    ListSuggestions(Vec<String>, String),
    /// The line was interrupted.
    Interrupt,
    /// The line was entered (after an extra line break when the flag is set): its parse.
    Submit(bool, Result<ParsedShell, String>),
}

/// What reading a line consults: the completion programs, the command names, the file names
/// and the shell's variables.
pub struct InputCtx<'a> {
    pub completions_path: &'a CompletionPath,
    pub cmd_pref: &'a Trie,
    pub filesystem_pref: &'a Trie,
    pub shell_vars: &'a ShellVariable,
}

impl<'a> InputCtx<'a> {
    /// Both prefix trees are well formed.
    pub open spec fn wf(&self) -> bool {
        self.cmd_pref.wf() && self.filesystem_pref.wf()
    }
}

/// How many key presses the editor remembers.
pub const MAX_HISTORY_KEYPRESSES: usize = 3;

/// The keys remembered after `code` is pressed: the last three.
pub open spec fn recorded(keys: Seq<KeyCode>, code: KeyCode) -> Seq<KeyCode> {
    (if keys.len() == MAX_HISTORY_KEYPRESSES {
        keys.drop_first()
    } else {
        keys
    }).push(code)
}

/// The count of consecutive unresolved Tab presses once another key is pressed: it is kept
/// only when the key pressed before was Tab.
pub open spec fn tabs_kept(keys: Seq<KeyCode>, tab_cnt: nat) -> nat {
    if keys.len() > 0 && keys.last() == KeyCode::Tab {
        tab_cnt
    } else {
        0
    }
}

/// The line ends with a space.
pub open spec fn ends_with_space(s: Seq<char>) -> bool {
    s.len() > 0 && s.last() == ' '
}

/// The maximal run of non-whitespace characters at the end of `s`.
pub open spec fn trailing_word(s: Seq<char>) -> Seq<char>
    decreases s.len(),
{
    if s.len() == 0 || is_ws(s.last()) {
        Seq::empty()
    } else {
        trailing_word(s.drop_last()).push(s.last())
    }
}

/// The word being completed: none after a space, otherwise the last whitespace-separated word.
pub open spec fn completion_partial(s: Seq<char>) -> Seq<char> {
    if ends_with_space(s) {
        Seq::empty()
    } else {
        trailing_word(trim_end(s))
    }
}

/// The parse of the line `s`.
pub open spec fn parse_line(s: Seq<char>, strict: bool, vars: Map<Seq<char>, Seq<char>>) -> Result<
    ShellSpec,
    Seq<char>,
> {
    parse_spec(line_tokens(s), strict, vars)
}

/// `r` is the text that redraws the line `buffer` after `prompt`.
pub open spec fn shows(r: String, buffer: Seq<char>, prompt: Seq<char>) -> bool {
    encode_utf8(r@) == rendered(buffer, prompt, tokenize_spec(buffer))
}

/// Completing with `words` needs no cut inside a character: a single word is cut after the
/// partial word, and several words are cut at their common prefix and, when that is longer
/// than the partial word, the prefix again after the partial word.
pub open spec fn completion_fits(words: Seq<String>, partial: Seq<char>) -> bool {
    let ws = encodings(words);
    let p = byte_len(partial) as int;
    let n = common_prefix_len(ws, 0) as int;
    &&& words.len() == 1 ==> is_char_boundary(ws[0], p)
    &&& words.len() >= 2 ==> is_char_boundary(ws[0], n) && (n > p ==> is_char_boundary(
        ws[0].take(n),
        p,
    ))
}

/// The trailing word of `t` when its characters from `i` on are not whitespace and the one
/// before `i` is.
proof fn lemma_trailing_word(t: Seq<char>, i: int)
    requires
        0 <= i <= t.len(),
        forall|k: int| i <= k < t.len() ==> !is_ws(t[k]),
        i == 0 || is_ws(t[i - 1]),
    ensures
        trailing_word(t) == t.skip(i),
    decreases t.len() - i,
{
    if t.len() > i {
        lemma_trailing_word(t.drop_last(), i);
        assert(t.drop_last().skip(i).push(t.last()) =~= t.skip(i));
    } else {
        assert(t.skip(i) =~= Seq::<char>::empty());
    }
}

/// The line editor of the shell.
pub struct InputShell;

impl InputShell {
    /// The tokens of `buffer`, with their byte ranges.
    pub fn tokenize_buffer(buffer: &str) -> (r: Vec<LexedToken>)
        ensures
            r@.map_values(|t: LexedToken| t@) == tokenize_spec(buffer@),
    {
        let mut tokenizer = Tokenizer::new(buffer.to_owned());
        tokenizer.tokenize()
    }

    /// Parses already tokenized input, strictly or not.
    pub fn parse_buffer(strict: bool, input_ctx: &InputCtx, lexed_tokens: &Vec<LexedToken>) -> (r:
        Result<ParsedShell, String>)
        ensures
            result_view(r) == parse_spec(
                lexed_tokens@.map_values(|t: LexedToken| t.token@),
                strict,
                input_ctx.shell_vars@,
            ),
            !strict ==> r is Ok,
    {
        let parse_ctx = ParseCtx { strict, shell_vars: input_ctx.shell_vars };
        let mut tokens: Vec<&Token> = Vec::new();
        let mut i: usize = 0;
        while i < lexed_tokens.len()
            invariant
                i <= lexed_tokens@.len(),
                tokens_view(tokens@) == lexed_tokens@.take(i as int).map_values(
                    |t: LexedToken| t.token@,
                ),
            decreases lexed_tokens@.len() - i,
        {
            let ghost prev = tokens@;
            tokens.push(&lexed_tokens[i].token);
            assert(tokens_view(tokens@) =~= tokens_view(prev).push(lexed_tokens@[i as int].token@));
            assert(lexed_tokens@.take(i + 1).map_values(|t: LexedToken| t.token@) =~= lexed_tokens@.take(
                i as int,
            ).map_values(|t: LexedToken| t.token@).push(lexed_tokens@[i as int].token@));
            i = i + 1;
        }
        assert(lexed_tokens@.take(i as int) =~= lexed_tokens@);
        parse(tokens, parse_ctx)
    }

    /// Parses the line `buffer`.
    fn parse_line(strict: bool, input_ctx: &InputCtx, buffer: &str) -> (r: Result<ParsedShell, String>)
        ensures
            result_view(r) == parse_line(buffer@, strict, input_ctx.shell_vars@),
            !strict ==> r is Ok,
    {
        let lexed = Self::tokenize_buffer(buffer);
        proof {
            let kinds = lexed@.map_values(|t: LexedToken| t.token@);
            let tv = lexed@.map_values(|t: LexedToken| t@);
            let la = lex_all(buffer@, 0);
            assert(tv.len() == la.len());
            assert forall|k: int| 0 <= k < kinds.len() implies kinds[k] == line_tokens(buffer@)[k] by {
                assert(tv[k] == lexed@[k]@);
                assert(tv[k] == tokenize_spec(buffer@)[k]);
                assert(tokenize_spec(buffer@)[k].0 == la[k].0);
            }
            assert(kinds =~= line_tokens(buffer@));
        }
        Self::parse_buffer(strict, input_ctx, &lexed)
    }

    /// The text that redraws the line `buffer` after `prompt`.
    fn redraw(buffer: &str, prompt: &str) -> (r: String)
        ensures
            shows(r, buffer@, prompt@),
    {
        let tokens = Self::tokenize_buffer(buffer);
        proof {
            lemma_lex_all_placed(buffer@, 0);
            assert(buffer@.take(0) =~= Seq::<char>::empty());
            assert(byte_offset(buffer@, 0) == 0);
        }
        Self::render(buffer, prompt, &tokens)
    }

    /// Whether `s` ends with `c`.
    fn ends_with_char(s: &str, c: char) -> (r: bool)
        ensures
            r == (s@.len() > 0 && s@.last() == c),
    {
        let v = chars_of(s);
        v.len() > 0 && v[v.len() - 1] == c
    }

    /// The word being completed in `buffer`.
    pub fn last_token(buffer: &str) -> (r: String)
        ensures
            r@ == completion_partial(buffer@),
    {
        let v = chars_of(buffer);
        let ghost s = v@;
        if v.len() > 0 && v[v.len() - 1] == ' ' {
            return String::new();
        }
        let mut j = v.len();
        while j > 0 && is_whitespace(v[j - 1])
            invariant
                j <= v.len(),
                s == v@,
                forall|k: int| j <= k < s.len() ==> is_ws(s[k]),
            decreases j,
        {
            j = j - 1;
        }
        let mut i = j;
        while i > 0 && !is_whitespace(v[i - 1])
            invariant
                i <= j <= v.len(),
                s == v@,
                forall|k: int| i <= k < j ==> !is_ws(s[k]),
            decreases i,
        {
            i = i - 1;
        }
        proof {
            let t = s.take(j as int);
            lemma_trim_end_take(s, j as int);
            if j > 0 {
                assert(t.last() == s[j - 1]);
            }
            assert(trim_end(t) == t);
            lemma_trailing_word(t, i as int);
            assert(t.skip(i as int) =~= s.subrange(i as int, j as int));
        }
        let mut r = String::new();
        let mut k = i;
        while k < j
            invariant
                i <= k <= j <= v.len(),
                r@ == v@.subrange(i as int, k as int),
            decreases j - k,
        {
            push_char(&mut r, v[k]);
            assert(v@.subrange(i as int, k + 1) =~= v@.subrange(i as int, k as int).push(
                v@[k as int],
            ));
            k = k + 1;
        }
        r
    }

    /// Where the completions of the line come from, given its lenient parse.
    pub fn suggestion_type(buffer: &str, parsed: &ParsedShell, completions_path: &CompletionPath) -> (r:
        SuggestionType)
        ensures
            ({
                let cmd = parsed.command_buffer@;
                let args = strings_view(parsed.args_buffer@);
                match r {
                    SuggestionType::Complete(prev, cur, path) => {
                        &&& completions_path@.contains_key(cmd)
                        &&& path@ == completions_path@[cmd]
                        &&& prev@ == (if args.len() >= 2 {
                            args[args.len() - 2]
                        } else {
                            cmd
                        })
                        &&& cur@ == (if args.len() >= 1 {
                            args.last()
                        } else {
                            Seq::<char>::empty()
                        })
                    },
                    SuggestionType::Filesystem => !completions_path@.contains_key(cmd) && (args.len()
                        >= 1 || ends_with_space(buffer@)),
                    SuggestionType::Command => !completions_path@.contains_key(cmd) && !(args.len()
                        >= 1 || ends_with_space(buffer@)),
                }
            }),
    {
        let cmd_parsed = parsed.command_buffer.as_str();
        let cmd_args = &parsed.args_buffer;
        let n = cmd_args.len();
        match completions_path.get(cmd_parsed) {
            Some(path) => {
                let prev = if n >= 2 {
                    cmd_args[n - 2].clone()
                } else {
                    parsed.command_buffer.clone()
                };
                let cur_arg = if n >= 1 {
                    cmd_args[n - 1].clone()
                } else {
                    String::new()
                };
                SuggestionType::Complete(prev, cur_arg, path.clone())
            },
            None => {
                if n >= 1 || Self::ends_with_char(buffer, ' ') {
                    SuggestionType::Filesystem
                } else {
                    SuggestionType::Command
                }
            },
        }
    }

    /// Whether completing `partial` with `suggestions` needs no cut inside a character (the
    /// completion itself slices at those places).
    pub fn suggestions_fit(suggestions: &Vec<String>, partial: &str) -> (r: bool)
        ensures
            r == completion_fits(suggestions@, partial@),
    {
        let p = byte_count(partial);
        if suggestions.len() == 1 {
            return suggestions[0].as_str().is_char_boundary(p);
        }
        if suggestions.len() >= 2 {
            let n = common_len(suggestions.as_slice());
            let first = suggestions[0].as_str();
            if !first.is_char_boundary(n) {
                return false;
            }
            if n > p {
                let (head, _) = first.split_at(n);
                assert(encode_utf8(head@) =~= encodings(suggestions@)[0].take(n as int));
                return head.is_char_boundary(p);
            }
        }
        true
    }

    /// Records the entered line in the history and parses it strictly.
    fn submit(buffer: &String, input_ctx: &InputCtx, history: &mut HistoryCtx, extra_newline: bool) -> (a:
        Action)
        ensures
            strings_view(final(history).entries@) == strings_view(old(history).entries@).push(
                buffer@,
            ),
            final(history).last_appended == old(history).last_appended,
            final(history).entries@.len() == old(history).entries@.len() + 1,
            a matches Action::Submit(e, r) && e == extra_newline && result_view(r) == parse_line(
                buffer@,
                true,
                input_ctx.shell_vars@,
            ),
    {
        history.entries.push(buffer.clone());
        assert(strings_view(history.entries@) =~= strings_view(old(history).entries@).push(
            buffer@,
        ));
        Action::Submit(extra_newline, Self::parse_line(true, input_ctx, buffer.as_str()))
    }
}

/// The state of a line being edited.
pub struct LineEditor {
    pub buffer: String,
    pub key_presses: Vec<KeyCode>,
    pub tab_cnt: usize,
    pub current_history: usize,
}

/// Model of the editor's state: the line, the remembered keys, the pending Tab presses and
/// the history position.
pub struct EditorView {
    pub buffer: Seq<char>,
    pub keys: Seq<KeyCode>,
    pub tab_cnt: nat,
    pub current_history: nat,
}

impl View for LineEditor {
    type V = EditorView;

    open spec fn view(&self) -> EditorView {
        EditorView {
            buffer: self.buffer@,
            keys: self.key_presses@,
            tab_cnt: self.tab_cnt as nat,
            current_history: self.current_history as nat,
        }
    }
}

/// The editor's state after a key press, given the history lines `hist`: a character is
/// appended (with Control, only for `z`), Backspace drops the last character, Up and Down
/// move in the history and show that line, and every other key leaves the line alone. The key
/// is remembered, and pending Tab presses are kept only after a Tab.
pub open spec fn edit_step(v: EditorView, key: KeyPress, hist: Seq<Seq<char>>) -> EditorView {
    let same = EditorView {
        buffer: v.buffer,
        keys: recorded(v.keys, key.code),
        tab_cnt: tabs_kept(v.keys, v.tab_cnt),
        current_history: v.current_history,
    };
    match key.code {
        KeyCode::Char(c) => if key.ctrl && c != 'z' {
            same
        } else {
            EditorView { buffer: v.buffer.push(c), ..same }
        },
        KeyCode::Up => if v.current_history > 0 {
            EditorView {
                buffer: hist[v.current_history - 1],
                current_history: (v.current_history - 1) as nat,
                ..same
            }
        } else {
            same
        },
        KeyCode::Down => if v.current_history + 1 < hist.len() {
            EditorView {
                buffer: hist[v.current_history + 1 as int],
                current_history: v.current_history + 1,
                ..same
            }
        } else {
            same
        },
        KeyCode::Backspace => if v.buffer.len() > 0 {
            EditorView { buffer: v.buffer.drop_last(), ..same }
        } else {
            same
        },
        _ => same,
    }
}

impl LineEditor {
    /// At most three keys are remembered, at most one Tab press is pending, and the history
    /// position lies within a history of `history_len` lines.
    pub open spec fn wf(&self, history_len: nat) -> bool {
        &&& self.key_presses@.len() <= MAX_HISTORY_KEYPRESSES
        &&& self.tab_cnt <= 1
        &&& self.current_history <= history_len
    }

    /// An empty line, positioned after the last of `history_len` history lines.
    pub fn new(history_len: usize) -> (r: Self)
        ensures
            r.buffer@ == Seq::<char>::empty(),
            r.key_presses@ == Seq::<KeyCode>::empty(),
            r.tab_cnt == 0,
            r.current_history == history_len,
            r.wf(history_len as nat),
    {
        LineEditor {
            buffer: String::new(),
            key_presses: Vec::new(),
            tab_cnt: 0,
            current_history: history_len,
        }
    }

    /// Remembers the key `code` and forgets pending Tab presses unless the key before was Tab.
    fn record_key(&mut self, code: KeyCode)
        requires
            old(self).key_presses@.len() <= MAX_HISTORY_KEYPRESSES,
        ensures
            final(self).key_presses@ == recorded(old(self).key_presses@, code),
            final(self).tab_cnt == tabs_kept(old(self).key_presses@, old(self).tab_cnt as nat),
            final(self).buffer == old(self).buffer,
            final(self).current_history == old(self).current_history,
    {
        if self.key_presses.len() == MAX_HISTORY_KEYPRESSES {
            self.key_presses.remove(0);
            assert(self.key_presses@ =~= old(self).key_presses@.drop_first());
        }
        let n = self.key_presses.len();
        let after_tab = n > 0 && self.key_presses[n - 1] == KeyCode::Tab;
        if !after_tab {
            self.tab_cnt = 0;
        }
        self.key_presses.push(code);
    }

    /// Handles one key press: edits the line, moves in the history, completes, or ends the
    /// line, and says what the terminal has to do.
    pub fn step(&mut self, key: KeyPress, prompt: &str, ctx: &InputCtx, history: &mut HistoryCtx) -> (a:
        Action)
        requires
            old(self).wf(old(history).entries@.len()),
            ctx.wf(),
        ensures
            final(self).wf(final(history).entries@.len()),
            final(self).key_presses@ == recorded(old(self).key_presses@, key.code),
            final(self)@ == edit_step(old(self)@, key, strings_view(old(history).entries@)),
            ({
                let b = old(self).buffer@;
                let tabs = tabs_kept(old(self).key_presses@, old(self).tab_cnt as nat);
                let hist = strings_view(old(history).entries@);
                let vars = ctx.shell_vars@;
                let same_line = final(self).buffer@ == b && final(self).tab_cnt == tabs
                    && final(self).current_history == old(self).current_history;
                let same_history = final(history).entries@ == old(history).entries@
                    && final(history).last_appended == old(history).last_appended;
                let submitted = strings_view(final(history).entries@) == hist.push(b)
                    && final(history).last_appended == old(history).last_appended;
                match key.code {
                    KeyCode::Char(c) => if key.ctrl && c == 'c' {
                        a is Interrupt && same_line && same_history
                    } else if key.ctrl && c == 'j' {
                        &&& a matches Action::Submit(e, r) && !e && result_view(r) == parse_line(
                            b,
                            true,
                            vars,
                        )
                        &&& submitted
                    } else if key.ctrl && c != 'z' {
                        a is Nothing && same_line && same_history
                    } else {
                        &&& final(self).buffer@ == b.push(c)
                        &&& final(self).tab_cnt == tabs
                        &&& final(self).current_history == old(self).current_history
                        &&& same_history
                        &&& if key.ctrl {
                            a matches Action::DebugRedraw(p, r) && result_view(Ok(p))
                                == parse_line(b, false, vars) && shows(r, b.push(c), prompt@)
                        } else {
                            a matches Action::Redraw(r) && shows(r, b.push(c), prompt@)
                        }
                    },
                    KeyCode::Up => if old(self).current_history > 0 {
                        &&& final(self).current_history == old(self).current_history - 1
                        &&& final(self).buffer@ == hist[old(self).current_history - 1]
                        &&& final(self).tab_cnt == tabs
                        &&& same_history
                        &&& a matches Action::Redraw(r) && shows(r, final(self).buffer@, prompt@)
                    } else {
                        a is Nothing && same_line && same_history
                    },
                    KeyCode::Down => if old(self).current_history + 1 < hist.len() {
                        &&& final(self).current_history == old(self).current_history + 1
                        &&& final(self).buffer@ == hist[old(self).current_history + 1]
                        &&& final(self).tab_cnt == tabs
                        &&& same_history
                        &&& a matches Action::Redraw(r) && shows(r, final(self).buffer@, prompt@)
                    } else {
                        a is Nothing && same_line && same_history
                    },
                    KeyCode::Backspace => if b.len() > 0 {
                        &&& final(self).buffer@ == b.drop_last()
                        &&& final(self).tab_cnt == tabs
                        &&& final(self).current_history == old(self).current_history
                        &&& same_history
                        &&& a matches Action::EraseRedraw(r) && shows(r, b.drop_last(), prompt@)
                    } else {
                        a is Nothing && same_line && same_history
                    },
                    KeyCode::Tab => {
                        let parsed = parse_line(b, false, vars)->Ok_0;
                        let cmd = parsed.command_buffer;
                        let args = parsed.args_buffer;
                        let paths = ctx.completions_path@;
                        let trie = if args.len() >= 1 || ends_with_space(b) {
                            ctx.filesystem_pref
                        } else {
                            ctx.cmd_pref
                        };
                        &&& same_line
                        &&& same_history
                        &&& parse_line(b, false, vars) is Ok
                        &&& if paths.contains_key(cmd) {
                            a matches Action::RequestCompletion(req, partial) && {
                                &&& partial@ == completion_partial(b)
                                &&& req.name@ == cmd
                                &&& req.path@ == paths[cmd]
                                &&& req.previous@ == (if args.len() >= 2 {
                                    args[args.len() - 2]
                                } else {
                                    cmd
                                })
                                &&& req.partial@ == (if args.len() >= 1 {
                                    args.last()
                                } else {
                                    Seq::<char>::empty()
                                })
                                &&& req.buffer@ == b
                                &&& req.cursor == byte_len(b)
                            }
                        } else {
                            a matches Action::Suggest(sg, partial) && partial@ == completion_partial(
                                b,
                            ) && completes(trie@, partial@, strings_view(sg@))
                        }
                    },
                    KeyCode::Enter => {
                        &&& a matches Action::Submit(e, r) && e && result_view(r) == parse_line(
                            b,
                            true,
                            vars,
                        )
                        &&& submitted
                    },
                    KeyCode::Other => a is Nothing && same_line && same_history,
                }
            }),
    {
        self.record_key(key.code);
        match key.code {
            KeyCode::Char(c) => {
                if key.ctrl {
                    if c == 'c' {
                        return Action::Interrupt;
                    }
                    if c == 'j' {
                        return InputShell::submit(&self.buffer, ctx, history, false);
                    }
                    if c != 'z' {
                        return Action::Nothing;
                    }
                    let parsed = InputShell::parse_line(false, ctx, self.buffer.as_str());
                    let p = match parsed {
                        Ok(p) => p,
                        Err(_) => {
                            proof {
                                assert(false);
                            }
                            return Action::Nothing;
                        },
                    };
                    push_char(&mut self.buffer, c);
                    let r = InputShell::redraw(self.buffer.as_str(), prompt);
                    return Action::DebugRedraw(p, r);
                }
                push_char(&mut self.buffer, c);
                Action::Redraw(InputShell::redraw(self.buffer.as_str(), prompt))
            },
            KeyCode::Up => {
                if self.current_history > 0 {
                    self.current_history = self.current_history - 1;
                    self.buffer = history.entries[self.current_history].clone();
                    Action::Redraw(InputShell::redraw(self.buffer.as_str(), prompt))
                } else {
                    Action::Nothing
                }
            },
            KeyCode::Down => {
                if history.entries.len() > 0 && self.current_history < history.entries.len() - 1 {
                    self.current_history = self.current_history + 1;
                    self.buffer = history.entries[self.current_history].clone();
                    Action::Redraw(InputShell::redraw(self.buffer.as_str(), prompt))
                } else {
                    Action::Nothing
                }
            },
            KeyCode::Backspace => {
                match crate::utils::text::pop_char(&mut self.buffer) {
                    Some(_) => Action::EraseRedraw(InputShell::redraw(self.buffer.as_str(), prompt)),
                    None => Action::Nothing,
                }
            },
            KeyCode::Tab => self.tab(ctx),
            KeyCode::Enter => InputShell::submit(&self.buffer, ctx, history, true),
            KeyCode::Other => Action::Nothing,
        }
    }

    /// The completions of the word at the end of the line, or the request to run the
    /// command's completion program.
    fn tab(&self, ctx: &InputCtx) -> (a: Action)
        requires
            ctx.wf(),
        ensures
            ({
                let b = self.buffer@;
                let parsed = parse_line(b, false, ctx.shell_vars@)->Ok_0;
                let cmd = parsed.command_buffer;
                let args = parsed.args_buffer;
                let paths = ctx.completions_path@;
                let trie = if args.len() >= 1 || ends_with_space(b) {
                    ctx.filesystem_pref
                } else {
                    ctx.cmd_pref
                };
                &&& parse_line(b, false, ctx.shell_vars@) is Ok
                &&& if paths.contains_key(cmd) {
                    a matches Action::RequestCompletion(req, partial) && {
                        &&& partial@ == completion_partial(b)
                        &&& req.name@ == cmd
                        &&& req.path@ == paths[cmd]
                        &&& req.previous@ == (if args.len() >= 2 {
                            args[args.len() - 2]
                        } else {
                            cmd
                        })
                        &&& req.partial@ == (if args.len() >= 1 {
                            args.last()
                        } else {
                            Seq::<char>::empty()
                        })
                        &&& req.buffer@ == b
                        &&& req.cursor == byte_len(b)
                    }
                } else {
                    a matches Action::Suggest(sg, partial) && partial@ == completion_partial(b)
                        && completes(trie@, partial@, strings_view(sg@))
                }
            }),
    {
        let parsed = match InputShell::parse_line(false, ctx, self.buffer.as_str()) {
            Ok(p) => p,
            Err(_) => {
                proof {
                    assert(false);
                }
                return Action::Nothing;
            },
        };
        let partial = InputShell::last_token(self.buffer.as_str());
        match InputShell::suggestion_type(self.buffer.as_str(), &parsed, ctx.completions_path) {
            SuggestionType::Complete(prev, partial_arg, path) => {
                let req = CompletionRequest {
                    name: parsed.command_buffer,
                    partial: partial_arg,
                    previous: prev,
                    path,
                    buffer: self.buffer.clone(),
                    cursor: byte_count(self.buffer.as_str()),
                };
                Action::RequestCompletion(req, partial)
            },
            SuggestionType::Command => {
                let suggestions = ctx.cmd_pref.autocomplete(partial.as_str());
                Action::Suggest(suggestions, partial)
            },
            SuggestionType::Filesystem => {
                let suggestions = ctx.filesystem_pref.autocomplete(partial.as_str());
                Action::Suggest(suggestions, partial)
            },
        }
    }

    /// Completes the word `partial` at the end of the line with `suggestions`: nothing found
    /// rings the bell; one completion is inserted (followed by a space unless it ends with `/`);
    /// several insert their common prefix when it is longer than `partial`; otherwise a first
    /// Tab rings the bell and a second lists them, sorted.
    pub fn on_suggestions(&mut self, suggestions: Vec<String>, partial: &str, prompt: &str) -> (a: Action)
        requires
            old(self).tab_cnt <= 1,
            completion_fits(suggestions@, partial@),
        ensures
            final(self).key_presses == old(self).key_presses,
            final(self).current_history == old(self).current_history,
            final(self).tab_cnt <= 1,
            ({
                let sg = suggestions@;
                let ws = encodings(sg);
                let p = byte_len(partial@) as int;
                let n = common_prefix_len(ws, 0) as int;
                let b = encode_utf8(old(self).buffer@);
                let nb = encode_utf8(final(self).buffer@);
                if sg.len() == 0 {
                    a is Bell && final(self).buffer == old(self).buffer && final(self).tab_cnt
                        == old(self).tab_cnt
                } else if sg.len() == 1 {
                    &&& nb == b + ws[0].skip(p) + (if sg[0]@.len() > 0 && sg[0]@.last() == '/' {
                        Seq::<u8>::empty()
                    } else {
                        seq![32u8]
                    })
                    &&& final(self).tab_cnt == old(self).tab_cnt
                    &&& a matches Action::Redraw(r) && shows(r, final(self).buffer@, prompt@)
                } else if n > p {
                    &&& nb == b + ws[0].subrange(p, n)
                    &&& final(self).tab_cnt == old(self).tab_cnt
                    &&& a matches Action::Redraw(r) && shows(r, final(self).buffer@, prompt@)
                } else if old(self).tab_cnt == 0 {
                    a is Bell && final(self).buffer == old(self).buffer && final(self).tab_cnt == 1
                } else {
                    &&& final(self).buffer == old(self).buffer
                    &&& final(self).tab_cnt == 0
                    &&& a matches Action::ListSuggestions(l, r) && {
                        &&& strings_view(l@).to_multiset() == strings_view(sg).to_multiset()
                        &&& sorted(strings_view(l@))
                        &&& shows(r, old(self).buffer@, prompt@)
                    }
                }
            }),
    {
        proof {
            vstd::utf8::encode_utf8_valid_utf8(self.buffer@);
        }
        if suggestions.len() == 0 {
            return Action::Bell;
        }
        let p = byte_count(partial);
        if suggestions.len() == 1 {
            let s0 = suggestions[0].as_str();
            let n0 = byte_count(s0);
            proof {
                vstd::utf8::encode_utf8_valid_utf8(s0@);
                vstd::utf8::is_char_boundary_start_end_of_seq(encode_utf8(s0@));
            }
            let suffix = byte_slice(s0, p, n0);
            let ghost before = self.buffer@;
            self.buffer.append(suffix);
            proof {
                crate::utils::text::lemma_encode_utf8_concat(before, suffix@);
                assert(encode_utf8(s0@).subrange(p as int, n0 as int) =~= encode_utf8(s0@).skip(
                    p as int,
                ));
            }
            if !InputShell::ends_with_char(s0, '/') {
                let ghost mid = self.buffer@;
                push_char(&mut self.buffer, ' ');
                proof {
                    crate::utils::text::lemma_encode_utf8_concat(mid, seq![' ']);
                    assert(mid.push(' ') =~= mid + seq![' ']);
                    assert(encode_utf8(seq![' ']) =~= seq![32u8]) by {
                        assert(seq![' '].drop_first() =~= Seq::<char>::empty());
                        assert((' ' as u32) == 32u32);
                        assert((32u32 & 0x7Fu32) as u8 == 32u8) by (bit_vector);
                        assert(seq![' '][0] == ' ');
                        assert(vstd::utf8::encode_scalar(32u32) =~= seq![32u8]);
                        assert(encode_utf8(Seq::<char>::empty()) =~= Seq::<u8>::empty());
                    }
                }
            } else {
                assert(encode_utf8(self.buffer@) =~= encode_utf8(self.buffer@) + Seq::<u8>::empty());
            }
            return Action::Redraw(InputShell::redraw(self.buffer.as_str(), prompt));
        }
        let common = lcp(suggestions.as_slice());
        let cl = byte_count(common.as_str());
        if cl > p {
            proof {
                vstd::utf8::encode_utf8_valid_utf8(common@);
                vstd::utf8::is_char_boundary_start_end_of_seq(encode_utf8(common@));
                assert(encodings(suggestions@)[0] == encode_utf8(suggestions@[0]@));
            }
            let suffix = byte_slice(common.as_str(), p, cl);
            let ghost before = self.buffer@;
            self.buffer.append(suffix);
            proof {
                crate::utils::text::lemma_encode_utf8_concat(before, suffix@);
                assert(encode_utf8(common@).subrange(p as int, cl as int) =~= encodings(
                    suggestions@,
                )[0].subrange(p as int, cl as int));
            }
            return Action::Redraw(InputShell::redraw(self.buffer.as_str(), prompt));
        }
        self.tab_cnt = self.tab_cnt + 1;
        if self.tab_cnt == 1 {
            return Action::Bell;
        }
        self.tab_cnt = 0;
        let listed = sort_strings(suggestions);
        Action::ListSuggestions(listed, InputShell::redraw(self.buffer.as_str(), prompt))
    }
}

} // verus!

verus! {

/// Completing replaces the word being completed by the completion: when the line is `a`
/// followed by the partial word and the completion extends that word, appending the rest of
/// the completion (from the partial word's length in bytes on) gives `a` followed by the
/// completion.
pub proof fn lemma_completion_replaces_partial(a: Seq<char>, partial: Seq<char>, x: Seq<char>)
    requires
        crate::structures::trie::prefix_of(partial, x),
    ensures
        encode_utf8(a + partial) + encode_utf8(x).skip(byte_len(partial) as int) == encode_utf8(a + x),
{
    let rest = x.skip(partial.len() as int);
    assert(x =~= partial + rest);
    crate::utils::text::lemma_encode_utf8_concat(partial, rest);
    crate::utils::text::lemma_encode_utf8_concat(a, partial);
    crate::utils::text::lemma_encode_utf8_concat(a, x);
    assert(encode_utf8(x).skip(byte_len(partial) as int) =~= encode_utf8(rest));
}

} // verus!

verus! {

/// Typing a character and then erasing it with Backspace gives back the line and the
/// history position. Stated over `edit_step`, which `LineEditor::step` ensures is what a key
/// press does to the editor (`final(self)@ == edit_step(old(self)@, key, ..)`), so it holds
/// of two calls of `step` with the same history.
pub proof fn lemma_type_then_erase(v: EditorView, c: char, hist: Seq<Seq<char>>)
    ensures
        ({
            let typed = edit_step(v, KeyPress { code: KeyCode::Char(c), ctrl: false }, hist);
            let erased = edit_step(typed, KeyPress { code: KeyCode::Backspace, ctrl: false }, hist);
            &&& erased.buffer == v.buffer
            &&& erased.current_history == v.current_history
            &&& erased.tab_cnt == 0
        }),
{
    assert(v.buffer.push(c).drop_last() =~= v.buffer);
}

/// Going up in the history and then down again, from inside the history, shows the same
/// entry again at the same position. Stated over `edit_step`, the change that
/// `LineEditor::step` makes for each key press, so it holds of two calls of `step`.
pub proof fn lemma_up_then_down(v: EditorView, hist: Seq<Seq<char>>)
    requires
        0 < v.current_history < hist.len(),
    ensures
        ({
            let up = edit_step(v, KeyPress { code: KeyCode::Up, ctrl: false }, hist);
            let down = edit_step(up, KeyPress { code: KeyCode::Down, ctrl: false }, hist);
            &&& up.buffer == hist[v.current_history - 1]
            &&& down.buffer == hist[v.current_history as int]
            &&& down.current_history == v.current_history
        }),
{
}

} // verus!

verus! {

/// What completion makes of the words found does not depend on the order they come in (the
/// prefix tree lists them in no particular order): lists holding the same words as often
/// have the same length, the same single word, the same common prefix, and one sorted
/// listing.
pub proof fn lemma_completion_order_free(
    s1: Seq<String>,
    s2: Seq<String>,
    l1: Seq<Seq<char>>,
    l2: Seq<Seq<char>>,
)
    requires
        strings_view(s1).to_multiset() == strings_view(s2).to_multiset(),
        sorted(l1),
        l1.to_multiset() == strings_view(s1).to_multiset(),
        sorted(l2),
        l2.to_multiset() == strings_view(s2).to_multiset(),
    ensures
        s1.len() == s2.len(),
        s1.len() == 1 ==> s1[0]@ == s2[0]@,
        s1.len() > 0 ==> common_prefix_len(encodings(s1), 0) == common_prefix_len(
            encodings(s2),
            0,
        ) && encodings(s1)[0].take(common_prefix_len(encodings(s1), 0) as int) == encodings(
            s2,
        )[0].take(common_prefix_len(encodings(s2), 0) as int),
        l1 == l2,
{
    broadcast use vstd::seq_lib::group_to_multiset_ensures;

    let v1 = strings_view(s1);
    let v2 = strings_view(s2);
    assert(v1.len() == v1.to_multiset().len());
    assert(v2.len() == v2.to_multiset().len());
    crate::utils::order::lemma_sorted_unique(l1, l2);
    if s1.len() == 1 {
        assert(v1.to_multiset().count(v1[0]) > 0);
        assert(v2.contains(v1[0]));
    }
    if s1.len() > 0 {
        let w1 = encodings(s1);
        let w2 = encodings(s2);
        assert forall|x: Seq<u8>| w1.contains(x) <==> w2.contains(x) by {
            if w1.contains(x) {
                let j = choose|j: int| 0 <= j < w1.len() && w1[j] == x;
                assert(v1.to_multiset().count(v1[j]) > 0);
                assert(v2.contains(v1[j]));
                let i = choose|i: int| 0 <= i < v2.len() && v2[i] == v1[j];
                assert(w2[i] == x);
            }
            if w2.contains(x) {
                let j = choose|j: int| 0 <= j < w2.len() && w2[j] == x;
                assert(v2.to_multiset().count(v2[j]) > 0);
                assert(v1.contains(v2[j]));
                let i = choose|i: int| 0 <= i < v1.len() && v1[i] == v2[j];
                assert(w1[i] == x);
            }
        }
        crate::structures::string::lemma_common_prefix_order_free(w1, w2);
    }
}

} // verus!

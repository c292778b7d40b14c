use vstd::prelude::*;
use crate::runnable::{first_option, flag_is, is_option};
use crate::utils::text::{
    decimal, decimal_string, join, joined, lemma_lines_of_written, lines_of, parse_usize,
    parse_usize_spec, push_lines, strings_view,
};

verus! {

/// The command history: the lines entered, and how many of them were already appended to a
/// file by `history -a`.
pub struct HistoryCtx {
    pub entries: Vec<String>,
    pub last_appended: usize,
}

impl HistoryCtx {
    /// The appended part never goes past the end of the history.
    pub open spec fn wf(&self) -> bool {
        self.last_appended <= self.entries@.len()
    }
}

/// The `history` builtin.
pub struct History;

/// What the `history` builtin has to do.
pub enum HistoryCommand {
    /// Read the file at this path and add its lines to the history (`-r`).
    Read(String),
    /// Write this text (the whole history) to the file at this path (`-w`).
    Write(String, String),
    /// Append this text (the lines not appended yet) to the file at this path (`-a`).
    Append(String, String),
    /// Print this listing.
    Print(String),
    /// Report this error; the exit status is 1.
    Fail(String),
}

/// One line of the listing: a tab, the line's number (from 1), two spaces and the line.
pub open spec fn listing_line(number: nat, line: Seq<char>) -> Seq<char> {
    seq!['\t'] + decimal(number) + seq![' ', ' '] + line
}

/// The listing of `entries` from index `start` on, one numbered line each.
pub open spec fn listing(entries: Seq<Seq<char>>, start: int) -> Seq<char> {
    joined(
        Seq::new(
            (entries.len() - start) as nat,
            |k: int| listing_line((start + k + 1) as nat, entries[start + k]),
        ),
        seq!['\n'],
    )
}

/// Where the listing starts: the last `n` lines when the first argument is a number `n`,
/// otherwise all of them.
pub open spec fn listing_start(args: Seq<Seq<char>>, len: nat) -> int {
    if args.len() > 0 && parse_usize_spec(args[0]) is Some {
        let n = parse_usize_spec(args[0])->Some_0;
        if n >= len {
            0
        } else {
            len - n
        }
    } else {
        0
    }
}

impl History {
    /// The lines of `entries` from `start` on, each numbered.
    fn listing(entries: &Vec<String>, start: usize) -> (r: String)
        requires
            start <= entries@.len(),
        ensures
            r@ == listing(strings_view(entries@), start as int),
    {
        let ghost es = strings_view(entries@);
        let mut lines: Vec<String> = Vec::new();
        let mut i = start;
        while i < entries.len()
            invariant
                start <= i <= entries@.len(),
                es == strings_view(entries@),
                strings_view(lines@) =~= Seq::new(
                    (i - start) as nat,
                    |k: int| listing_line((start + k + 1) as nat, es[start + k]),
                ),
            decreases entries@.len() - i,
        {
            let mut line = String::new();
            line.append("\t");
            let number = decimal_string(i + 1);
            line.append(number.as_str());
            line.append("  ");
            line.append(entries[i].as_str());
            proof {
                reveal_strlit("\t");
                reveal_strlit("  ");
            }
            assert(line@ =~= listing_line((i + 1) as nat, es[i as int]));
            let ghost prev = strings_view(lines@);
            lines.push(line);
            assert(strings_view(lines@) =~= prev.push(line@));
            i = i + 1;
        }
        proof {
            reveal_strlit("\n");
        }
        assert("\n"@ == seq!['\n']);
        let r = join(lines.as_slice(), "\n");
        assert(r@ == joined(strings_view(lines@), seq!['\n']));
        assert(strings_view(lines@) =~= Seq::new(
                    (entries@.len() - start) as nat,
                    |k: int| listing_line((start + k + 1) as nat, es[start + k]),
                ));
        r
    }

    /// Decides what `history` does with `args`. `-r`, `-w` and `-a` take a file; `-a` also
    /// marks every line as appended. Without an option the history is listed, only the last
    /// `n` lines when the first argument is a number `n`.
    pub fn plan(args: &Vec<String>, history: &mut HistoryCtx) -> (r: HistoryCommand)
        requires
            old(history).wf(),
        ensures
            final(history).wf(),
            final(history).entries == old(history).entries,
            ({
                let a = strings_view(args@);
                let es = strings_view(old(history).entries@);
                let i = first_option(a, 0);
                if i >= a.len() {
                    &&& final(history).last_appended == old(history).last_appended
                    &&& r matches HistoryCommand::Print(t) && t@ == listing(
                        es,
                        listing_start(a, es.len()),
                    )
                } else if i + 1 >= a.len() {
                    &&& final(history).last_appended == old(history).last_appended
                    &&& r matches HistoryCommand::Fail(m) && m@ == "Error: Option "@ + a[i]
                        + " requires an argument"@
                } else if a[i] == seq!['-', 'r'] {
                    &&& final(history).last_appended == old(history).last_appended
                    &&& r matches HistoryCommand::Read(p) && p@ == a[i + 1]
                } else if a[i] == seq!['-', 'w'] {
                    &&& final(history).last_appended == old(history).last_appended
                    &&& r matches HistoryCommand::Write(p, t) && p@ == a[i + 1] && t@ == joined(
                        es,
                        seq!['\n'],
                    )
                } else if a[i] == seq!['-', 'a'] {
                    &&& final(history).last_appended == es.len()
                    &&& r matches HistoryCommand::Append(p, t) && p@ == a[i + 1] && t@ == joined(
                        es.skip(old(history).last_appended as int),
                        seq!['\n'],
                    )
                } else {
                    &&& final(history).last_appended == old(history).last_appended
                    &&& r matches HistoryCommand::Fail(m) && m@ == "Error: Unknown option "@ + a[i]
                }
            }),
    {
        let ghost a = strings_view(args@);
        let mut i: usize = 0;
        while i < args.len()
            invariant
                a == strings_view(args@),
                i <= args@.len(),
                history.entries == old(history).entries,
                history.last_appended == old(history).last_appended,
                old(history).wf(),
                first_option(a, 0) == first_option(a, i as int),
            decreases args@.len() - i,
        {
            if is_option(args[i].as_str()) {
                if i + 1 >= args.len() {
                    let mut m = String::new();
                    m.append("Error: Option ");
                    m.append(args[i].as_str());
                    m.append(" requires an argument");
                    return HistoryCommand::Fail(m);
                }
                let next_arg = args[i + 1].clone();
                proof {
                    reveal_strlit("\n");
                }
                assert("\n"@ == seq!['\n']);
                if flag_is(args[i].as_str(), 'r') {
                    return HistoryCommand::Read(next_arg);
                }
                if flag_is(args[i].as_str(), 'w') {
                    return HistoryCommand::Write(next_arg, join(history.entries.as_slice(), "\n"));
                }
                if flag_is(args[i].as_str(), 'a') {
                    let tail = history.entries.as_slice().split_at(history.last_appended).1;
                    let content = join(tail, "\n");
                    proof {
                        assert(strings_view(tail@) =~= strings_view(history.entries@).skip(
                            history.last_appended as int,
                        ));
                    }
                    history.last_appended = history.entries.len();
                    return HistoryCommand::Append(next_arg, content);
                }
                let mut m = String::new();
                m.append("Error: Unknown option ");
                m.append(args[i].as_str());
                return HistoryCommand::Fail(m);
            }
            i = i + 1;
        }
        let mut start: usize = 0;
        if args.len() > 0 {
            match parse_usize(args[0].as_str()) {
                Some(n) => {
                    start = history.entries.len().saturating_sub(n);
                },
                None => {},
            }
        }
        HistoryCommand::Print(Self::listing(&history.entries, start))
    }

    /// Loads what was read from a history file (`None` when it could not be read) into
    /// `entries`, one entry per line, and gives the exit status of `history -r`.
    pub fn load(content: Option<&str>, entries: &mut Vec<String>) -> (code: i32)
        ensures
            ({
                let (after, c) = loaded_history(
                    strings_view(old(entries)@),
                    match content {
                        Some(t) => Some(t@),
                        None => None,
                    },
                );
                &&& strings_view(final(entries)@) == after
                &&& code == c
            }),
    {
        match content {
            Some(text) => {
                push_lines(text, entries);
                0
            },
            None => 1,
        }
    }
}

/// The history after loading a file's text into `loaded`, and the exit status: the lines of
/// the text are appended and the status is 0; a file that could not be read (`None`) leaves
/// the history as it was, with status 1.
pub open spec fn loaded_history(loaded: Seq<Seq<char>>, content: Option<Seq<char>>) -> (
    Seq<Seq<char>>,
    i32,
) {
    match content {
        Some(t) => (loaded + lines_of(t), 0i32),
        None => (loaded, 1i32),
    }
}

} // verus!

verus! {

/// Once `history -a` has appended every line, appending again adds nothing.
pub proof fn lemma_append_twice(es: Seq<Seq<char>>)
    ensures
        joined(es.skip(es.len() as int), seq!['\n']) == Seq::<char>::empty(),
{
    assert(es.skip(es.len() as int) =~= Seq::<Seq<char>>::empty());
}

} // verus!

verus! {

/// Reading back what `history -w` wrote gives the history again. The text of
/// `HistoryCommand::Write` is the lines joined by `'\n'`; writing it to a file adds a line
/// end; loading that file's text (`History::load`) into any history `loaded` succeeds with
/// status 0. When there is at least one line, none holds a `'\n'` and none ends with `'\r'`,
/// what is appended is exactly the lines written.
pub proof fn lemma_write_then_read(loaded: Seq<Seq<char>>, es: Seq<Seq<char>>)
    requires
        es.len() > 0,
        forall|k: int| 0 <= k < es.len() ==> !(#[trigger] es[k]).contains('\n'),
        forall|k: int| 0 <= k < es.len() ==> !((#[trigger] es[k]).len() > 0 && es[k].last() == '\r'),
    ensures
        loaded_history(loaded, Some(joined(es, seq!['\n']) + seq!['\n'])) == (loaded + es, 0i32),
{
    lemma_lines_of_written(es);
}

} // verus!

use vstd::prelude::*;
use crate::runnable::{flag_is, is_option, starts_with_dash, Outcome, OutcomeView};
use crate::structures::string_map::StringMap;
use crate::structures::trie::Trie;
use crate::utils::text::{chars_of, lines_of, push_lines, strings_view, trim, trimmed};

verus! {

/// The completion programs registered with `complete -C`, by command name.
pub type CompletionPath = StringMap;

/// The `complete` builtin.
pub struct Complete;

/// What `complete` does with the arguments from index `i` on, given the registered programs:
/// the outcome and the programs afterwards. `-p NAME` shows the registration of `NAME`,
/// `-C PROGRAM NAME` registers `PROGRAM` for `NAME` and goes on, other arguments are skipped.
pub open spec fn complete_run(args: Seq<Seq<char>>, i: int, paths: Map<Seq<char>, Seq<char>>) -> (
    OutcomeView,
    Map<Seq<char>, Seq<char>>,
)
    decreases args.len() - i,
{
    if i < 0 || i >= args.len() {
        (OutcomeView::Done, paths)
    } else if !starts_with_dash(args[i]) {
        complete_run(args, i + 1, paths)
    } else if i + 1 >= args.len() {
        (
            OutcomeView::Fail("complete: option "@ + args[i] + " requires an argument"@, 1),
            paths,
        )
    } else if args[i] == seq!['-', 'p'] {
        if paths.contains_key(args[i + 1]) {
            (
                OutcomeView::Print("complete -C '"@ + paths[args[i + 1]] + "' "@ + args[i + 1]),
                paths,
            )
        } else {
            (
                OutcomeView::Fail("complete: "@ + args[i + 1] + ": no completion specification"@, 1),
                paths,
            )
        }
    } else if args[i] == seq!['-', 'C'] {
        if i + 2 >= args.len() {
            (
                OutcomeView::Fail("complete: option "@ + args[i] + " requires 2 arguments"@, 1),
                paths,
            )
        } else {
            complete_run(args, i + 1, paths.insert(args[i + 2], args[i + 1]))
        }
    } else {
        complete_run(args, i + 1, paths)
    }
}

/// The words that a completion program's output offers: its lines with whitespace trimmed,
/// leaving out the lines that are then empty.
pub open spec fn offered_words(output: Seq<char>) -> Set<Seq<char>> {
    Set::new(
        |w: Seq<char>|
            w.len() > 0 && exists|k: int|
                0 <= k < lines_of(output).len() && w == trim(#[trigger] lines_of(output)[k]),
    )
}

impl Complete {
    /// Adds the words that a completion program printed (`output`) to the prefix tree of its
    /// command.
    pub fn add_completion_output(cmd_trie: &mut Trie, output: &str)
        requires
            old(cmd_trie).wf(),
        ensures
            final(cmd_trie).wf(),
            final(cmd_trie)@ == old(cmd_trie)@.union(offered_words(output@)),
    {
        let ghost base = cmd_trie@;
        let mut lines: Vec<String> = Vec::new();
        push_lines(output, &mut lines);
        let ghost ls = lines_of(output@);
        assert(strings_view(lines@) =~= ls);
        let mut k: usize = 0;
        while k < lines.len()
            invariant
                cmd_trie.wf(),
                k <= lines@.len(),
                strings_view(lines@) == ls,
                cmd_trie@ == base.union(
                    Set::new(
                        |w: Seq<char>|
                            w.len() > 0 && exists|j: int| 0 <= j < k && w == trim(#[trigger] ls[j]),
                    ),
                ),
            decreases lines@.len() - k,
        {
            let v = chars_of(lines[k].as_str());
            let line = trimmed(&v, 0, v.len());
            assert(v@.subrange(0, v@.len() as int) =~= v@);
            assert(ls[k as int] == lines@[k as int]@);
            let ghost before = cmd_trie@;
            if !line.as_str().is_empty() {
                cmd_trie.insert(line.as_str());
            }
            proof {
                let f = |w: Seq<char>|
                    w.len() > 0 && exists|j: int| 0 <= j < k && w == trim(#[trigger] ls[j]);
                let g = |w: Seq<char>|
                    w.len() > 0 && exists|j: int| 0 <= j < k + 1 && w == trim(#[trigger] ls[j]);
                assert(line@ == trim(ls[k as int]));
                assert forall|w: Seq<char>| cmd_trie@.contains(w) <==> base.union(Set::new(g)).contains(
                    w,
                ) by {
                    if g(w) && !f(w) {
                        let j = choose|j: int| 0 <= j < k + 1 && w == trim(#[trigger] ls[j]);
                        assert(j == k);
                    }
                    if f(w) {
                        let j = choose|j: int| 0 <= j < k && w == trim(#[trigger] ls[j]);
                        assert(g(w));
                    }
                    if w == line@ && w.len() > 0 {
                        assert(g(w));
                    }
                }
                assert(cmd_trie@ =~= base.union(Set::new(g)));
            }
            k = k + 1;
        }
        assert(cmd_trie@ =~= old(cmd_trie)@.union(offered_words(output@)));
    }

    /// Runs `complete` with `args` on the registered completion programs.
    pub fn execute(args: &Vec<String>, completions_path: &mut CompletionPath) -> (r: Outcome)
        ensures
            (r@, final(completions_path)@) == complete_run(
                strings_view(args@),
                0,
                old(completions_path)@,
            ),
    {
        let ghost a = strings_view(args@);
        let mut i: usize = 0;
        while i < args.len()
            invariant
                a == strings_view(args@),
                i <= args@.len(),
                complete_run(a, 0, old(completions_path)@) == complete_run(
                    a,
                    i as int,
                    completions_path@,
                ),
            decreases args@.len() - i,
        {
            let arg = args[i].as_str();
            if is_option(arg) {
                if i + 1 >= args.len() {
                    let mut m = String::new();
                    m.append("complete: option ");
                    m.append(arg);
                    m.append(" requires an argument");
                    return Outcome::Fail(m, 1);
                }
                let flag_arg = args[i + 1].as_str();
                if flag_is(arg, 'p') {
                    match completions_path.get(flag_arg) {
                        Some(path) => {
                            let mut t = String::new();
                            t.append("complete -C '");
                            t.append(path.as_str());
                            t.append("' ");
                            t.append(flag_arg);
                            return Outcome::Print(t);
                        },
                        None => {
                            let mut m = String::new();
                            m.append("complete: ");
                            m.append(flag_arg);
                            m.append(": no completion specification");
                            return Outcome::Fail(m, 1);
                        },
                    }
                } else if flag_is(arg, 'C') {
                    if i + 2 >= args.len() {
                        let mut m = String::new();
                        m.append("complete: option ");
                        m.append(arg);
                        m.append(" requires 2 arguments");
                        return Outcome::Fail(m, 1);
                    }
                    let name_exe = args[i + 2].clone();
                    completions_path.insert(name_exe, flag_arg.to_owned());
                }
            }
            i = i + 1;
        }
        Outcome::Done
    }
}

} // verus!

verus! {

/// After `complete -C PROGRAM NAME`, `complete -p NAME` shows that registration (when
/// neither word looks like an option).
pub proof fn lemma_register_then_show(
    paths: Map<Seq<char>, Seq<char>>,
    program: Seq<char>,
    name: Seq<char>,
)
    requires
        !starts_with_dash(program),
        !starts_with_dash(name),
    ensures
        complete_run(seq![seq!['-', 'C'], program, name], 0, paths) == (
            OutcomeView::Done,
            paths.insert(name, program),
        ),
        complete_run(seq![seq!['-', 'p'], name], 0, paths.insert(name, program)) == (
            OutcomeView::Print("complete -C '"@ + program + "' "@ + name),
            paths.insert(name, program),
        ),
{
    let a = seq![seq!['-', 'C'], program, name];
    let q = paths.insert(name, program);
    assert(starts_with_dash(a[0]));
    assert(complete_run(a, 2, q) == complete_run(a, 3, q));
    assert(complete_run(a, 1, q) == complete_run(a, 2, q));
    let b = seq![seq!['-', 'p'], name];
    assert(starts_with_dash(b[0]));
    assert(b[0] != seq!['-', 'C']);
}

} // verus!

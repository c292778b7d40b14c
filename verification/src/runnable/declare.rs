use vstd::prelude::*;
use crate::runnable::{first_option, flag_is, is_option, Outcome};
use crate::structures::string_map::StringMap;
use crate::utils::text::{chars_of, find_from, lemma_find_from, strings_view, trim, trimmed};

verus! {

/// The shell's variables: names mapped to values.
pub type ShellVariable = StringMap;

/// The `declare` builtin.
pub struct Declare;

/// `name=value` split at its first `=`, with whitespace trimmed around both sides; `None`
/// when there is no `=`.
pub open spec fn declare_parts(s: Seq<char>) -> Option<(Seq<char>, Seq<char>)> {
    let k = find_from(s, '=', 0);
    if k < s.len() {
        Some((trim(s.take(k)), trim(s.skip(k + 1))))
    } else {
        None
    }
}

impl Declare {
    /// Splits `name=value` at the first `=`, trimming whitespace around both sides.
    /// Returns `None` when there is no `=`.
    pub fn parse_declare(content: &str) -> (r: Option<(String, String)>)
        ensures
            match r {
                None => declare_parts(content@) is None,
                Some((name, value)) => declare_parts(content@) == Some((name@, value@)),
            },
    {
        let chars = chars_of(content);
        proof {
            lemma_find_from(content@, '=', 0);
        }
        let mut k: usize = 0;
        while k < chars.len()
            invariant
                k <= chars.len(),
                chars@ == content@,
                forall|j: int| 0 <= j < k ==> chars@[j] != '=',
            decreases chars.len() - k,
        {
            if chars[k] == '=' {
                let name = trimmed(&chars, 0, k);
                let value = trimmed(&chars, k + 1, chars.len());
                proof {
                    lemma_find_from(content@, '=', 0);
                }
                assert(find_from(content@, '=', 0) == k);
                assert(chars@.subrange(0, k as int) =~= content@.take(k as int));
                assert(chars@.subrange(k + 1, chars.len() as int) =~= content@.skip(k + 1));
                return Some((name, value));
            }
            k = k + 1;
        }
        None
    }

    /// Runs `declare` with `args` on the variables: `-p NAME` shows a variable, `NAME=VALUE`
    /// sets one. The first option decides; without one, the first argument is an assignment.
    pub fn execute(args: &Vec<String>, shell_vars: &mut ShellVariable) -> (r: Outcome)
        requires
            args@.len() > 0,
        ensures
            ({
                let a = strings_view(args@);
                let i = first_option(a, 0);
                if i < a.len() {
                    &&& final(shell_vars)@ == old(shell_vars)@
                    &&& if i + 1 >= a.len() {
                        r matches Outcome::Fail(m, 1) && m@ == "declare: option requires an argument -- '"@
                            + a[i] + "'"@
                    } else if a[i] == seq!['-', 'p'] {
                        if old(shell_vars)@.contains_key(a[i + 1]) {
                            r matches Outcome::Print(t) && t@ == "declare -- "@ + a[i + 1] + "=\""@
                                + old(shell_vars)@[a[i + 1]] + "\""@
                        } else {
                            r matches Outcome::Fail(m, 1) && m@ == "declare: "@ + a[i + 1]
                                + ": not found"@
                        }
                    } else {
                        r matches Outcome::Fail(m, 1) && m@ == "declare: invalid option -- '"@ + a[i]
                            + "'"@
                    }
                } else {
                    match declare_parts(a[0]) {
                        Some((name, value)) => r is Done && final(shell_vars)@ == old(
                            shell_vars,
                        )@.insert(name, value),
                        None => r matches Outcome::Fail(m, 1) && m@ == "declare: invalid argument '"@
                            + a[0] + "'"@ && final(shell_vars)@ == old(shell_vars)@,
                    }
                }
            }),
    {
        let ghost a = strings_view(args@);
        let mut i: usize = 0;
        while i < args.len()
            invariant
                a == strings_view(args@),
                i <= args@.len(),
                first_option(a, 0) == first_option(a, i as int),
                shell_vars@ == old(shell_vars)@,
            decreases args@.len() - i,
        {
            let arg = args[i].as_str();
            if is_option(arg) {
                if i + 1 >= args.len() {
                    let mut m = String::new();
                    m.append("declare: option requires an argument -- '");
                    m.append(arg);
                    m.append("'");
                    return Outcome::Fail(m, 1);
                }
                let next_arg = args[i + 1].as_str();
                if flag_is(arg, 'p') {
                    match shell_vars.get(next_arg) {
                        Some(value) => {
                            let mut t = String::new();
                            t.append("declare -- ");
                            t.append(next_arg);
                            t.append("=\"");
                            t.append(value.as_str());
                            t.append("\"");
                            return Outcome::Print(t);
                        },
                        None => {
                            let mut m = String::new();
                            m.append("declare: ");
                            m.append(next_arg);
                            m.append(": not found");
                            return Outcome::Fail(m, 1);
                        },
                    }
                }
                let mut m = String::new();
                m.append("declare: invalid option -- '");
                m.append(arg);
                m.append("'");
                return Outcome::Fail(m, 1);
            }
            i = i + 1;
        }
        match Self::parse_declare(args[0].as_str()) {
            Some((name, value)) => {
                shell_vars.insert(name, value);
                Outcome::Done
            },
            None => {
                let mut m = String::new();
                m.append("declare: invalid argument '");
                m.append(args[0].as_str());
                m.append("'");
                Outcome::Fail(m, 1)
            },
        }
    }
}

} // verus!

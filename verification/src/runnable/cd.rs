use vstd::prelude::*;
use crate::runnable::{Outcome, OutcomeView};
use crate::structures::trie::Trie;
use crate::utils::text::push_char;

verus! {

/// The `cd` builtin.
pub struct Cd;

/// The name under which a file system entry is completed: directories get a trailing `/`.
pub open spec fn entry_name(rel: Seq<char>, is_dir: bool) -> Seq<char> {
    if is_dir {
        rel.push('/')
    } else {
        rel
    }
}

impl Cd {
    /// Adds each entry (its path relative to the current directory, and whether it is a
    /// directory) to the tree of file names.
    pub fn build_filesystem_trie(trie: &mut Trie, entries: &Vec<(String, bool)>)
        requires
            old(trie).wf(),
        ensures
            final(trie).wf(),
            final(trie)@ == old(trie)@.union(
                Set::new(
                    |x: Seq<char>|
                        exists|k: int|
                            0 <= k < entries@.len() && x == entry_name(
                                entries@[k].0@,
                                entries@[k].1,
                            ),
                ),
            ),
    {
        let ghost base = trie@;
        let mut k: usize = 0;
        while k < entries.len()
            invariant
                trie.wf(),
                k <= entries@.len(),
                trie@ == base.union(
                    Set::new(
                        |x: Seq<char>|
                            exists|j: int|
                                0 <= j < k && x == entry_name(entries@[j].0@, entries@[j].1),
                    ),
                ),
            decreases entries@.len() - k,
        {
            let mut rel = entries[k].0.clone();
            if entries[k].1 {
                push_char(&mut rel, '/');
            }
            let ghost before = trie@;
            trie.insert(rel.as_str());
            proof {
                let f = |x: Seq<char>|
                    exists|j: int| 0 <= j < k && x == entry_name(entries@[j].0@, entries@[j].1);
                let g = |x: Seq<char>|
                    exists|j: int| 0 <= j < k + 1 && x == entry_name(entries@[j].0@, entries@[j].1);
                assert(rel@ == entry_name(entries@[k as int].0@, entries@[k as int].1));
                assert forall|x: Seq<char>| trie@.contains(x) <==> base.union(Set::new(g)).contains(
                    x,
                ) by {
                    if g(x) && !f(x) {
                        let j = choose|j: int|
                            0 <= j < k + 1 && x == entry_name(entries@[j].0@, entries@[j].1);
                        assert(j == k);
                    }
                    if f(x) {
                        let j = choose|j: int|
                            0 <= j < k && x == entry_name(entries@[j].0@, entries@[j].1);
                        assert(g(x));
                    }
                }
                assert(trie@ =~= base.union(Set::new(g)));
            }
            k = k + 1;
        }
    }

    /// The error `cd` reports for a path that is not a directory (exit status 1).
    pub fn failure(arg: &str) -> (r: Outcome)
        ensures
            r@ == OutcomeView::Fail("cd: "@ + arg@ + ": No such file or directory"@, 1),
    {
        let mut m = String::new();
        m.append("cd: ");
        m.append(arg);
        m.append(": No such file or directory");
        Outcome::Fail(m, 1)
    }
}

} // verus!

use vstd::prelude::*;
use crate::utils::text::{chars_of, pop_char, push_char, string_of, strings_view};

verus! {

/// A node of a prefix tree: its children by next character, and whether a word ends here.
#[derive(Debug)]
pub struct TrieNode {
    children: Vec<(char, TrieNode)>,
    is_word: bool,
}

/// The node reached from `n` by following the characters of `w`, if there is one.
pub closed spec fn node_at(n: TrieNode, w: Seq<char>) -> Option<TrieNode>
    decreases w.len(),
{
    if w.len() == 0 {
        Some(n)
    } else if exists|i: int| 0 <= i < n.children@.len() && n.children@[i].0 == w[0] {
        let i = choose|i: int| 0 <= i < n.children@.len() && n.children@[i].0 == w[0];
        node_at(n.children@[i].1, w.drop_first())
    } else {
        None
    }
}

/// Whether the word `w` is stored below `n`.
pub closed spec fn has_word(n: TrieNode, w: Seq<char>) -> bool {
    match node_at(n, w) {
        Some(m) => m.is_word,
        None => false,
    }
}

/// The children of `n` have distinct characters.
pub closed spec fn distinct_keys(n: TrieNode) -> bool {
    forall|i: int, j: int| 0 <= i < j < n.children@.len() ==> n.children@[i].0 != n.children@[j].0
}

/// Well-formedness of a node below the root: children have distinct characters, the node
/// either ends a word or has children, and the same holds below.
pub closed spec fn wf_node(n: TrieNode) -> bool
    decreases n,
{
    &&& distinct_keys(n)
    &&& (n.is_word || n.children@.len() > 0)
    &&& forall|i: int| 0 <= i < n.children@.len() ==> wf_node(#[trigger] n.children@[i].1)
}

/// Well-formedness of a root: like `wf_node`, except that the root of an empty tree ends no
/// word and has no children.
pub closed spec fn wf_root(n: TrieNode) -> bool {
    &&& distinct_keys(n)
    &&& forall|i: int| 0 <= i < n.children@.len() ==> wf_node(#[trigger] n.children@[i].1)
}

/// `a` is a prefix of `b`.
pub open spec fn prefix_of(a: Seq<char>, b: Seq<char>) -> bool {
    a.len() <= b.len() && b.take(a.len() as int) == a
}

/// The characters below a node that has no branching: `Some` of the path down to its only
/// leaf, or `None` when some node on the way has two or more children.
pub closed spec fn path_of(n: TrieNode) -> Option<Seq<char>>
    decreases n,
{
    if n.children@.len() == 0 {
        Some(Seq::empty())
    } else if n.children@.len() == 1 {
        match path_of(n.children@[0].1) {
            Some(p) => Some(seq![n.children@[0].0] + p),
            None => None,
        }
    } else {
        None
    }
}

/// With distinct keys, following a word goes through the one child whose key is its first
/// character.
proof fn lemma_node_at_child(n: TrieNode, k: int, w: Seq<char>)
    requires
        distinct_keys(n),
        0 <= k < n.children@.len(),
        w.len() > 0,
        n.children@[k].0 == w[0],
    ensures
        node_at(n, w) == node_at(n.children@[k].1, w.drop_first()),
{
    let i = choose|i: int| 0 <= i < n.children@.len() && n.children@[i].0 == w[0];
    if i != k {
        if i < k {
            assert(n.children@[i].0 != n.children@[k].0);
        } else {
            assert(n.children@[k].0 != n.children@[i].0);
        }
    }
}

/// Following `a + b` is following `a`, then `b`.
proof fn lemma_node_at_concat(n: TrieNode, a: Seq<char>, b: Seq<char>)
    ensures
        node_at(n, a + b) == match node_at(n, a) {
            Some(m) => node_at(m, b),
            None => None,
        },
    decreases a.len(),
{
    if a.len() == 0 {
        assert(a + b =~= b);
    } else {
        assert((a + b)[0] == a[0]);
        assert((a + b).drop_first() =~= a.drop_first() + b);
        if exists|i: int| 0 <= i < n.children@.len() && n.children@[i].0 == a[0] {
            let i = choose|i: int| 0 <= i < n.children@.len() && n.children@[i].0 == a[0];
            lemma_node_at_concat(n.children@[i].1, a.drop_first(), b);
        }
    }
}

/// A well-formed node holds some word.
proof fn lemma_some_word(n: TrieNode) -> (w: Seq<char>)
    requires
        wf_node(n),
    ensures
        has_word(n, w),
    decreases n,
{
    if n.is_word {
        Seq::empty()
    } else {
        let c = n.children@[0].0;
        let m = n.children@[0].1;
        let u = lemma_some_word(m);
        let w = seq![c] + u;
        assert(w.drop_first() =~= u);
        lemma_node_at_child(n, 0, w);
        w
    }
}

/// When a node does not branch, its path is a word and every word below is a prefix of it.
proof fn lemma_path_some(n: TrieNode)
    requires
        wf_node(n),
        path_of(n) is Some,
    ensures
        has_word(n, path_of(n)->0),
        forall|w: Seq<char>| has_word(n, w) ==> prefix_of(w, path_of(n)->0),
    decreases n,
{
    let x = path_of(n)->0;
    if n.children@.len() == 0 {
        assert forall|w: Seq<char>| has_word(n, w) implies prefix_of(w, x) by {
            if w.len() > 0 {
                assert(node_at(n, w) is None);
            } else {
                assert(x.take(0) =~= w);
            }
        }
    } else {
        let c = n.children@[0].0;
        let m = n.children@[0].1;
        assert(wf_node(m));
        lemma_path_some(m);
        let p = path_of(m)->0;
        assert(x == seq![c] + p);
        assert(x.drop_first() =~= p);
        lemma_node_at_child(n, 0, x);
        assert forall|w: Seq<char>| has_word(n, w) implies prefix_of(w, x) by {
            if w.len() > 0 {
                assert(n.children@[0].0 == w[0]);
                lemma_node_at_child(n, 0, w);
                assert(has_word(m, w.drop_first()));
                assert(prefix_of(w.drop_first(), p));
                assert(x.take(w.len() as int) =~= seq![c] + p.take(w.len() - 1));
                assert(w =~= seq![w[0]] + w.drop_first());
            } else {
                assert(x.take(0) =~= w);
            }
        }
    }
}

/// When a node branches, it holds two words of which neither is a prefix of the other.
proof fn lemma_path_none(n: TrieNode) -> (r: (Seq<char>, Seq<char>))
    requires
        wf_node(n),
        path_of(n) is None,
    ensures
        has_word(n, r.0),
        has_word(n, r.1),
        !prefix_of(r.0, r.1),
        !prefix_of(r.1, r.0),
    decreases n,
{
    if n.children@.len() == 1 {
        let c = n.children@[0].0;
        let m = n.children@[0].1;
        assert(wf_node(m));
        let (u1, u2) = lemma_path_none(m);
        let w1 = seq![c] + u1;
        let w2 = seq![c] + u2;
        assert(w1.drop_first() =~= u1);
        assert(w2.drop_first() =~= u2);
        lemma_node_at_child(n, 0, w1);
        lemma_node_at_child(n, 0, w2);
        if prefix_of(w1, w2) {
            assert(u2.take(u1.len() as int) =~= w2.take(w1.len() as int).drop_first());
        }
        if prefix_of(w2, w1) {
            assert(u1.take(u2.len() as int) =~= w1.take(w2.len() as int).drop_first());
        }
        (w1, w2)
    } else {
        let m0 = n.children@[0].1;
        let m1 = n.children@[1].1;
        assert(wf_node(m0));
        assert(wf_node(m1));
        let u0 = lemma_some_word(m0);
        let u1 = lemma_some_word(m1);
        let w0 = seq![n.children@[0].0] + u0;
        let w1 = seq![n.children@[1].0] + u1;
        assert(w0.drop_first() =~= u0);
        assert(w1.drop_first() =~= u1);
        lemma_node_at_child(n, 0, w0);
        lemma_node_at_child(n, 1, w1);
        assert(w0[0] != w1[0]);
        if prefix_of(w0, w1) {
            assert(w1.take(w0.len() as int)[0] == w0[0]);
        }
        if prefix_of(w1, w0) {
            assert(w0.take(w1.len() as int)[0] == w1[0]);
        }
        (w0, w1)
    }
}


/// A node reached inside a well-formed tree by a nonempty path is well-formed.
proof fn lemma_node_at_wf(n: TrieNode, w: Seq<char>)
    requires
        wf_node(n),
        node_at(n, w) is Some,
    ensures
        wf_node(node_at(n, w)->0),
    decreases w.len(),
{
    if w.len() > 0 {
        let i = choose|i: int| 0 <= i < n.children@.len() && n.children@[i].0 == w[0];
        assert(wf_node(n.children@[i].1));
        lemma_node_at_wf(n.children@[i].1, w.drop_first());
    }
}

/// The node reached along a non-empty path of a well-formed root is well formed.
proof fn lemma_root_node_at_wf(n: TrieNode, w: Seq<char>)
    requires
        wf_root(n),
        node_at(n, w) is Some,
        w.len() > 0 || n.is_word,
    ensures
        wf_node(node_at(n, w)->0),
{
    if w.len() > 0 {
        let i = choose|i: int| 0 <= i < n.children@.len() && n.children@[i].0 == w[0];
        assert(wf_node(n.children@[i].1));
        lemma_node_at_wf(n.children@[i].1, w.drop_first());
    }
}

/// `n` has no children and ends no word.
pub closed spec fn is_empty_node(n: TrieNode) -> bool {
    n.children@.len() == 0 && !n.is_word
}

impl TrieNode {
    /// A node with no children that ends no word.
    pub fn new() -> (r: Self)
        ensures
            is_empty_node(r),
            wf_root(r),
            forall|w: Seq<char>| !has_word(r, w),
    {
        let r = Self { children: Vec::new(), is_word: false };
        assert forall|w: Seq<char>| !has_word(r, w) by {
            if w.len() > 0 {
                assert(node_at(r, w) is None);
            }
        }
        r
    }
}

/// Index of the child of `node` whose key is `c`, if there is one.
fn find_child(node: &TrieNode, c: char) -> (r: Option<usize>)
    ensures
        match r {
            Some(k) => k < node.children@.len() && node.children@[k as int].0 == c,
            None => forall|j: int| 0 <= j < node.children@.len() ==> node.children@[j].0 != c,
        },
{
    let mut k: usize = 0;
    while k < node.children.len()
        invariant
            k <= node.children@.len(),
            forall|j: int| 0 <= j < k ==> node.children@[j].0 != c,
        decreases node.children@.len() - k,
    {
        if node.children[k].0 == c {
            return Some(k);
        }
        k = k + 1;
    }
    None
}

/// The words below `new` are those below `old` and `v`.
pub closed spec fn inserted(old: TrieNode, new: TrieNode, v: Seq<char>) -> bool {
    forall|u: Seq<char>| has_word(new, u) <==> (has_word(old, u) || u == v)
}

/// Two non-empty sequences are equal when their first elements and their rests are.
proof fn lemma_seq_cons(v: Seq<char>, u: Seq<char>)
    requires
        v.len() > 0,
        u.len() > 0,
    ensures
        u == v <==> (u[0] == v[0] && u.drop_first() == v.drop_first()),
{
    if u[0] == v[0] && u.drop_first() == v.drop_first() {
        assert(u.len() == u.drop_first().len() + 1);
        assert(v.len() == v.drop_first().len() + 1);
        assert forall|k: int| 0 <= k < u.len() implies u[k] == v[k] by {
            if k > 0 {
                assert(u[k] == u.drop_first()[k - 1]);
                assert(v[k] == v.drop_first()[k - 1]);
            }
        }
        assert(u =~= v);
    }
}

/// Replacing the child that `v` goes through by one that also holds the rest of `v`
/// adds `v`.
proof fn lemma_inserted_update(old: TrieNode, new: TrieNode, k: int, nc: TrieNode, v: Seq<char>)
    requires
        distinct_keys(old),
        0 <= k < old.children@.len(),
        v.len() > 0,
        old.children@[k].0 == v[0],
        new.children@ == old.children@.update(k, (v[0], nc)),
        new.is_word == old.is_word,
        inserted(old.children@[k].1, nc, v.drop_first()),
    ensures
        distinct_keys(new),
        inserted(old, new, v),
{
    assert forall|a: int, b: int| 0 <= a < b < new.children@.len() implies new.children@[a].0
        != new.children@[b].0 by {
        assert(old.children@[a].0 != old.children@[b].0);
    }
    assert forall|u: Seq<char>| has_word(new, u) <==> (has_word(old, u) || u == v) by {
        if u.len() > 0 {
            lemma_seq_cons(v, u);
            if u[0] == v[0] {
                lemma_node_at_child(new, k, u);
                lemma_node_at_child(old, k, u);
                assert(has_word(nc, u.drop_first()) <==> (has_word(old.children@[k].1, u.drop_first())
                    || u.drop_first() == v.drop_first()));
            } else if exists|j: int| 0 <= j < old.children@.len() && old.children@[j].0 == u[0] {
                let j = choose|j: int| 0 <= j < old.children@.len() && old.children@[j].0 == u[0];
                assert(new.children@[j] == old.children@[j]);
                lemma_node_at_child(new, j, u);
                lemma_node_at_child(old, j, u);
            } else {
                assert forall|j: int| 0 <= j < new.children@.len() implies new.children@[j].0
                    != u[0] by {
                    if j != k {
                        assert(new.children@[j] == old.children@[j]);
                    }
                }
                assert(node_at(new, u) is None);
                assert(node_at(old, u) is None);
            }
        } else {
            assert(node_at(new, u) == Some(new));
            assert(node_at(old, u) == Some(old));
            assert(u.len() != v.len());
        }
    }
}

/// Adding a new child that holds exactly the rest of `v`, under `v`'s first character,
/// adds `v`.
proof fn lemma_inserted_push(old: TrieNode, new: TrieNode, nc: TrieNode, v: Seq<char>)
    requires
        distinct_keys(old),
        v.len() > 0,
        forall|j: int| 0 <= j < old.children@.len() ==> old.children@[j].0 != v[0],
        new.children@ == old.children@.push((v[0], nc)),
        new.is_word == old.is_word,
        forall|u: Seq<char>| has_word(nc, u) <==> u == v.drop_first(),
    ensures
        distinct_keys(new),
        inserted(old, new, v),
{
    assert forall|a: int, b: int| 0 <= a < b < new.children@.len() implies new.children@[a].0
        != new.children@[b].0 by {
        if b < old.children@.len() {
            assert(old.children@[a].0 != old.children@[b].0);
        }
    }
    let k = old.children@.len() as int;
    assert forall|u: Seq<char>| has_word(new, u) <==> (has_word(old, u) || u == v) by {
        if u.len() > 0 {
            lemma_seq_cons(v, u);
            if u[0] == v[0] {
                lemma_node_at_child(new, k, u);
                assert(node_at(old, u) is None);
                assert(has_word(nc, u.drop_first()) <==> u.drop_first() == v.drop_first());
            } else if exists|j: int| 0 <= j < old.children@.len() && old.children@[j].0 == u[0] {
                let j = choose|j: int| 0 <= j < old.children@.len() && old.children@[j].0 == u[0];
                assert(new.children@[j] == old.children@[j]);
                lemma_node_at_child(new, j, u);
                lemma_node_at_child(old, j, u);
            } else {
                assert forall|j: int| 0 <= j < new.children@.len() implies new.children@[j].0
                    != u[0] by {
                    if j < k {
                        assert(new.children@[j] == old.children@[j]);
                    }
                }
                assert(node_at(new, u) is None);
                assert(node_at(old, u) is None);
            }
        } else {
            assert(node_at(new, u) == Some(new));
            assert(node_at(old, u) == Some(old));
            assert(u.len() != v.len());
        }
    }
}

/// Marking a node as the end of a word adds the empty word.
proof fn lemma_inserted_here(old: TrieNode, new: TrieNode)
    requires
        new.children@ == old.children@,
        new.is_word,
        distinct_keys(old),
    ensures
        inserted(old, new, Seq::empty()),
{
    assert forall|u: Seq<char>| has_word(new, u) <==> (has_word(old, u) || u == Seq::<char>::empty()) by {
        if u.len() > 0 {
            if exists|j: int| 0 <= j < old.children@.len() && old.children@[j].0 == u[0] {
                let j = choose|j: int| 0 <= j < old.children@.len() && old.children@[j].0 == u[0];
                lemma_node_at_child(new, j, u);
                lemma_node_at_child(old, j, u);
            }
        } else {
            assert(u =~= Seq::<char>::empty());
        }
    }
}

/// Adds the word `w[i..]` below `node`.
fn insert_rec(node: &mut TrieNode, w: &Vec<char>, i: usize)
    requires
        wf_root(*old(node)),
        i <= w@.len(),
    ensures
        wf_node(*final(node)),
        inserted(*old(node), *final(node), w@.skip(i as int)),
    decreases w@.len() - i,
{
    let ghost old_node = *node;
    if i == w.len() {
        node.is_word = true;
        proof {
            assert(w@.skip(i as int) =~= Seq::<char>::empty());
            lemma_inserted_here(old_node, *node);
        }
        return;
    }
    let c = w[i];
    let ghost v = w@.skip(i as int);
    assert(v[0] == c);
    assert(v.drop_first() =~= w@.skip(i + 1));
    match find_child(node, c) {
        Some(k) => {
            let (key, mut child) = node.children.remove(k);
            assert(wf_node(old_node.children@[k as int].1));
            insert_rec(&mut child, w, i + 1);
            node.children.insert(k, (key, child));
            proof {
                assert(node.children@ =~= old_node.children@.update(k as int, (c, child)));
                lemma_inserted_update(old_node, *node, k as int, child, v);
                assert(forall|j: int| 0 <= j < node.children@.len() ==> wf_node(#[trigger] node.children@[j].1));
            }
        },
        None => {
            let mut child = TrieNode::new();
            let ghost fresh = child;
            insert_rec(&mut child, w, i + 1);
            proof {
                assert forall|u: Seq<char>| has_word(child, u) <==> u == v.drop_first() by {
                    if u.len() > 0 {
                        assert(node_at(fresh, u) is None);
                    } else {
                        assert(node_at(fresh, u) == Some(fresh));
                    }
                }
            }
            let ghost nc = child;
            node.children.push((c, child));
            proof {
                assert(node.children@ =~= old_node.children@.push((c, nc)));
                lemma_inserted_push(old_node, *node, nc, v);
                assert(forall|j: int| 0 <= j < node.children@.len() ==> wf_node(#[trigger] node.children@[j].1));
            }
        },
    }
}

/// Words below `p` are words below the node reached by `p`.
proof fn lemma_has_word_below(n: TrieNode, p: Seq<char>, x: Seq<char>)
    requires
        prefix_of(p, x),
    ensures
        has_word(n, x) <==> (node_at(n, p) matches Some(m) && has_word(m, x.skip(p.len() as int))),
{
    assert(x =~= p + x.skip(p.len() as int));
    lemma_node_at_concat(n, p, x.skip(p.len() as int));
}

/// Two prefixes of the same sequence are prefixes of one another.
proof fn lemma_prefixes_comparable(a: Seq<char>, b: Seq<char>, x: Seq<char>)
    requires
        prefix_of(a, x),
        prefix_of(b, x),
    ensures
        prefix_of(a, b) || prefix_of(b, a),
{
    if a.len() <= b.len() {
        assert(b.take(a.len() as int) =~= x.take(a.len() as int));
    } else {
        assert(a.take(b.len() as int) =~= x.take(b.len() as int));
    }
}

/// Putting the same sequence in front keeps the prefix relation.
proof fn lemma_prefix_of_concat(p: Seq<char>, a: Seq<char>, b: Seq<char>)
    ensures
        prefix_of(p + a, p + b) <==> prefix_of(a, b),
{
    if prefix_of(a, b) {
        assert((p + b).take((p + a).len() as int) =~= p + a);
    }
    if prefix_of(p + a, p + b) {
        assert(b.take(a.len() as int) =~= (p + b).take((p + a).len() as int).skip(p.len() as int));
        assert((p + a).skip(p.len() as int) =~= a);
    }
}

/// `x` is a word of `words` extending `p` that every word extending `p` is a prefix of.
pub open spec fn greatest_extension(words: Set<Seq<char>>, p: Seq<char>, x: Seq<char>) -> bool {
    &&& words.contains(x)
    &&& prefix_of(p, x)
    &&& forall|w: Seq<char>| words.contains(w) && prefix_of(p, w) ==> prefix_of(w, x)
}

/// Descends from `root` along the characters of `p`.
fn descend<'a>(root: &'a TrieNode, p: &Vec<char>) -> (r: Option<&'a TrieNode>)
    requires
        wf_root(*root),
    ensures
        match r {
            Some(m) => node_at(*root, p@) == Some(*m) && wf_root(*m),
            None => node_at(*root, p@) is None,
        },
{
    let mut node: &TrieNode = root;
    let mut i: usize = 0;
    assert(p@.take(0) =~= Seq::<char>::empty());
    while i < p.len()
        invariant
            i <= p@.len(),
            node_at(*root, p@.take(i as int)) == Some(*node),
            wf_root(*node),
        decreases p@.len() - i,
    {
        let c = p[i];
        proof {
            assert(p@.take(i + 1) =~= p@.take(i as int) + seq![c]);
            lemma_node_at_concat(*root, p@.take(i as int), seq![c]);
        }
        match find_child(node, c) {
            Some(k) => {
                proof {
                    lemma_node_at_child(*node, k as int, seq![c]);
                    assert(seq![c].drop_first() =~= Seq::<char>::empty());
                    assert(wf_node(node.children@[k as int].1));
                }
                node = &node.children[k].1;
            },
            None => {
                proof {
                    assert(p@ =~= p@.take(i as int) + p@.skip(i as int));
                    lemma_node_at_concat(*root, p@.take(i as int), p@.skip(i as int));
                    assert(p@.skip(i as int)[0] == c);
                }
                return None;
            },
        }
        i = i + 1;
    }
    assert(p@.take(p@.len() as int) =~= p@);
    Some(node)
}

/// What completing `prefix` against the words `words` gives.
///
/// When `prefix` is itself a word: the single word that extends `prefix` and that every word
/// extending `prefix` is a prefix of, or nothing when there is no such word (the words below
/// branch). Otherwise: every word that starts with `prefix`, each once, in any order.
pub open spec fn completes(words: Set<Seq<char>>, prefix: Seq<char>, r: Seq<Seq<char>>) -> bool {
    &&& words.contains(prefix) ==> ((r.len() == 1 && greatest_extension(words, prefix, r[0])) || (
    r.len() == 0 && !exists|x: Seq<char>| greatest_extension(words, prefix, x)))
    &&& !words.contains(prefix) ==> (r.no_duplicates() && forall|x: Seq<char>|
        r.contains(x) <==> (words.contains(x) && prefix_of(prefix, x)))
}

/// Every completion is a stored word that starts with the prefix.
pub proof fn lemma_completions_are_words(words: Set<Seq<char>>, prefix: Seq<char>, r: Seq<Seq<char>>)
    requires
        completes(words, prefix, r),
    ensures
        forall|i: int| 0 <= i < r.len() ==> words.contains(#[trigger] r[i]) && prefix_of(prefix, r[i]),
{
    assert forall|i: int| 0 <= i < r.len() implies words.contains(#[trigger] r[i]) && prefix_of(
        prefix,
        r[i],
    ) by {
        if !words.contains(prefix) {
            assert(r.contains(r[i]));
        }
    }
}

/// A word that was inserted is found, and so is every word that was there before.
pub proof fn lemma_search_after_insert(words: Set<Seq<char>>, w: Seq<char>, other: Seq<char>)
    ensures
        words.insert(w).contains(w),
        words.contains(other) ==> words.insert(w).contains(other),
{
}

/// A prefix tree of words, used for completion.
#[derive(Debug)]
pub struct Trie {
    root: TrieNode,
}

impl View for Trie {
    type V = Set<Seq<char>>;

    /// The words stored.
    closed spec fn view(&self) -> Set<Seq<char>> {
        Set::new(|w: Seq<char>| has_word(self.root, w))
    }
}

impl Trie {
    /// The tree's internal invariant.
    pub closed spec fn wf(&self) -> bool {
        wf_root(self.root)
    }

    /// An empty tree.
    pub fn new() -> (t: Self)
        ensures
            t.wf(),
            t@ == Set::<Seq<char>>::empty(),
    {
        let t = Self { root: TrieNode::new() };
        assert forall|w: Seq<char>| !has_word(t.root, w) by {
            if w.len() > 0 {
                assert(node_at(t.root, w) is None);
            }
        }
        assert(t@ =~= Set::<Seq<char>>::empty());
        t
    }

    /// Removes all words.
    pub fn clear(&mut self)
        ensures
            final(self).wf(),
            final(self)@ == Set::<Seq<char>>::empty(),
    {
        self.root = TrieNode::new();
        assert forall|w: Seq<char>| !has_word(self.root, w) by {
            if w.len() > 0 {
                assert(node_at(self.root, w) is None);
            }
        }
        assert(self@ =~= Set::<Seq<char>>::empty());
    }

    /// Adds the word `s`.
    pub fn insert(&mut self, s: &str)
        requires
            old(self).wf(),
        ensures
            final(self).wf(),
            final(self)@ == old(self)@.insert(s@),
    {
        let w = chars_of(s);
        insert_rec(&mut self.root, &w, 0);
        assert(w@.skip(0) =~= s@);
        assert(self@ =~= old(self)@.insert(s@));
        assert(wf_root(self.root));
    }

    /// Whether `s` is one of the words.
    pub fn _search(&self, s: &str) -> (r: bool)
        requires
            self.wf(),
        ensures
            r == self@.contains(s@),
    {
        let w = chars_of(s);
        match descend(&self.root, &w) {
            Some(node) => node.is_word,
            None => false,
        }
    }

    /// Whether `prefix` leads somewhere in the tree: it is empty, or some word starts with it.
    pub fn _starts_with(&self, prefix: &str) -> (r: bool)
        requires
            self.wf(),
        ensures
            r == (prefix@.len() == 0 || exists|w: Seq<char>| self@.contains(w) && prefix_of(prefix@, w)),
    {
        let p = chars_of(prefix);
        let r = descend(&self.root, &p).is_some();
        proof {
            if r && p@.len() > 0 {
                let m = node_at(self.root, p@)->0;
                lemma_root_node_at_wf(self.root, p@);
                let u = lemma_some_word(m);
                assert((p@ + u).take(p@.len() as int) =~= p@);
                assert((p@ + u).skip(p@.len() as int) =~= u);
                lemma_has_word_below(self.root, p@, p@ + u);
                assert(self@.contains(p@ + u));
            }
            if p@.len() == 0 {
                assert(node_at(self.root, p@) is Some);
            }
            if exists|w: Seq<char>| self@.contains(w) && prefix_of(prefix@, w) {
                let w = choose|w: Seq<char>| self@.contains(w) && prefix_of(prefix@, w);
                lemma_has_word_below(self.root, p@, w);
            }
        }
        r
    }

    /// The characters below `node` when it does not branch.
    fn single_path(&self, node: &TrieNode) -> (r: Option<String>)
        requires
            wf_node(*node),
        ensures
            match r {
                Some(s) => path_of(*node) == Some(s@),
                None => path_of(*node) is None,
            },
        decreases node,
    {
        if node.children.len() == 0 {
            return Some(String::new());
        }
        if node.children.len() == 1 {
            let next_node = &node.children[0].1;
            assert(wf_node(*next_node));
            let child_path = self.single_path(next_node);
            let mut result = String::new();
            push_char(&mut result, node.children[0].0);
            match child_path {
                Some(child_path) => {
                    result.append(child_path.as_str());
                },
                None => {
                    return None;
                },
            }
            Some(result)
        } else {
            None
        }
    }

    /// Completions of `prefix`.
    ///
    /// When `prefix` is itself a word, the result is the single word that extends `prefix` and
    /// that every word extending `prefix` is a prefix of, or nothing if no word is like that
    /// (the words below branch). Otherwise the result is every word that starts with `prefix`,
    /// each once, in no particular order.
    pub fn autocomplete(&self, prefix: &str) -> (r: Vec<String>)
        requires
            self.wf(),
        ensures
            completes(self@, prefix@, strings_view(r@)),
    {
        let p = chars_of(prefix);
        let ghost pv = p@;
        let ghost words = self@;
        let node = match descend(&self.root, &p) {
            Some(n) => n,
            None => {
                proof {
                    assert forall|x: Seq<char>| !(words.contains(x) && prefix_of(pv, x)) by {
                        if prefix_of(pv, x) {
                            lemma_has_word_below(self.root, pv, x);
                        }
                    }
                }
                let r: Vec<String> = Vec::new();
                assert(strings_view(r@) =~= Seq::<Seq<char>>::empty());
                return r;
            },
        };
        let ghost m = *node;
        if node.is_word {
            proof {
                lemma_root_node_at_wf(self.root, pv);
                assert(words.contains(pv));
            }
            match self.single_path(node) {
                Some(full) => {
                    let mut s = prefix.to_owned();
                    s.append(full.as_str());
                    proof {
                        let q = full@;
                        let x = s@;
                        lemma_path_some(m);
                        assert(x.take(pv.len() as int) =~= pv);
                        assert(x.skip(pv.len() as int) =~= q);
                        lemma_has_word_below(self.root, pv, x);
                        assert forall|w: Seq<char>| words.contains(w) && prefix_of(pv, w) implies prefix_of(w, x) by {
                            lemma_has_word_below(self.root, pv, w);
                            let ws = w.skip(pv.len() as int);
                            assert(prefix_of(ws, q));
                            lemma_prefix_of_concat(pv, ws, q);
                            assert(w =~= pv + ws);
                        }
                        assert(greatest_extension(words, pv, x));
                    }
                    let mut v = Vec::new();
                    v.push(s);
                    return v;
                },
                None => {
                    proof {
                        let (u1, u2) = lemma_path_none(m);
                        let w1 = pv + u1;
                        let w2 = pv + u2;
                        assert(w1.take(pv.len() as int) =~= pv);
                        assert(w1.skip(pv.len() as int) =~= u1);
                        assert(w2.take(pv.len() as int) =~= pv);
                        assert(w2.skip(pv.len() as int) =~= u2);
                        lemma_has_word_below(self.root, pv, w1);
                        lemma_has_word_below(self.root, pv, w2);
                        lemma_prefix_of_concat(pv, u1, u2);
                        lemma_prefix_of_concat(pv, u2, u1);
                        if exists|x: Seq<char>| greatest_extension(words, pv, x) {
                            let x = choose|x: Seq<char>| greatest_extension(words, pv, x);
                            lemma_prefixes_comparable(w1, w2, x);
                        }
                    }
                    return Vec::new();
                },
            }
        }
        let mut results: Vec<String> = Vec::new();
        let mut current = prefix.to_owned();
        Self::collect_words(node, &mut current, &mut results);
        proof {
            assert(!words.contains(pv));
            assert(results@.skip(0) =~= results@);
            assert forall|x: Seq<char>| strings_view(results@).contains(x) <==> (words.contains(x)
                && prefix_of(pv, x)) by {
                if prefix_of(pv, x) {
                    lemma_has_word_below(self.root, pv, x);
                }
            }
        }
        results
    }

    /// Adds to `results` `current` followed by each word below `node`, once each.
    fn collect_words(node: &TrieNode, current: &mut String, results: &mut Vec<String>)
        requires
            wf_root(*node),
        ensures
            final(current)@ == old(current)@,
            final(results)@.len() >= old(results)@.len(),
            final(results)@.take(old(results)@.len() as int) == old(results)@,
            strings_view(final(results)@.skip(old(results)@.len() as int)).no_duplicates(),
            forall|x: Seq<char>|
                strings_view(final(results)@.skip(old(results)@.len() as int)).contains(x) <==> (
                prefix_of(old(current)@, x) && has_word(*node, x.skip(old(current)@.len() as int))),
        decreases node,
    {
        let ghost cur = current@;
        let ghost base = results@;
        if node.is_word {
            results.push(current.clone());
        }
        proof {
            let added = strings_view(results@.skip(base.len() as int));
            if node.is_word {
                assert(added =~= seq![cur]);
            } else {
                assert(added =~= Seq::<Seq<char>>::empty());
            }
            assert(results@.take(base.len() as int) =~= base);
            assert forall|x: Seq<char>| added.contains(x) <==> collected(*node, cur, 0, x) by {
                if node.is_word && x == cur {
                    assert(added[0] == x);
                }
            }
        }
        let mut k: usize = 0;
        while k < node.children.len()
            invariant
                wf_root(*node),
                current@ == cur,
                k <= node.children@.len(),
                results@.len() >= base.len(),
                results@.take(base.len() as int) == base,
                strings_view(results@.skip(base.len() as int)).no_duplicates(),
                forall|x: Seq<char>|
                    strings_view(results@.skip(base.len() as int)).contains(x) <==> collected(
                        *node,
                        cur,
                        k as int,
                        x,
                    ),
            decreases node.children@.len() - k,
        {
            let ch = node.children[k].0;
            let next_node = &node.children[k].1;
            assert(wf_node(*next_node));
            let ghost before = results@;
            push_char(current, ch);
            Self::collect_words(next_node, current, results);
            pop_char(current);
            proof {
                let c2 = cur.push(ch);
                let old_added = strings_view(before.skip(base.len() as int));
                let new_part = strings_view(results@.skip(before.len() as int));
                assert(results@.skip(base.len() as int) =~= before.skip(base.len() as int)
                    + results@.skip(before.len() as int));
                assert(strings_view(results@.skip(base.len() as int)) =~= old_added + new_part);
                assert(results@.take(base.len() as int) =~= before.take(base.len() as int));
                assert forall|x: Seq<char>| c2.len() <= x.len() implies x.skip(c2.len() as int) == x.skip(
                    cur.len() as int + 1,
                ) by {}
                assert forall|a: int, b: int| 0 <= a < old_added.len() && 0 <= b < new_part.len()
                    implies old_added[a] != new_part[b] by {
                    assert(old_added.contains(old_added[a]));
                    assert(new_part.contains(new_part[b]));
                    if old_added[a] == new_part[b] {
                        lemma_collected_disjoint(*node, cur, k as int, new_part[b]);
                    }
                }
                vstd::seq_lib::lemma_no_dup_in_concat(old_added, new_part);
                assert forall|x: Seq<char>|
                    strings_view(results@.skip(base.len() as int)).contains(x) <==> collected(
                        *node,
                        cur,
                        k + 1,
                        x,
                    ) by {
                    lemma_collected_step(*node, cur, k as int, x);
                    if new_part.contains(x) {
                        let b = choose|b: int| 0 <= b < new_part.len() && new_part[b] == x;
                        assert((old_added + new_part)[old_added.len() + b] == x);
                    }
                    if old_added.contains(x) {
                        let a = choose|a: int| 0 <= a < old_added.len() && old_added[a] == x;
                        assert((old_added + new_part)[a] == x);
                    }
                    if (old_added + new_part).contains(x) {
                        let a = choose|a: int| 0 <= a < (old_added + new_part).len() && (old_added
                            + new_part)[a] == x;
                        if a < old_added.len() {
                            assert(old_added[a] == x);
                        } else {
                            assert(new_part[a - old_added.len()] == x);
                        }
                    }
                }
            }
            k = k + 1;
        }
        proof {
            assert forall|x: Seq<char>|
                strings_view(results@.skip(base.len() as int)).contains(x) <==> (prefix_of(cur, x)
                    && has_word(*node, x.skip(cur.len() as int))) by {
                lemma_collected_all(*node, cur, x);
            }
        }
    }
}

/// What `collect_words` has gathered after the first `k` children of `n`.
pub closed spec fn collected(n: TrieNode, cur: Seq<char>, k: int, x: Seq<char>) -> bool {
    ||| (x == cur && n.is_word)
    ||| exists|j: int|
        0 <= j < k && prefix_of(cur.push(n.children@[j].0), x) && has_word(
            n.children@[j].1,
            x.skip(cur.len() as int + 1),
        )
}

/// `cur` followed by `c` is a prefix of `x` when `cur` is and `x` continues with `c`.
proof fn lemma_prefix_push(cur: Seq<char>, c: char, x: Seq<char>)
    ensures
        prefix_of(cur.push(c), x) <==> (prefix_of(cur, x) && x.len() > cur.len() && x[cur.len() as int]
            == c),
{
    if prefix_of(cur.push(c), x) {
        assert(x.take(cur.len() as int) =~= x.take(cur.len() as int + 1).take(cur.len() as int));
        assert(cur.push(c).take(cur.len() as int) =~= cur);
        assert(x.take(cur.len() as int + 1)[cur.len() as int] == x[cur.len() as int]);
        assert(cur.push(c)[cur.len() as int] == c);
    }
    if prefix_of(cur, x) && x.len() > cur.len() && x[cur.len() as int] == c {
        assert(x.take(cur.len() as int + 1) =~= x.take(cur.len() as int).push(c));
    }
}

/// A word under child `k` was not gathered from the children before it.
proof fn lemma_collected_disjoint(n: TrieNode, cur: Seq<char>, k: int, x: Seq<char>)
    requires
        distinct_keys(n),
        0 <= k < n.children@.len(),
        prefix_of(cur.push(n.children@[k].0), x),
    ensures
        !collected(n, cur, k, x),
{
    lemma_prefix_push(cur, n.children@[k].0, x);
    if exists|j: int|
        0 <= j < k && prefix_of(cur.push(n.children@[j].0), x) && has_word(
            n.children@[j].1,
            x.skip(cur.len() as int + 1),
        ) {
        let j = choose|j: int|
            0 <= j < k && prefix_of(cur.push(n.children@[j].0), x) && has_word(
                n.children@[j].1,
                x.skip(cur.len() as int + 1),
            );
        lemma_prefix_push(cur, n.children@[j].0, x);
        assert(n.children@[j].0 != n.children@[k].0);
    }
}

/// Gathering one more child adds the words below it.
proof fn lemma_collected_step(n: TrieNode, cur: Seq<char>, k: int, x: Seq<char>)
    requires
        0 <= k < n.children@.len(),
    ensures
        collected(n, cur, k + 1, x) <==> (collected(n, cur, k, x) || (prefix_of(
            cur.push(n.children@[k].0),
            x,
        ) && has_word(n.children@[k].1, x.skip(cur.len() as int + 1)))),
{
}

/// After all children, exactly the words below the node have been gathered.
proof fn lemma_collected_all(n: TrieNode, cur: Seq<char>, x: Seq<char>)
    requires
        distinct_keys(n),
    ensures
        collected(n, cur, n.children@.len() as int, x) <==> (prefix_of(cur, x) && has_word(
            n,
            x.skip(cur.len() as int),
        )),
{
    let rest = x.skip(cur.len() as int);
    let len = n.children@.len() as int;
    if prefix_of(cur, x) {
        if rest.len() == 0 {
            assert(x =~= cur);
            assert(node_at(n, rest) == Some(n));
            if exists|j: int|
                0 <= j < len && prefix_of(cur.push(n.children@[j].0), x) && has_word(
                    n.children@[j].1,
                    x.skip(cur.len() as int + 1),
                ) {
                let j = choose|j: int|
                    0 <= j < len && prefix_of(cur.push(n.children@[j].0), x) && has_word(
                        n.children@[j].1,
                        x.skip(cur.len() as int + 1),
                    );
                assert(cur.push(n.children@[j].0).len() > x.len());
            }
        } else {
            assert(x != cur);
            assert(rest.drop_first() =~= x.skip(cur.len() as int + 1));
            assert(rest[0] == x[cur.len() as int]);
            if exists|j: int| 0 <= j < len && n.children@[j].0 == rest[0] {
                let j = choose|j: int| 0 <= j < len && n.children@[j].0 == rest[0];
                lemma_node_at_child(n, j, rest);
                lemma_prefix_push(cur, n.children@[j].0, x);
                if collected(n, cur, len, x) {
                    let j2 = choose|j2: int|
                        0 <= j2 < len && prefix_of(cur.push(n.children@[j2].0), x) && has_word(
                            n.children@[j2].1,
                            x.skip(cur.len() as int + 1),
                        );
                    lemma_prefix_push(cur, n.children@[j2].0, x);
                    if j2 != j {
                        if j2 < j {
                            assert(n.children@[j2].0 != n.children@[j].0);
                        } else {
                            assert(n.children@[j].0 != n.children@[j2].0);
                        }
                    }
                }
            } else {
                assert(node_at(n, rest) is None);
                if collected(n, cur, len, x) {
                    let j2 = choose|j2: int|
                        0 <= j2 < len && prefix_of(cur.push(n.children@[j2].0), x) && has_word(
                            n.children@[j2].1,
                            x.skip(cur.len() as int + 1),
                        );
                    lemma_prefix_push(cur, n.children@[j2].0, x);
                }
            }
        }
    } else {
        if collected(n, cur, len, x) {
            if x != cur {
                let j2 = choose|j2: int|
                    0 <= j2 < len && prefix_of(cur.push(n.children@[j2].0), x) && has_word(
                        n.children@[j2].1,
                        x.skip(cur.len() as int + 1),
                    );
                lemma_prefix_push(cur, n.children@[j2].0, x);
            } else {
                assert(x.take(cur.len() as int) =~= x);
            }
        }
    }
}

} // verus!

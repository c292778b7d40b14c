use vstd::prelude::*;
use vstd::multiset::Multiset;
use crate::utils::text::{chars_of, strings_view};

verus! {

/// `a` comes before or equals `b` in lexicographic order of characters (which, for UTF-8
/// strings, is also the order of their bytes).
pub open spec fn lex_le(a: Seq<char>, b: Seq<char>) -> bool
    decreases a.len(),
{
    if a.len() == 0 {
        true
    } else if b.len() == 0 {
        false
    } else if a[0] != b[0] {
        (a[0] as int) < (b[0] as int)
    } else {
        lex_le(a.drop_first(), b.drop_first())
    }
}

/// Every element is at most every later one.
pub open spec fn sorted(s: Seq<Seq<char>>) -> bool {
    forall|i: int, j: int| 0 <= i < j < s.len() ==> lex_le(s[i], s[j])
}

/// Any two sequences are ordered one way or the other.
pub proof fn lemma_lex_total(a: Seq<char>, b: Seq<char>)
    ensures
        lex_le(a, b) || lex_le(b, a),
    decreases a.len(),
{
    if a.len() > 0 && b.len() > 0 && a[0] == b[0] {
        lemma_lex_total(a.drop_first(), b.drop_first());
    }
}

/// The order is transitive.
pub proof fn lemma_lex_trans(a: Seq<char>, b: Seq<char>, c: Seq<char>)
    requires
        lex_le(a, b),
        lex_le(b, c),
    ensures
        lex_le(a, c),
    decreases a.len(),
{
    if a.len() > 0 && b.len() > 0 && c.len() > 0 && a[0] == b[0] && b[0] == c[0] {
        lemma_lex_trans(a.drop_first(), b.drop_first(), c.drop_first());
    }
}

/// Whether `a` comes strictly before `b`.
fn str_lt(a: &Vec<char>, b: &Vec<char>) -> (r: bool)
    ensures
        r == !lex_le(b@, a@),
{
    let mut i: usize = 0;
    assert(a@.skip(0) =~= a@);
    assert(b@.skip(0) =~= b@);
    while i < a.len() && i < b.len() && a[i] == b[i]
        invariant
            i <= a.len(),
            i <= b.len(),
            a@.take(i as int) == b@.take(i as int),
            lex_le(b@, a@) == lex_le(b@.skip(i as int), a@.skip(i as int)),
        decreases a.len() - i,
    {
        proof {
            let bs = b@.skip(i as int);
            let as_ = a@.skip(i as int);
            assert(bs.drop_first() =~= b@.skip(i + 1));
            assert(as_.drop_first() =~= a@.skip(i + 1));
            assert(a@.take(i + 1) =~= a@.take(i as int).push(a@[i as int]));
            assert(b@.take(i + 1) =~= b@.take(i as int).push(b@[i as int]));
        }
        i = i + 1;
    }
    if i < a.len() && i < b.len() {
        assert(b@.skip(i as int)[0] == b@[i as int]);
        assert(a@.skip(i as int)[0] == a@[i as int]);
        a[i] < b[i]
    } else {
        i < b.len()
    }
}

/// The strings of `v` in ascending order.
pub fn sort_strings(v: Vec<String>) -> (r: Vec<String>)
    ensures
        strings_view(r@).to_multiset() == strings_view(v@).to_multiset(),
        sorted(strings_view(r@)),
{
    broadcast use vstd::seq_lib::group_to_multiset_ensures;

    let mut r: Vec<String> = Vec::new();
    let mut keys: Vec<Vec<char>> = Vec::new();
    let mut i: usize = 0;
    while i < v.len()
        invariant
            i <= v.len(),
            keys@.len() == r@.len(),
            forall|k: int| 0 <= k < r@.len() ==> keys@[k]@ == r@[k]@,
            strings_view(r@).to_multiset() == strings_view(v@.take(i as int)).to_multiset(),
            sorted(strings_view(r@)),
        decreases v.len() - i,
    {
        let s = v[i].clone();
        let key = chars_of(s.as_str());
        let mut k: usize = r.len();
        while k > 0 && str_lt(&key, &keys[k - 1])
            invariant
                k <= r@.len(),
                keys@.len() == r@.len(),
                forall|m: int| 0 <= m < r@.len() ==> keys@[m]@ == r@[m]@,
                key@ == s@,
                forall|m: int| k <= m < r@.len() ==> !lex_le(r@[m]@, s@),
            decreases k,
        {
            k = k - 1;
        }
        let ghost before = strings_view(r@);
        proof {
            assert forall|m: int| 0 <= m < k implies lex_le(before[m], s@) by {
                if k > 0 {
                    lemma_lex_total(before[k - 1], s@);
                    if m < k - 1 {
                        lemma_lex_trans(before[m], before[k - 1], s@);
                    }
                }
            }
            assert forall|m: int| k <= m < before.len() implies lex_le(s@, before[m]) by {
                lemma_lex_total(before[m], s@);
            }
        }
        r.insert(k, s);
        keys.insert(k, key);
        proof {
            let after = strings_view(r@);
            assert(after =~= before.insert(k as int, s@));
            assert(v@.take(i + 1) =~= v@.take(i as int).push(v@[i as int]));
            assert(strings_view(v@.take(i + 1)) =~= strings_view(v@.take(i as int)).push(s@));
            vstd::seq_lib::to_multiset_insert(before, k as int, s@);
            vstd::seq_lib::to_multiset_build(strings_view(v@.take(i as int)), s@);
            assert forall|a: int, b: int| 0 <= a < b < after.len() implies lex_le(after[a], after[b]) by {
                if a < k && b == k {
                } else if a == k && b > k {
                    assert(after[b] == before[b - 1]);
                } else if a < k && b > k {
                    assert(after[b] == before[b - 1]);
                    lemma_lex_trans(before[a], s@, before[b - 1]);
                } else if a > k {
                    assert(after[a] == before[a - 1]);
                    assert(after[b] == before[b - 1]);
                }
            }
        }
        i = i + 1;
    }
    assert(v@.take(v.len() as int) =~= v@);
    r
}

} // verus!

verus! {

/// Two sequences that each come before the other are equal.
pub proof fn lemma_lex_antisym(a: Seq<char>, b: Seq<char>)
    requires
        lex_le(a, b),
        lex_le(b, a),
    ensures
        a == b,
    decreases a.len(),
{
    if a.len() > 0 && b.len() > 0 {
        lemma_lex_antisym(a.drop_first(), b.drop_first());
        assert(a =~= seq![a[0]] + a.drop_first());
        assert(b =~= seq![b[0]] + b.drop_first());
    } else {
        assert(a =~= b);
    }
}

/// A sorted sequence holding the same elements as another sorted sequence, as often, is
/// that sequence: sorting has one result.
pub proof fn lemma_sorted_unique(a: Seq<Seq<char>>, b: Seq<Seq<char>>)
    requires
        sorted(a),
        sorted(b),
        a.to_multiset() == b.to_multiset(),
    ensures
        a == b,
    decreases a.len(),
{
    broadcast use vstd::seq_lib::group_to_multiset_ensures;

    assert(a.len() == a.to_multiset().len());
    assert(b.len() == b.to_multiset().len());
    if a.len() > 0 {
        let x = a[0];
        let y = b[0];
        assert(a.to_multiset().count(x) > 0);
        assert(b.contains(x));
        let j = choose|j: int| 0 <= j < b.len() && b[j] == x;
        assert(a.contains(y)) by {
            assert(b.to_multiset().count(y) > 0);
        }
        let i = choose|i: int| 0 <= i < a.len() && a[i] == y;
        if i > 0 {
            assert(lex_le(x, y));
        }
        if j > 0 {
            assert(lex_le(y, x));
        }
        lemma_lex_total(x, y);
        if i > 0 && j > 0 {
            lemma_lex_antisym(x, y);
        } else if i == 0 {
            assert(x == y);
        } else {
            assert(y == x);
        }
        assert(a.remove(0).to_multiset() == a.to_multiset().remove(x));
        assert(b.remove(0).to_multiset() == b.to_multiset().remove(y));
        assert(a.remove(0) =~= a.drop_first());
        assert(b.remove(0) =~= b.drop_first());
        lemma_sorted_unique(a.drop_first(), b.drop_first());
        assert(a =~= seq![x] + a.drop_first());
        assert(b =~= seq![y] + b.drop_first());
    } else {
        assert(a =~= b);
    }
}

} // verus!

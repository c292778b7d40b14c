use vstd::prelude::*;
use vstd::utf8::{encode_utf8, is_char_boundary};

verus! {

/// A common prefix of several strings.
pub type Prefix = String;

/// All byte strings of `ws` have a byte at `i`, and it is the same as the first one's.
pub open spec fn all_agree_at(ws: Seq<Seq<u8>>, i: int) -> bool {
    forall|j: int| 0 <= j < ws.len() ==> i < ws[j].len() && ws[j][i] == ws[0][i]
}

/// The length of the longest common prefix of the byte strings `ws`, counting from `i`:
/// the first index from `i` on where they do not all agree.
pub open spec fn common_prefix_len(ws: Seq<Seq<u8>>, i: nat) -> nat
    decreases (if ws.len() > 0 { ws[0].len() } else { 0 }) - i,
{
    if ws.len() > 0 && i < ws[0].len() && all_agree_at(ws, i as int) {
        common_prefix_len(ws, i + 1)
    } else {
        i
    }
}

/// The UTF-8 encodings of a list of strings.
pub open spec fn encodings(words: Seq<String>) -> Seq<Seq<u8>> {
    words.map_values(|w: String| encode_utf8(w@))
}

/// Whether every word has a byte at `i` equal to the first word's.
fn agree_at(words: &[String], i: usize) -> (r: bool)
    requires
        words@.len() > 0,
    ensures
        r == all_agree_at(encodings(words@), i as int),
{
    let ghost ws = encodings(words@);
    let first = words[0].as_str().as_bytes();
    assert(first@ == ws[0]);
    assert(ws.len() == words@.len());
    let mut j: usize = 0;
    while j < words.len()
        invariant
            ws == encodings(words@),
            words@.len() > 0,
            first@ == ws[0],
            ws.len() == words@.len(),
            j <= words@.len(),
            forall|k: int| 0 <= k < j ==> i < ws[k].len() && ws[k][i as int] == ws[0][i as int],
        decreases words@.len() - j,
    {
        let word = words[j].as_str().as_bytes();
        assert(word@ == ws[j as int]);
        if i >= word.len() {
            assert(!(i < ws[j as int].len()));
            return false;
        }
        if j == 0 {
            assert(i < first@.len());
        } else {
            assert(i < ws[0].len());
        }
        if word[i] != first[i] {
            assert(ws[j as int][i as int] != ws[0][i as int]);
            return false;
        }
        assert forall|k: int| 0 <= k < j + 1 implies i < ws[k].len() && ws[k][i as int]
            == ws[0][i as int] by {
            if k == j {
                assert(word@ == ws[k]);
            }
        }
        j = j + 1;
    }
    assert(j == ws.len());
    assert forall|k: int| 0 <= k < ws.len() implies i < ws[k].len() && ws[k][i as int]
        == ws[0][i as int] by {}
    assert(all_agree_at(ws, i as int));
    assert(all_agree_at(encodings(words@), i as int));
    true
}

/// The length in bytes of the longest common prefix of `words`.
pub fn common_len(words: &[String]) -> (n: usize)
    requires
        words@.len() > 0,
    ensures
        n == common_prefix_len(encodings(words@), 0),
        n <= encodings(words@)[0].len(),
{
    let ghost ws = encodings(words@);
    let first = words[0].as_str().as_bytes();
    assert(first@ == ws[0]);
    let n = first.len();
    let mut i: usize = 0;
    while agree_at(words, i)
        invariant
            n == first@.len(),
            ws == encodings(words@),
            words@.len() > 0,
            first@ == ws[0],
            i <= first@.len(),
            common_prefix_len(ws, 0) == common_prefix_len(ws, i as nat),
        decreases first@.len() - i,
    {
        assert(i < ws[0].len());
        i = i + 1;
    }
    assert(!all_agree_at(ws, i as int));
    i
}

/// The longest common prefix of `words`, in bytes; the first word cut there.
///
/// The cut must fall on a character boundary of the first word (otherwise slicing panics).
pub fn lcp(words: &[String]) -> (r: Prefix)
    requires
        words@.len() > 0,
        is_char_boundary(encode_utf8(words@[0]@), common_prefix_len(encodings(words@), 0) as int),
    ensures
        encode_utf8(r@) == encode_utf8(words@[0]@).take(
            common_prefix_len(encodings(words@), 0) as int,
        ),
        common_prefix_len(encodings(words@), 0) <= encode_utf8(words@[0]@).len(),
{
    let i = common_len(words);
    let (head, _) = words[0].as_str().split_at(i);
    head.to_owned()
}

} // verus!

verus! {

/// From a position where all words agree so far, the common prefix length agrees on
/// every earlier index and stops where the words end or disagree.
proof fn lemma_common_prefix_from(ws: Seq<Seq<u8>>, i: nat)
    requires
        ws.len() > 0,
        i <= ws[0].len(),
        forall|k: int| 0 <= k < i ==> #[trigger] all_agree_at(ws, k),
    ensures
        i <= common_prefix_len(ws, i) <= ws[0].len(),
        forall|k: int| 0 <= k < common_prefix_len(ws, i) ==> #[trigger] all_agree_at(ws, k),
        common_prefix_len(ws, i) == ws[0].len() || !all_agree_at(ws, common_prefix_len(ws, i) as int),
    decreases ws[0].len() - i,
{
    if i < ws[0].len() && all_agree_at(ws, i as int) {
        lemma_common_prefix_from(ws, i + 1);
    }
}

/// The common prefix is a prefix of every word, and it cannot be longer: it is all of some
/// word, or some word differs from the first right after it.
pub proof fn lemma_common_prefix(ws: Seq<Seq<u8>>)
    requires
        ws.len() > 0,
    ensures
        forall|j: int|
            0 <= j < ws.len() ==> common_prefix_len(ws, 0) <= ws[j].len() && (#[trigger] ws[j]).take(
                common_prefix_len(ws, 0) as int,
            ) == ws[0].take(common_prefix_len(ws, 0) as int),
        exists|j: int|
            0 <= j < ws.len() && (common_prefix_len(ws, 0) == ws[j].len() || ws[j][common_prefix_len(
                ws,
                0,
            ) as int] != ws[0][common_prefix_len(ws, 0) as int]),
{
    lemma_common_prefix_from(ws, 0);
    let n = common_prefix_len(ws, 0) as int;
    assert forall|j: int| 0 <= j < ws.len() implies common_prefix_len(ws, 0) <= ws[j].len() && (
    #[trigger] ws[j]).take(n) == ws[0].take(n) by {
        if n > 0 {
            assert(all_agree_at(ws, n - 1));
        }
        assert forall|k: int| 0 <= k < n implies ws[j].take(n)[k] == ws[0].take(n)[k] by {
            assert(all_agree_at(ws, k));
        }
        assert(ws[j].take(n) =~= ws[0].take(n));
    }
    if n == ws[0].len() {
        assert(0 <= 0 < ws.len());
    } else {
        assert(!all_agree_at(ws, n));
        let j = choose|j: int| 0 <= j < ws.len() && !(n < ws[j].len() && ws[j][n] == ws[0][n]);
        assert(n >= ws[j].len() ==> n == ws[j].len());
    }
}

} // verus!

verus! {

/// When all words agree on their first `m` bytes, the common prefix is at least that long.
proof fn lemma_common_prefix_at_least(ws: Seq<Seq<u8>>, i: nat, m: nat)
    requires
        ws.len() > 0,
        i <= m <= ws[0].len(),
        forall|k: int| 0 <= k < m ==> #[trigger] all_agree_at(ws, k),
    ensures
        common_prefix_len(ws, i) >= m,
    decreases m - i,
{
    if i < m {
        assert(all_agree_at(ws, i as int));
        lemma_common_prefix_at_least(ws, i + 1, m);
    } else {
        lemma_common_prefix_from(ws, i);
    }
}

/// The common prefix does not depend on the order of the words, nor on repetitions: lists
/// that hold the same words have common prefixes of the same length and bytes.
pub proof fn lemma_common_prefix_order_free(ws1: Seq<Seq<u8>>, ws2: Seq<Seq<u8>>)
    requires
        ws1.len() > 0,
        ws2.len() > 0,
        forall|x: Seq<u8>| ws1.contains(x) <==> ws2.contains(x),
    ensures
        common_prefix_len(ws1, 0) == common_prefix_len(ws2, 0),
        ws1[0].take(common_prefix_len(ws1, 0) as int) == ws2[0].take(
            common_prefix_len(ws2, 0) as int,
        ),
{
    lemma_common_prefix_below(ws1, ws2);
    lemma_common_prefix_below(ws2, ws1);
    lemma_common_prefix(ws1);
    let n = common_prefix_len(ws1, 0) as int;
    assert(ws1.contains(ws2[0]));
    let i = choose|i: int| 0 <= i < ws1.len() && ws1[i] == ws2[0];
    assert(ws1[i].take(n) == ws1[0].take(n));
}

/// The common prefix of `ws1` is at most that of a list holding the same words.
proof fn lemma_common_prefix_below(ws1: Seq<Seq<u8>>, ws2: Seq<Seq<u8>>)
    requires
        ws1.len() > 0,
        ws2.len() > 0,
        forall|x: Seq<u8>| ws1.contains(x) <==> ws2.contains(x),
    ensures
        common_prefix_len(ws1, 0) <= common_prefix_len(ws2, 0),
{
    lemma_common_prefix(ws1);
    let n = common_prefix_len(ws1, 0) as int;
    assert forall|i: int| 0 <= i < ws2.len() implies n <= ws2[i].len() && (#[trigger] ws2[i]).take(n)
        == ws1[0].take(n) by {
        assert(ws2.contains(ws2[i]));
        let j = choose|j: int| 0 <= j < ws1.len() && ws1[j] == ws2[i];
        assert(ws1[j].take(n) == ws1[0].take(n));
    }
    assert forall|k: int| 0 <= k < n implies #[trigger] all_agree_at(ws2, k) by {
        assert forall|i: int| 0 <= i < ws2.len() implies k < ws2[i].len() && ws2[i][k] == ws2[0][k] by {
            assert(ws2[i].take(n)[k] == ws1[0].take(n)[k]);
            assert(ws2[0].take(n)[k] == ws1[0].take(n)[k]);
        }
    }
    lemma_common_prefix_at_least(ws2, 0, n as nat);
}

} // verus!

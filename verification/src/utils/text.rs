use vstd::prelude::*;
use vstd::utf8::*;

verus! {

/// Number of bytes of the UTF-8 encoding of a character sequence.
pub open spec fn byte_len(s: Seq<char>) -> nat {
    encode_utf8(s).len()
}

/// The UTF-8 encoding of a concatenation is the concatenation of the encodings.
pub proof fn lemma_encode_utf8_concat(a: Seq<char>, b: Seq<char>)
    ensures
        encode_utf8(a + b) == encode_utf8(a) + encode_utf8(b),
    decreases a.len(),
{
    if a.len() == 0 {
        assert(a + b =~= b);
        assert(encode_utf8(a) =~= Seq::<u8>::empty());
        assert(encode_utf8(a) + encode_utf8(b) =~= encode_utf8(b));
    } else {
        lemma_encode_utf8_concat(a.drop_first(), b);
        assert((a + b).drop_first() =~= a.drop_first() + b);
        assert(encode_utf8(a + b) =~= encode_scalar(a[0] as u32) + encode_utf8(a.drop_first() + b));
    }
}

/// Calls `String::pop`: it removes and returns the last character, or returns `None` and leaves
/// an empty string as it is.
#[verifier::external_body]
pub(crate) fn pop_char(s: &mut String) -> (r: Option<char>)
    ensures
        old(s)@.len() == 0 ==> r is None && final(s)@ == old(s)@,
        old(s)@.len() > 0 ==> r == Some(old(s)@.last()) && final(s)@ == old(s)@.drop_last(),
{
    s.pop()
}

/// The views of a list of strings.
pub open spec fn strings_view(v: Seq<String>) -> Seq<Seq<char>> {
    v.map_values(|s: String| s@)
}

/// Number of bytes that `c` takes in UTF-8.
pub fn char_len_utf8(c: char) -> (n: usize)
    ensures
        n == encode_scalar(c as u32).len(),
        1 <= n <= 4,
{
    let v = c as u32;
    if v < 0x80 {
        1
    } else if v < 0x800 {
        2
    } else if v < 0x10000 {
        3
    } else {
        4
    }
}

/// Calls `String::push`: afterwards the string is the old one followed by `c`.
#[verifier::external_body]
pub(crate) fn push_char(s: &mut String, c: char)
    ensures
        final(s)@ == old(s)@.push(c),
{
    s.push(c);
}


/// Position in bytes of the character at index `i` of `s` (the UTF-8 length of `s[..i]`).
pub open spec fn byte_offset(s: Seq<char>, i: int) -> nat {
    byte_len(s.take(i))
}

/// Advancing one character advances the byte offset by that character's UTF-8 length.
pub proof fn lemma_byte_offset_step(s: Seq<char>, i: int)
    requires
        0 <= i < s.len(),
    ensures
        byte_offset(s, i + 1) == byte_offset(s, i) + encode_scalar(s[i] as u32).len(),
{
    assert(s.take(i + 1) =~= s.take(i) + seq![s[i]]);
    lemma_encode_utf8_concat(s.take(i), seq![s[i]]);
    assert(seq![s[i]].drop_first() =~= Seq::<char>::empty());
    assert(encode_utf8(seq![s[i]]) =~= encode_scalar(s[i] as u32) + encode_utf8(Seq::<char>::empty()));
}

/// A byte offset never exceeds the byte length of the whole sequence.
pub proof fn lemma_byte_offset_bound(s: Seq<char>, i: int)
    requires
        0 <= i <= s.len(),
    ensures
        byte_offset(s, i) <= byte_len(s),
{
    assert(s =~= s.take(i) + s.skip(i));
    lemma_encode_utf8_concat(s.take(i), s.skip(i));
}

/// The characters of a string slice, one per element.
pub fn chars_of(s: &str) -> (v: Vec<char>)
    ensures
        v@ == s@,
{
    let mut v: Vec<char> = Vec::new();
    for c in it: s.chars()
        invariant
            v@ == it.seq().take(it.index() as int),
            it.seq() == s@,
    {
        v.push(c);
    }
    v
}

/// A string made of the given characters.
pub fn string_of(v: &Vec<char>) -> (s: String)
    ensures
        s@ == v@,
{
    let mut s = String::new();
    let mut i: usize = 0;
    while i < v.len()
        invariant
            i <= v.len(),
            s@ == v@.take(i as int),
        decreases v.len() - i,
    {
        push_char(&mut s, v[i]);
        assert(v@.take(i + 1) =~= v@.take(i as int).push(v@[i as int]));
        i = i + 1;
    }
    assert(v@.take(v.len() as int) =~= v@);
    s
}


/// The decimal digit character for `d` (`d < 10`).
pub open spec fn digit_char(d: nat) -> char {
    (('0' as u32) + d) as char
}

/// The decimal representation of `n`, as `to_string` writes it.
pub open spec fn decimal(n: nat) -> Seq<char>
    decreases n,
{
    if n < 10 {
        seq![digit_char(n)]
    } else {
        decimal(n / 10).push(digit_char(n % 10))
    }
}

/// The decimal representation of `n`.
pub fn decimal_string(n: usize) -> (s: String)
    ensures
        s@ == decimal(n as nat),
    decreases n,
{
    let d = (n % 10) as u8;
    let c = ((d + 48) as char);
    assert(c == digit_char((n % 10) as nat));
    if n < 10 {
        let mut s = String::new();
        push_char(&mut s, c);
        assert(s@ =~= seq![c]);
        s
    } else {
        let mut s = decimal_string(n / 10);
        push_char(&mut s, c);
        s
    }
}

/// `s` without its leading whitespace.
pub open spec fn trim_start(s: Seq<char>) -> Seq<char>
    decreases s.len(),
{
    if s.len() > 0 && crate::tokenizer::is_ws(s[0]) {
        trim_start(s.drop_first())
    } else {
        s
    }
}

/// `s` without its trailing whitespace.
pub open spec fn trim_end(s: Seq<char>) -> Seq<char>
    decreases s.len(),
{
    if s.len() > 0 && crate::tokenizer::is_ws(s.last()) {
        trim_end(s.drop_last())
    } else {
        s
    }
}

/// `s` without leading and trailing whitespace, as `str::trim` returns it.
pub open spec fn trim(s: Seq<char>) -> Seq<char> {
    trim_end(trim_start(s))
}

/// Leading whitespace can be skipped before trimming.
proof fn lemma_trim_start_skip(s: Seq<char>, i: int)
    requires
        0 <= i <= s.len(),
        forall|k: int| 0 <= k < i ==> crate::tokenizer::is_ws(s[k]),
    ensures
        trim_start(s) == trim_start(s.skip(i)),
    decreases i,
{
    if i > 0 {
        assert(s.skip(1) =~= s.drop_first());
        assert(s.drop_first().skip(i - 1) =~= s.skip(i));
        lemma_trim_start_skip(s.drop_first(), i - 1);
    } else {
        assert(s.skip(0) =~= s);
    }
}

/// Trailing whitespace can be cut before trimming.
pub proof fn lemma_trim_end_take(s: Seq<char>, j: int)
    requires
        0 <= j <= s.len(),
        forall|k: int| j <= k < s.len() ==> crate::tokenizer::is_ws(s[k]),
    ensures
        trim_end(s) == trim_end(s.take(j)),
    decreases s.len() - j,
{
    if j < s.len() {
        assert(s.take(s.len() - 1) =~= s.drop_last());
        assert(s.drop_last().take(j) =~= s.take(j));
        lemma_trim_end_take(s.drop_last(), j);
    } else {
        assert(s.take(j) =~= s);
    }
}

/// The characters of `v[from..to]` without leading and trailing whitespace, as a `String`.
pub fn trimmed(v: &Vec<char>, from: usize, to: usize) -> (r: String)
    requires
        from <= to <= v.len(),
    ensures
        r@ == trim(v@.subrange(from as int, to as int)),
{
    let ghost s = v@.subrange(from as int, to as int);
    let mut i = from;
    while i < to && crate::tokenizer::is_whitespace(v[i])
        invariant
            from <= i <= to <= v.len(),
            s == v@.subrange(from as int, to as int),
            forall|k: int| 0 <= k < i - from ==> crate::tokenizer::is_ws(s[k]),
        decreases to - i,
    {
        i = i + 1;
    }
    proof {
        lemma_trim_start_skip(s, i - from);
        assert(s.skip(i - from) =~= v@.subrange(i as int, to as int));
        if i < to {
            assert(!crate::tokenizer::is_ws(s.skip(i - from)[0]));
        }
    }
    let ghost t = v@.subrange(i as int, to as int);
    assert(trim_start(s) == t);
    let mut j = to;
    while j > i && crate::tokenizer::is_whitespace(v[j - 1])
        invariant
            i <= j <= to <= v.len(),
            t == v@.subrange(i as int, to as int),
            forall|k: int| j - i <= k < t.len() ==> crate::tokenizer::is_ws(t[k]),
        decreases j - i,
    {
        j = j - 1;
    }
    proof {
        lemma_trim_end_take(t, j - i);
        assert(t.take(j - i) =~= v@.subrange(i as int, j as int));
        if j > i {
            assert(t.take(j - i).last() == v@[j - 1]);
        }
    }
    let mut r = String::new();
    let mut k = i;
    while k < j
        invariant
            i <= k <= j <= v.len(),
            r@ == v@.subrange(i as int, k as int),
        decreases j - k,
    {
        push_char(&mut r, v[k]);
        assert(v@.subrange(i as int, k + 1) =~= v@.subrange(i as int, k as int).push(v@[k as int]));
        k = k + 1;
    }
    r
}

} // verus!

verus! {

/// The byte offset of any character index is a character boundary of the encoding.
pub proof fn lemma_byte_offset_boundary(s: Seq<char>, i: int)
    requires
        0 <= i <= s.len(),
    ensures
        is_char_boundary(encode_utf8(s), byte_offset(s, i) as int),
    decreases i,
{
    broadcast use encode_utf8_valid_utf8;

    if i == 0 {
        assert(s.take(0) =~= Seq::<char>::empty());
    } else {
        let t = s.drop_first();
        lemma_byte_offset_boundary(t, i - 1);
        encode_utf8_first_scalar(s);
        let bytes = encode_utf8(s);
        assert(pop_first_scalar(bytes) =~= encode_utf8(t));
        assert(s.take(i).drop_first() =~= t.take(i - 1));
        assert(s.take(i)[0] == s[0]);
    }
}

/// A boundary at or before another boundary stays one in the prefix that ends there.
pub proof fn lemma_boundary_in_prefix(bytes: Seq<u8>, a: int, b: int)
    requires
        valid_utf8(bytes),
        0 <= a <= b,
        is_char_boundary(bytes, a),
        is_char_boundary(bytes, b),
    ensures
        is_char_boundary(bytes.subrange(0, b), a),
{
    broadcast use valid_utf8_split, is_char_boundary_start_end_of_seq;

    let p = bytes.subrange(0, b);
    assert(valid_utf8(p));
    if a < b {
        is_char_boundary_iff_not_is_continuation_byte(bytes, a);
        is_char_boundary_iff_not_is_continuation_byte(p, a);
        assert(p[a] == bytes[a]);
    }
}

/// The part of `s` between byte offsets `a` and `b`, which must be character boundaries.
pub fn byte_slice(s: &str, a: usize, b: usize) -> (r: &str)
    requires
        a <= b,
        is_char_boundary(encode_utf8(s@), a as int),
        is_char_boundary(encode_utf8(s@), b as int),
    ensures
        encode_utf8(r@) == encode_utf8(s@).subrange(a as int, b as int),
{
    proof {
        broadcast use encode_utf8_valid_utf8;

        lemma_boundary_in_prefix(encode_utf8(s@), a as int, b as int);
    }
    let (head, _) = s.split_at(b);
    let (_, mid) = head.split_at(a);
    mid
}

/// The length of `s` in bytes.
pub fn byte_count(s: &str) -> (n: usize)
    ensures
        n == byte_len(s@),
{
    s.as_bytes().len()
}

} // verus!

verus! {

/// The strings of `v` with `sep` between each two neighbours, as `join` writes them.
pub open spec fn joined(v: Seq<Seq<char>>, sep: Seq<char>) -> Seq<char>
    decreases v.len(),
{
    if v.len() == 0 {
        Seq::empty()
    } else if v.len() == 1 {
        v[0]
    } else {
        joined(v.drop_last(), sep) + sep + v.last()
    }
}

/// The strings of `v` joined with `sep` between them.
pub fn join(v: &[String], sep: &str) -> (r: String)
    ensures
        r@ == joined(strings_view(v@), sep@),
{
    if v.len() == 0 {
        return String::new();
    }
    let mut r = v[0].clone();
    let mut i: usize = 1;
    assert(strings_view(v@.take(1)) =~= seq![v@[0]@]);
    while i < v.len()
        invariant
            1 <= i <= v@.len(),
            r@ == joined(strings_view(v@.take(i as int)), sep@),
        decreases v@.len() - i,
    {
        r.append(sep);
        r.append(v[i].as_str());
        proof {
            let t = strings_view(v@.take(i + 1));
            assert(t.drop_last() =~= strings_view(v@.take(i as int)));
            assert(t.last() == v@[i as int]@);
        }
        i = i + 1;
    }
    assert(v@.take(v@.len() as int) =~= v@);
    r
}

} // verus!

verus! {

/// Index of the first `c` in `s` at or after `i`, or the length of `s` when there is none.
pub open spec fn find_from(s: Seq<char>, c: char, i: int) -> int
    decreases s.len() - i,
{
    if i >= s.len() {
        s.len() as int
    } else if s[i] == c {
        i
    } else {
        find_from(s, c, i + 1)
    }
}

/// `l` without one trailing carriage return.
pub open spec fn strip_cr(l: Seq<char>) -> Seq<char> {
    if l.len() > 0 && l.last() == '\r' {
        l.drop_last()
    } else {
        l
    }
}

/// `find_from` gives the first `c` at or after `i`.
pub proof fn lemma_find_from(s: Seq<char>, c: char, i: int)
    requires
        0 <= i,
    ensures
        i <= find_from(s, c, i) <= s.len() || (i > s.len() && find_from(s, c, i) == s.len()),
        find_from(s, c, i) < s.len() ==> s[find_from(s, c, i)] == c,
        forall|k: int| i <= k < find_from(s, c, i) ==> s[k] != c,
    decreases s.len() - i,
{
    if i < s.len() && s[i] != c {
        lemma_find_from(s, c, i + 1);
    }
}

/// The lines of `s` from index `i` on, as `str::lines` gives them: split at `'\n'`, a
/// `'\r'` right before a `'\n'` dropped, and no empty line after a final `'\n'`.
pub open spec fn lines_from(s: Seq<char>, i: int) -> Seq<Seq<char>>
    decreases s.len() - i,
{
    if i < 0 || i >= s.len() {
        Seq::empty()
    } else {
        let k = find_from(s, '\n', i);
        if k >= s.len() {
            seq![s.subrange(i, s.len() as int)]
        } else {
            proof {
                lemma_find_from(s, '\n', i);
            }
            seq![strip_cr(s.subrange(i, k))] + lines_from(s, k + 1)
        }
    }
}

/// The lines of `s`.
pub open spec fn lines_of(s: Seq<char>) -> Seq<Seq<char>> {
    lines_from(s, 0)
}

/// Appends the lines of `content` to `entries`.
pub fn push_lines(content: &str, entries: &mut Vec<String>)
    ensures
        strings_view(final(entries)@) == strings_view(old(entries)@) + lines_of(content@),
{
    let v = chars_of(content);
    let ghost s = v@;
    let ghost base = strings_view(entries@);
    let mut start: usize = 0;
    let mut line = String::new();
    let mut j: usize = 0;
    while j < v.len()
        invariant
            s == v@,
            start <= j <= v.len(),
            line@ == s.subrange(start as int, j as int),
            forall|k: int| start <= k < j ==> s[k] != '\n',
            strings_view(entries@) + lines_from(s, start as int) == base + lines_of(s),
        decreases v.len() - j,
    {
        if v[j] == '\n' {
            proof {
                lemma_find_from(s, '\n', start as int);
                lemma_find_from(s, '\n', j as int);
                assert(find_from(s, '\n', start as int) == j);
            }
            let mut piece = line;
            let cv = chars_of(piece.as_str());
            let ghost before = strings_view(entries@);
            if cv.len() > 0 && cv[cv.len() - 1] == '\r' {
                pop_char(&mut piece);
            }
            entries.push(piece);
            proof {
                assert(piece@ == strip_cr(s.subrange(start as int, j as int)));
                assert(strings_view(entries@) =~= before.push(piece@));
                assert(lines_from(s, start as int) == seq![piece@] + lines_from(s, j + 1));
                assert(before + lines_from(s, start as int) =~= before.push(piece@) + lines_from(s, j + 1));
            }
            line = String::new();
            start = j + 1;
        } else {
            push_char(&mut line, v[j]);
            assert(s.subrange(start as int, j + 1) =~= s.subrange(start as int, j as int).push(s[j as int]));
        }
        j = j + 1;
    }
    if start < j {
        proof {
            lemma_find_from(s, '\n', start as int);
            assert(find_from(s, '\n', start as int) >= s.len());
        }
        let ghost before = strings_view(entries@);
        entries.push(line);
        assert(strings_view(entries@) =~= before.push(s.subrange(start as int, s.len() as int)));
        assert(before + lines_from(s, start as int) =~= strings_view(entries@));
    } else {
        assert(strings_view(entries@) + lines_from(s, start as int) =~= strings_view(entries@));
    }
}

/// The value of a string of decimal digits.
pub open spec fn digits_value(d: Seq<char>) -> nat
    decreases d.len(),
{
    if d.len() == 0 {
        0
    } else {
        digits_value(d.drop_last()) * 10 + ((d.last() as int - '0' as int) as nat)
    }
}

/// Every character of `d` is an ASCII digit.
pub open spec fn all_digits(d: Seq<char>) -> bool {
    forall|k: int| 0 <= k < d.len() ==> crate::tokenizer::is_digit(d[k])
}

/// What `str::parse::<usize>` gives: an optional `+` followed by at least one digit, whose
/// value fits in `usize`.
pub open spec fn parse_usize_spec(s: Seq<char>) -> Option<nat> {
    let d = if s.len() > 0 && s[0] == '+' {
        s.drop_first()
    } else {
        s
    };
    if d.len() > 0 && all_digits(d) && digits_value(d) <= usize::MAX {
        Some(digits_value(d))
    } else {
        None
    }
}

/// The value of a prefix of digits is at most the value of all of them.
proof fn lemma_digits_value_grows(d: Seq<char>, k: int)
    requires
        0 <= k <= d.len(),
        all_digits(d),
    ensures
        digits_value(d.take(k)) <= digits_value(d),
    decreases d.len() - k,
{
    if k < d.len() {
        lemma_digits_value_grows(d, k + 1);
        assert(d.take(k + 1).drop_last() =~= d.take(k));
        assert(crate::tokenizer::is_digit(d[k]));
    } else {
        assert(d.take(k) =~= d);
    }
}

/// Parses `s` as an unsigned number, as `str::parse::<usize>` does.
pub fn parse_usize(s: &str) -> (r: Option<usize>)
    ensures
        match r {
            Some(n) => parse_usize_spec(s@) == Some(n as nat),
            None => parse_usize_spec(s@) is None,
        },
{
    let v = chars_of(s);
    let mut i: usize = 0;
    if v.len() > 0 && v[0] == '+' {
        i = 1;
    }
    let ghost d = if s@.len() > 0 && s@[0] == '+' {
        s@.drop_first()
    } else {
        s@
    };
    assert(d =~= v@.skip(i as int));
    if i >= v.len() {
        return None;
    }
    let mut value: usize = 0;
    let mut k = i;
    while k < v.len()
        invariant
            i <= k <= v.len(),
            v@ == s@,
            d == v@.skip(i as int),
            d == (if s@.len() > 0 && s@[0] == '+' {
                s@.drop_first()
            } else {
                s@
            }),
            all_digits(d.take(k - i)),
            value as nat == digits_value(d.take(k - i)),
        decreases v.len() - k,
    {
        let c = v[k];
        assert(d[k - i] == c);
        if !('0' <= c && c <= '9') {
            assert(!crate::tokenizer::is_digit(d[k - i]));
            assert(!all_digits(d));
            assert(parse_usize_spec(s@) is None);
            return None;
        }
        let digit = (c as u32 - '0' as u32) as usize;
        proof {
            assert(d.take(k - i + 1).drop_last() =~= d.take(k - i));
            assert(d.take(k - i + 1).last() == c);
        }
        match value.checked_mul(10) {
            Some(m) => match m.checked_add(digit) {
                Some(n) => {
                    value = n;
                },
                None => {
                    proof {
                        assert(all_digits(d.take(k - i + 1)));
                        if all_digits(d) {
                            lemma_digits_value_grows(d, k - i + 1);
                        }
                        assert(parse_usize_spec(s@) is None);
                    }
                    return None;
                },
            },
            None => {
                proof {
                    assert(all_digits(d.take(k - i + 1)));
                    if all_digits(d) {
                        lemma_digits_value_grows(d, k - i + 1);
                    }
                }
                return None;
            },
        }
        k = k + 1;
    }
    assert(d.take(k - i) =~= d);
    Some(value)
}

} // verus!

verus! {

/// The decimal digits of `n` parse back to `n`.
pub proof fn lemma_parse_decimal(n: nat)
    requires
        n <= usize::MAX,
    ensures
        parse_usize_spec(decimal(n)) == Some(n),
{
    lemma_decimal_digits(n);
    let d = decimal(n);
    assert(d[0] != '+');
}

/// The decimal representation of `n` is a non-empty string of digits whose value is `n`.
pub proof fn lemma_decimal_digits(n: nat)
    ensures
        decimal(n).len() > 0,
        all_digits(decimal(n)),
        digits_value(decimal(n)) == n,
        crate::tokenizer::is_digit(decimal(n)[0]),
    decreases n,
{
    let c = digit_char(n % 10);
    assert(c as int - '0' as int == n % 10);
    if n < 10 {
        let d = decimal(n);
        assert(d.drop_last() =~= Seq::<char>::empty());
        assert(d.last() == c);
        assert(digits_value(d) == digits_value(d.drop_last()) * 10 + ((d.last() as int - '0' as int) as nat));
    } else {
        lemma_decimal_digits(n / 10);
        let d = decimal(n);
        assert(d.drop_last() =~= decimal(n / 10));
        assert(d.last() == c);
        assert(digits_value(d) == (n / 10) * 10 + n % 10);
        assert((n / 10) * 10 + n % 10 == n) by (nonlinear_arith);
        assert(d[0] == decimal(n / 10)[0]);
    }
}

/// Index shifts carry over to `find_from` when a prefix is put in front.
proof fn lemma_find_from_shift(p: Seq<char>, y: Seq<char>, c: char, j: int)
    requires
        0 <= j <= y.len(),
    ensures
        find_from(p + y, c, p.len() + j) == p.len() + find_from(y, c, j),
    decreases y.len() - j,
{
    if j < y.len() {
        assert((p + y)[p.len() + j] == y[j]);
        if y[j] != c {
            lemma_find_from_shift(p, y, c, j + 1);
        }
    }
}

/// Lines are read the same way after a prefix that ends a line.
proof fn lemma_lines_from_shift(p: Seq<char>, y: Seq<char>, j: int)
    requires
        0 <= j <= y.len(),
    ensures
        lines_from(p + y, p.len() + j) == lines_from(y, j),
    decreases y.len() - j,
{
    if j < y.len() {
        lemma_find_from_shift(p, y, '\n', j);
        lemma_find_from(y, '\n', j);
        let k = find_from(y, '\n', j);
        assert((p + y).subrange(p.len() + j, p.len() + k) =~= y.subrange(j, k));
        assert((p + y).subrange(p.len() + j, (p + y).len() as int) =~= y.subrange(j, y.len() as int));
        if k < y.len() {
            lemma_lines_from_shift(p, y, k + 1);
        }
    }
}

/// Joining with a separator, seen from the front.
proof fn lemma_joined_front(es: Seq<Seq<char>>, sep: Seq<char>)
    requires
        es.len() >= 2,
    ensures
        joined(es, sep) == es[0] + sep + joined(es.drop_first(), sep),
    decreases es.len(),
{
    if es.len() > 2 {
        lemma_joined_front(es.drop_last(), sep);
        assert(es.drop_last().drop_first() =~= es.drop_first().drop_last());
        assert(es.drop_first().last() == es.last());
        assert(es.drop_last()[0] == es[0]);
        assert(joined(es.drop_first(), sep) == joined(es.drop_first().drop_last(), sep) + sep
            + es.drop_first().last());
        assert(joined(es, sep) =~= es[0] + sep + joined(es.drop_first(), sep));
    } else {
        assert(es.drop_first().len() == 1);
        assert(es.drop_last().len() == 1);
        assert(es.drop_last()[0] == es[0]);
        assert(es.drop_first()[0] == es[1]);
        assert(joined(es.drop_last(), sep) == es[0]);
        assert(joined(es.drop_first(), sep) == es[1]);
        assert(es.last() == es[1]);
        assert(joined(es, sep) == joined(es.drop_last(), sep) + sep + es.last());
        assert(joined(es, sep) =~= es[0] + sep + joined(es.drop_first(), sep));
    }
}

/// Writing lines joined by `'\n'` and reading the lines back gives the same lines, when no
/// line holds a `'\n'`, none but the last ends with `'\r'`, and the last is not empty.
pub proof fn lemma_lines_of_joined(es: Seq<Seq<char>>)
    requires
        forall|k: int| 0 <= k < es.len() ==> !(#[trigger] es[k]).contains('\n'),
        forall|k: int| 0 <= k < es.len() - 1 ==> !((#[trigger] es[k]).len() > 0 && es[k].last() == '\r'),
        es.len() > 0 ==> es.last().len() > 0,
    ensures
        lines_of(joined(es, seq!['\n'])) == es,
    decreases es.len(),
{
    if es.len() == 0 {
        assert(lines_of(joined(es, seq!['\n'])) =~= es);
    } else if es.len() == 1 {
        let x = es[0];
        lemma_find_from(x, '\n', 0);
        if find_from(x, '\n', 0) < x.len() {
            assert(x.contains('\n'));
        }
        assert(x.subrange(0, x.len() as int) =~= x);
        assert(lines_of(x) =~= es);
    } else {
        let x = es[0];
        let rest = es.drop_first();
        lemma_joined_front(es, seq!['\n']);
        assert forall|k: int| 0 <= k < rest.len() implies !(#[trigger] rest[k]).contains('\n') by {
            assert(rest[k] == es[k + 1]);
        }
        assert forall|k: int| 0 <= k < rest.len() - 1 implies !((#[trigger] rest[k]).len() > 0
            && rest[k].last() == '\r') by {
            assert(rest[k] == es[k + 1]);
        }
        lemma_lines_of_joined(rest);
        let y = joined(rest, seq!['\n']);
        let p = x + seq!['\n'];
        let s = p + y;
        assert(s =~= x + seq!['\n'] + y);
        lemma_find_from(x, '\n', 0);
        if find_from(x, '\n', 0) < x.len() {
            assert(x.contains('\n'));
        }
        lemma_find_from_shift(x, seq!['\n'] + y, '\n', 0);
        assert(x + (seq!['\n'] + y) =~= s);
        lemma_find_from(seq!['\n'] + y, '\n', 0);
        assert(find_from(seq!['\n'] + y, '\n', 0) == 0);
        lemma_find_from(s, '\n', 0);
        let r = find_from(s, '\n', 0);
        assert(s[x.len() as int] == '\n');
        if r < x.len() {
            assert(x[r] == '\n');
            assert(x.contains('\n'));
        }
        assert(find_from(s, '\n', 0) == x.len());
        assert(s.subrange(0, x.len() as int) =~= x);
        assert(strip_cr(x) == x);
        lemma_lines_from_shift(p, y, 0);
        assert(lines_from(s, 0) =~= seq![x] + lines_from(y, 0));
        assert(seq![x] + rest =~= es);
    }
}

} // verus!

verus! {

/// Writing entries as the history file is written (joined by `'\n'`, with a final `'\n'`) and
/// reading its lines back gives the same entries, when there is at least one, none holds a
/// `'\n'`, and none ends with `'\r'`. Empty entries, the last one too, come back as they were.
pub proof fn lemma_lines_of_written(es: Seq<Seq<char>>)
    requires
        es.len() > 0,
        forall|k: int| 0 <= k < es.len() ==> !(#[trigger] es[k]).contains('\n'),
        forall|k: int| 0 <= k < es.len() ==> !((#[trigger] es[k]).len() > 0 && es[k].last() == '\r'),
    ensures
        lines_of(joined(es, seq!['\n']) + seq!['\n']) == es,
    decreases es.len(),
{
    let x = es[0];
    let p = x + seq!['\n'];
    let y = if es.len() == 1 {
        Seq::<char>::empty()
    } else {
        joined(es.drop_first(), seq!['\n']) + seq!['\n']
    };
    let s = p + y;
    if es.len() == 1 {
        assert(joined(es, seq!['\n']) + seq!['\n'] =~= s);
    } else {
        lemma_joined_front(es, seq!['\n']);
        assert(joined(es, seq!['\n']) + seq!['\n'] =~= s);
    }
    // the first line ends at the first '\n', which closes `x`
    lemma_find_from_shift(x, seq!['\n'] + y, '\n', 0);
    assert(x + (seq!['\n'] + y) =~= s);
    lemma_find_from(seq!['\n'] + y, '\n', 0);
    assert(find_from(seq!['\n'] + y, '\n', 0) == 0);
    lemma_find_from(s, '\n', 0);
    let r = find_from(s, '\n', 0);
    assert(s[x.len() as int] == '\n');
    if r < x.len() {
        assert(x[r] == '\n');
        assert(x.contains('\n'));
    }
    assert(r == x.len());
    assert(s.subrange(0, x.len() as int) =~= x);
    assert(strip_cr(x) == x);
    lemma_lines_from_shift(p, y, 0);
    assert(lines_from(s, 0) =~= seq![x] + lines_from(y, 0));
    if es.len() == 1 {
        assert(lines_from(y, 0) =~= Seq::<Seq<char>>::empty());
        assert(seq![x] =~= es);
    } else {
        let rest = es.drop_first();
        assert forall|k: int| 0 <= k < rest.len() implies !(#[trigger] rest[k]).contains('\n') by {
            assert(rest[k] == es[k + 1]);
        }
        assert forall|k: int| 0 <= k < rest.len() implies !((#[trigger] rest[k]).len() > 0
            && rest[k].last() == '\r') by {
            assert(rest[k] == es[k + 1]);
        }
        lemma_lines_of_written(rest);
        assert(seq![x] + rest =~= es);
    }
}

} // verus!

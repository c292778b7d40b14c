use vstd::prelude::*;
use vstd::string::StringExecFns;
use vstd::utf8::{encode_utf8, is_char_boundary};
use crate::input::InputShell;
use crate::tokenizer::{lex_all, lex_token, lemma_lex_token_progress, with_bytes, LexedToken, TokenSpec};
use crate::utils::color::{color_token, sgr_fg, sgr_reset, token_digit};
use crate::utils::text::{
    byte_count, byte_len, byte_offset, byte_slice, lemma_byte_offset_boundary, lemma_encode_utf8_concat,
};

verus! {

/// The tokens lie in order over `b` from byte `pos` on, each starting and ending on a
/// character boundary.
pub open spec fn placed(b: Seq<u8>, toks: Seq<(TokenSpec, nat, nat)>, pos: int) -> bool
    decreases toks.len(),
{
    if toks.len() == 0 {
        true
    } else {
        let (t, st, en) = toks[0];
        &&& pos <= st <= en <= b.len()
        &&& is_char_boundary(b, st as int)
        &&& is_char_boundary(b, en as int)
        &&& placed(b, toks.drop_first(), en as int)
    }
}

/// The bytes shown for the line `b` from byte `pos` on: the text between tokens as it is, each
/// token's text in its colour.
pub open spec fn render_body(b: Seq<u8>, toks: Seq<(TokenSpec, nat, nat)>, pos: int) -> Seq<u8>
    decreases toks.len(),
{
    if toks.len() == 0 {
        b.subrange(pos, b.len() as int)
    } else {
        let (t, st, en) = toks[0];
        b.subrange(pos, st as int) + encode_utf8(sgr_fg(token_digit(t))) + b.subrange(
            st as int,
            en as int,
        ) + encode_utf8(sgr_reset()) + render_body(b, toks.drop_first(), en as int)
    }
}

/// What is printed before the line: a carriage return, the prompt, and "clear to end of line".
pub open spec fn line_head(prompt: Seq<char>) -> Seq<char> {
    seq!['\r'] + prompt + seq!['\u{1b}', '[', 'K']
}

/// The whole redrawn line, as bytes.
pub open spec fn rendered(buffer: Seq<char>, prompt: Seq<char>, toks: Seq<(TokenSpec, nat, nat)>) -> Seq<u8> {
    encode_utf8(line_head(prompt)) + render_body(encode_utf8(buffer), toks, 0)
}

/// Byte offsets grow with the character index.
pub proof fn lemma_byte_offset_mono(s: Seq<char>, i: int, j: int)
    requires
        0 <= i <= j <= s.len(),
    ensures
        byte_offset(s, i) <= byte_offset(s, j) <= byte_len(s),
{
    assert(s.take(j) =~= s.take(i) + s.subrange(i, j));
    lemma_encode_utf8_concat(s.take(i), s.subrange(i, j));
    assert(s =~= s.take(j) + s.skip(j));
    lemma_encode_utf8_concat(s.take(j), s.skip(j));
}

/// The tokens that the tokenizer reads from position `p` on are placed over the encoding.
pub proof fn lemma_lex_all_placed(s: Seq<char>, p: int)
    requires
        0 <= p <= s.len(),
    ensures
        placed(encode_utf8(s), with_bytes(s, lex_all(s, p)), byte_offset(s, p) as int),
    decreases s.len() - p,
{
    lemma_lex_token_progress(s, p);
    match lex_token(s, p) {
        None => {},
        Some((t, e)) => {
            lemma_lex_all_placed(s, e);
            lemma_byte_offset_mono(s, p, e);
            lemma_byte_offset_boundary(s, p);
            lemma_byte_offset_boundary(s, e);
            let w = with_bytes(s, lex_all(s, p));
            assert(lex_all(s, p) == seq![(t, p, e)] + lex_all(s, e));
            assert(w.drop_first() =~= with_bytes(s, lex_all(s, e)));
        },
    }
}

impl InputShell {
    /// The text that redraws the line: the prompt, then `buffer` with each token coloured.
    pub fn render(buffer: &str, prompt: &str, tokens: &Vec<LexedToken>) -> (r: String)
        requires
            placed(encode_utf8(buffer@), tokens@.map_values(|t: LexedToken| t@), 0),
        ensures
            encode_utf8(r@) == rendered(buffer@, prompt@, tokens@.map_values(|t: LexedToken| t@)),
    {
        let ghost b = encode_utf8(buffer@);
        let ghost toks = tokens@.map_values(|t: LexedToken| t@);
        let ghost target = rendered(buffer@, prompt@, toks);
        let mut out = String::new();
        proof {
            reveal_strlit("\r");
            reveal_strlit("\x1b[K");
            lemma_encode_utf8_concat(seq!['\r'] + prompt@, seq!['\u{1b}', '[', 'K']);
            lemma_encode_utf8_concat(seq!['\r'], prompt@);
        }
        out.append("\r");
        out.append(prompt);
        out.append("\x1b[K");
        assert(out@ =~= line_head(prompt@));
        let mut pos: usize = 0;
        let mut i: usize = 0;
        proof {
            vstd::utf8::encode_utf8_valid_utf8(buffer@);
            vstd::utf8::is_char_boundary_start_end_of_seq(b);
            assert(toks.skip(0) =~= toks);
        }
        while i < tokens.len()
            invariant
                b == encode_utf8(buffer@),
                vstd::utf8::valid_utf8(b),
                toks == tokens@.map_values(|t: LexedToken| t@),
                target == rendered(buffer@, prompt@, toks),
                i <= tokens.len(),
                pos <= b.len(),
                is_char_boundary(b, pos as int),
                placed(b, toks.skip(i as int), pos as int),
                encode_utf8(out@) + render_body(b, toks.skip(i as int), pos as int) == target,
            decreases tokens.len() - i,
        {
            let tok = &tokens[i];
            let ghost rest = toks.skip(i as int);
            assert(rest[0] == tok@);
            assert(rest.drop_first() =~= toks.skip(i + 1));
            let gap = byte_slice(buffer, pos, tok.start);
            let raw = byte_slice(buffer, tok.start, tok.end);
            let shown = color_token(raw, tok);
            let ghost before = out@;
            out.append(gap);
            out.append(shown.as_str());
            proof {
                lemma_encode_utf8_concat(before, gap@);
                lemma_encode_utf8_concat(before + gap@, shown@);
                lemma_encode_utf8_concat(sgr_fg(token_digit(tok.token@)), raw@);
                lemma_encode_utf8_concat(sgr_fg(token_digit(tok.token@)) + raw@, sgr_reset());
                assert(out@ =~= before + gap@ + shown@);
                assert(encode_utf8(out@) + render_body(b, toks.skip(i + 1), tok.end as int)
                    =~= encode_utf8(before) + render_body(b, rest, pos as int));
            }
            pos = tok.end;
            i = i + 1;
        }
        let n = byte_count(buffer);
        let tail = byte_slice(buffer, pos, n);
        let ghost before = out@;
        out.append(tail);
        proof {
            vstd::utf8::is_char_boundary_start_end_of_seq(b);
            lemma_encode_utf8_concat(before, tail@);
            assert(toks.skip(i as int).len() == 0);
        }
        out
    }
}

} // verus!

verus! {

/// The bytes of the redrawn line from `pos` on with the colour sequences left out.
pub open spec fn plain_body(b: Seq<u8>, toks: Seq<(TokenSpec, nat, nat)>, pos: int) -> Seq<u8>
    decreases toks.len(),
{
    if toks.len() == 0 {
        b.subrange(pos, b.len() as int)
    } else {
        let (t, st, en) = toks[0];
        b.subrange(pos, st as int) + b.subrange(st as int, en as int) + plain_body(
            b,
            toks.drop_first(),
            en as int,
        )
    }
}

/// Highlighting does not change the text: without its colour sequences, the redrawn line
/// is the line itself.
pub proof fn lemma_colours_only_decorate(b: Seq<u8>, toks: Seq<(TokenSpec, nat, nat)>, pos: int)
    requires
        0 <= pos <= b.len(),
        placed(b, toks, pos),
    ensures
        plain_body(b, toks, pos) == b.subrange(pos, b.len() as int),
    decreases toks.len(),
{
    if toks.len() > 0 {
        let (t, st, en) = toks[0];
        lemma_colours_only_decorate(b, toks.drop_first(), en as int);
        assert(b.subrange(pos, st as int) + b.subrange(st as int, en as int) + b.subrange(
            en as int,
            b.len() as int,
        ) =~= b.subrange(pos, b.len() as int));
    }
}

} // verus!

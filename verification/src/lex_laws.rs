//! A comment is blank space to the lexer: a text lexes as it does with a
//! comment line's bytes replaced by spaces.
use vstd::prelude::*;
use crate::lexer::{
    adv, chars, is_digit, is_name_char, is_ws, lemma_comment_reaches, lemma_skip_comment, lex, lex_from,
    name_end, number_end, skip_comment, skip_ws, starts_comment, token_at, Pos,
};

verus! {

/// `b` with the bytes from `i` up to `e` replaced by spaces.
pub open spec fn blank(b: Seq<u8>, i: int, e: int) -> Seq<u8> {
    Seq::new(b.len(), |k: int| if i <= k < e { 32u8 } else { b[k] })
}

/// `b` and `c` have one length and the same bytes from `lo` up to `hi`.
pub open spec fn agree(b: Seq<u8>, c: Seq<u8>, lo: int, hi: int) -> bool {
    &&& b.len() == c.len()
    &&& 0 <= lo <= hi <= b.len()
    &&& forall|k: int| lo <= k < hi ==> b[k] == c[k]
}

/// `hi` is the end of the input, or just past a newline.
pub open spec fn line_bound(b: Seq<u8>, hi: int) -> bool {
    hi == b.len() || (1 <= hi <= b.len() && b[hi - 1] == 10)
}

proof fn lemma_name_end_agree(b: Seq<u8>, c: Seq<u8>, lo: int, hi: int, j: int)
    requires
        agree(b, c, lo, hi),
        line_bound(b, hi),
        lo <= j <= hi,
        j < hi || hi == b.len(),
    ensures
        name_end(b, j) == name_end(c, j),
        j <= name_end(b, j) <= hi,
    decreases b.len() - j,
{
    if 0 <= j < b.len() && is_name_char(b[j]) {
        lemma_name_end_agree(b, c, lo, hi, j + 1);
    }
}

proof fn lemma_number_end_agree(b: Seq<u8>, c: Seq<u8>, lo: int, hi: int, j: int, has_dot: bool)
    requires
        agree(b, c, lo, hi),
        line_bound(b, hi),
        lo <= j <= hi,
        j < hi || hi == b.len(),
    ensures
        number_end(b, j, has_dot) == number_end(c, j, has_dot),
        j <= number_end(b, j, has_dot).0 <= hi,
    decreases b.len() - j,
{
    if 0 <= j < b.len() && is_digit(b[j]) {
        lemma_number_end_agree(b, c, lo, hi, j + 1, has_dot);
    } else if 0 <= j < b.len() && b[j] == 46 && !has_dot {
        lemma_number_end_agree(b, c, lo, hi, j + 1, true);
    }
}

proof fn lemma_comment_agree(b: Seq<u8>, c: Seq<u8>, lo: int, hi: int, p: Pos)
    requires
        agree(b, c, lo, hi),
        line_bound(b, hi),
        lo <= p.pos <= hi,
        p.pos < hi || hi == b.len(),
    ensures
        skip_comment(b, p) == skip_comment(c, p),
        p.pos <= skip_comment(b, p).pos <= hi,
        hi < b.len() ==> skip_comment(b, p).pos < hi,
    decreases b.len() - p.pos,
{
    if 0 <= p.pos < b.len() && b[p.pos] != 10 {
        lemma_comment_agree(b, c, lo, hi, adv(b, p));
    }
}

proof fn lemma_chars_agree(b: Seq<u8>, c: Seq<u8>, lo: int, hi: int, x: int, y: int)
    requires
        agree(b, c, lo, hi),
        lo <= x <= y <= hi,
    ensures
        b.subrange(x, y) == c.subrange(x, y),
        chars(b, x, y) == chars(c, x, y),
{
    assert(b.subrange(x, y) =~= c.subrange(x, y));
}

proof fn lemma_token_agree(b: Seq<u8>, c: Seq<u8>, lo: int, hi: int, q: Pos)
    requires
        agree(b, c, lo, hi),
        line_bound(b, hi),
        lo <= q.pos < hi,
        !is_ws(b[q.pos]),
    ensures
        token_at(b, q) == token_at(c, q),
        token_at(b, q) matches Ok((_, r)) ==> r.pos <= hi,
{
    let q1 = adv(b, q);
    assert(q1 == adv(c, q));
    assert(q1.pos < hi || hi == b.len());
    lemma_number_end_agree(b, c, lo, hi, q.pos, false);
    let ne0 = number_end(b, q.pos, false).0;
    lemma_chars_agree(b, c, lo, hi, q.pos, ne0);
    lemma_name_end_agree(b, c, lo, hi, q.pos);
    lemma_chars_agree(b, c, lo, hi, q.pos, name_end(b, q.pos));
    if q1.pos <= b.len() {
        lemma_number_end_agree(b, c, lo, hi, q1.pos, false);
        let ne1 = number_end(b, q1.pos, false).0;
        lemma_chars_agree(b, c, lo, hi, q1.pos, ne1);
        lemma_name_end_agree(b, c, lo, hi, q1.pos);
        lemma_chars_agree(b, c, lo, hi, q1.pos, name_end(b, q1.pos));
        if q1.pos < b.len() {
            assert(b[q1.pos] == c[q1.pos]);
            assert(adv(b, q1) == adv(c, q1));
        }
    }
}

/// The bytes from `i` up to `e` are a comment that takes up the rest of a
/// line from its start: the line starts at `i` with a `;` or two slashes,
/// and `e` is its end, the next newline or the end of the input.
pub open spec fn comment_line(b: Seq<u8>, i: int, e: int) -> bool {
    &&& 0 <= i < e <= b.len()
    &&& i == 0 || b[i - 1] == 10
    &&& b[i] == 59 || (b[i] == 47 && i + 1 < e && b[i + 1] == 47)
    &&& forall|k: int| i <= k < e ==> b[k] != 10
    &&& e == b.len() || b[e] == 10
}

proof fn lemma_spaces(b: Seq<u8>, i: int, e: int, p: Pos)
    requires
        comment_line(b, i, e),
        i <= p.pos <= e,
    ensures
        skip_ws(blank(b, i, e), p) == skip_ws(blank(b, i, e), Pos { pos: e, line: p.line, col: p.col + (e - p.pos) }),
    decreases e - p.pos,
{
    let c = blank(b, i, e);
    if p.pos < e {
        assert(c[p.pos] == 32u8);
        lemma_spaces(b, i, e, adv(c, p));
    }
}

proof fn lemma_skip_ws_blank(b: Seq<u8>, i: int, e: int, p: Pos)
    requires
        comment_line(b, i, e),
        0 <= p.pos <= b.len(),
        p.pos <= i || p.pos >= e,
    ensures
        skip_ws(b, p) == skip_ws(blank(b, i, e), p),
        skip_ws(b, p).pos < i || skip_ws(b, p).pos >= e,
        p.pos <= skip_ws(b, p).pos <= b.len(),
        skip_ws(b, p).pos < b.len() ==> !is_ws(b[skip_ws(b, p).pos]),
    decreases b.len() - p.pos,
{
    let c = blank(b, i, e);
    assert(agree(b, c, 0, i));
    assert(agree(b, c, e, b.len() as int));
    if p.pos >= b.len() {
    } else if p.pos == i {
        let pe = Pos { pos: e, line: p.line, col: p.col + (e - p.pos) };
        lemma_comment_reaches(b, p, e);
        assert(c[p.pos] == 32u8);
        lemma_spaces(b, i, e, adv(c, p));
        lemma_skip_ws_blank(b, i, e, pe);
    } else if p.pos < i {
        assert(b[p.pos] == c[p.pos]);
        if is_ws(b[p.pos]) {
            lemma_skip_ws_blank(b, i, e, adv(b, p));
        } else if starts_comment(b, p.pos) {
            assert(p.pos + 1 < i ==> b[p.pos + 1] == c[p.pos + 1]);
            lemma_comment_agree(b, c, 0, i, p);
            lemma_skip_comment(b, p);
            lemma_skip_ws_blank(b, i, e, skip_comment(b, p));
        }
    } else {
        assert(b[p.pos] == c[p.pos]);
        if is_ws(b[p.pos]) {
            lemma_skip_ws_blank(b, i, e, adv(b, p));
        } else if starts_comment(b, p.pos) {
            assert(p.pos + 1 < b.len() ==> b[p.pos + 1] == c[p.pos + 1]);
            lemma_comment_agree(b, c, e, b.len() as int, p);
            lemma_skip_comment(b, p);
            lemma_skip_ws_blank(b, i, e, skip_comment(b, p));
        }
    }
}

proof fn lemma_lex_blank(b: Seq<u8>, i: int, e: int, p: Pos)
    requires
        comment_line(b, i, e),
        0 <= p.pos <= b.len(),
        p.pos <= i || p.pos >= e,
    ensures
        lex_from(b, p) == lex_from(blank(b, i, e), p),
    decreases b.len() - p.pos,
{
    let c = blank(b, i, e);
    assert(agree(b, c, 0, i));
    assert(agree(b, c, e, b.len() as int));
    lemma_skip_ws_blank(b, i, e, p);
    let q = skip_ws(b, p);
    if 0 <= q.pos < b.len() {
        if q.pos < i {
            lemma_token_agree(b, c, 0, i, q);
        } else {
            lemma_token_agree(b, c, e, b.len() as int, q);
        }
        if let Ok((t, r)) = token_at(b, q) {
            if q.pos < r.pos <= b.len() {
                lemma_lex_blank(b, i, e, r);
            }
        }
    }
}

/// A comment line is blank space to the lexer: a text whose line holds, from
/// its start, a `;` or two slashes and then anything up to the line's end
/// lexes as the same text with those bytes replaced by spaces, to the same
/// tokens at the same lines and columns, or to the same error.
pub proof fn lemma_comment_line_blank(b: Seq<u8>, i: int, e: int)
    requires
        comment_line(b, i, e),
    ensures
        lex(b) == lex(blank(b, i, e)),
{
    lemma_lex_blank(b, i, e, Pos { pos: 0, line: 1, col: 1 });
}



} // verus!

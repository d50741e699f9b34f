//! The lexer of the textual IR.
use vstd::prelude::*;
use crate::text::{owned, push_char, push_str, push_u64_digits};
use vstd::string::StringSliceAdditionalSpecFns;

verus! {

/// Tokens of the textual IR. A float literal keeps its decimal text (sign
/// included): the library holds no floating-point number, and its value is
/// fixed where the literal is used.
#[derive(Clone, PartialEq, Debug)]
pub enum Token {
    Func,
    Extern,
    ConstInt,
    ConstFloat,
    Add,
    Sub,
    Mul,
    Div,
    Rem,
    Neg,
    Not,
    And,
    Or,
    Xor,
    Shl,
    Shr,
    Sar,
    Cmp,
    Alloca,
    Load,
    Store,
    Jmp,
    Br,
    Ret,
    Call,
    Phi,
    Ident(String),
    FuncName(String),
    ValueName(String),
    Int(i64),
    Float(String),
    LBrace,
    RBrace,
    LParen,
    RParen,
    LBracket,
    RBracket,
    Colon,
    Equal,
    Comma,
    Arrow,
}

/// A token as a mathematical value.
pub enum Tok {
    /// A keyword, by its index in `keywords()`.
    Keyword(int),
    Ident(Seq<char>),
    FuncName(Seq<char>),
    ValueName(Seq<char>),
    Int(i64),
    Float(Seq<char>),
    /// Punctuation, by its index in `puncts()`.
    Punct(int),
}

/// The keywords of the IR, each spelled as it is written.
pub open spec fn keywords() -> Seq<Seq<char>> {
    seq!["func"@, "extern"@, "const.int"@, "const.float"@, "add"@, "sub"@, "mul"@, "div"@, "rem"@, "neg"@,
        "not"@, "and"@, "or"@, "xor"@, "shl"@, "shr"@, "sar"@, "cmp"@, "alloca"@, "load"@, "store"@, "jmp"@,
        "br"@, "ret"@, "call"@, "phi"@]
}

/// The punctuation of the IR, each spelled as it is written.
pub open spec fn puncts() -> Seq<Seq<char>> {
    seq!["{"@, "}"@, "("@, ")"@, "["@, "]"@, ":"@, "="@, ","@, "->"@]
}

impl View for Token {
    type V = Tok;

    open spec fn view(&self) -> Tok {
        match self {
            Token::Func => Tok::Keyword(0),
            Token::Extern => Tok::Keyword(1),
            Token::ConstInt => Tok::Keyword(2),
            Token::ConstFloat => Tok::Keyword(3),
            Token::Add => Tok::Keyword(4),
            Token::Sub => Tok::Keyword(5),
            Token::Mul => Tok::Keyword(6),
            Token::Div => Tok::Keyword(7),
            Token::Rem => Tok::Keyword(8),
            Token::Neg => Tok::Keyword(9),
            Token::Not => Tok::Keyword(10),
            Token::And => Tok::Keyword(11),
            Token::Or => Tok::Keyword(12),
            Token::Xor => Tok::Keyword(13),
            Token::Shl => Tok::Keyword(14),
            Token::Shr => Tok::Keyword(15),
            Token::Sar => Tok::Keyword(16),
            Token::Cmp => Tok::Keyword(17),
            Token::Alloca => Tok::Keyword(18),
            Token::Load => Tok::Keyword(19),
            Token::Store => Tok::Keyword(20),
            Token::Jmp => Tok::Keyword(21),
            Token::Br => Tok::Keyword(22),
            Token::Ret => Tok::Keyword(23),
            Token::Call => Tok::Keyword(24),
            Token::Phi => Tok::Keyword(25),
            Token::Ident(s) => Tok::Ident(s@),
            Token::FuncName(s) => Tok::FuncName(s@),
            Token::ValueName(s) => Tok::ValueName(s@),
            Token::Int(i) => Tok::Int(*i),
            Token::Float(s) => Tok::Float(s@),
            Token::LBrace => Tok::Punct(0),
            Token::RBrace => Tok::Punct(1),
            Token::LParen => Tok::Punct(2),
            Token::RParen => Tok::Punct(3),
            Token::LBracket => Tok::Punct(4),
            Token::RBracket => Tok::Punct(5),
            Token::Colon => Tok::Punct(6),
            Token::Equal => Tok::Punct(7),
            Token::Comma => Tok::Punct(8),
            Token::Arrow => Tok::Punct(9),
        }
    }
}

/// The token's text as the printer of error messages writes it.
pub open spec fn tok_text(t: Tok) -> Seq<char> {
    match t {
        Tok::Keyword(k) => keywords()[k],
        Tok::Ident(s) => s,
        Tok::FuncName(s) => seq!['@'] + s,
        Tok::ValueName(s) => seq!['%'] + s,
        Tok::Int(i) => crate::text::int_text(i as int),
        Tok::Float(s) => s,
        Tok::Punct(p) => puncts()[p],
    }
}

pub open spec fn kind_of(t: Token) -> u8 {
    match t {
        Token::Func => 0, Token::Extern => 1, Token::ConstInt => 2, Token::ConstFloat => 3,
        Token::Add => 4, Token::Sub => 5, Token::Mul => 6, Token::Div => 7, Token::Rem => 8,
        Token::Neg => 9, Token::Not => 10, Token::And => 11, Token::Or => 12, Token::Xor => 13,
        Token::Shl => 14, Token::Shr => 15, Token::Sar => 16, Token::Cmp => 17, Token::Alloca => 18,
        Token::Load => 19, Token::Store => 20, Token::Jmp => 21, Token::Br => 22, Token::Ret => 23,
        Token::Call => 24, Token::Phi => 25, Token::Ident(_) => 26, Token::FuncName(_) => 27,
        Token::ValueName(_) => 28, Token::Int(_) => 29, Token::Float(_) => 30, Token::LBrace => 31,
        Token::RBrace => 32, Token::LParen => 33, Token::RParen => 34, Token::LBracket => 35,
        Token::RBracket => 36, Token::Colon => 37, Token::Equal => 38, Token::Comma => 39, Token::Arrow => 40,
    }
}

impl Token {
    /// The token's text, as error messages show it.
    pub fn to_string(&self) -> (r: String)
        ensures
            r@ == tok_text(self@),
    {
        proof {
            reveal_strlit("@");
            reveal_strlit("%");
        }
        assert(keywords().len() == 26 && puncts().len() == 10);
        match self {
            Token::Ident(s) => s.clone(),
            Token::FuncName(s) => {
                let mut r = owned("@");
                push_str(&mut r, s.as_str());
                r
            }
            Token::ValueName(s) => {
                let mut r = owned("%");
                push_str(&mut r, s.as_str());
                r
            }
            Token::Int(i) => crate::text::i64_text(*i),
            Token::Float(s) => s.clone(),
            Token::Func => owned("func"),
            Token::Extern => owned("extern"),
            Token::ConstInt => owned("const.int"),
            Token::ConstFloat => owned("const.float"),
            Token::Add => owned("add"),
            Token::Sub => owned("sub"),
            Token::Mul => owned("mul"),
            Token::Div => owned("div"),
            Token::Rem => owned("rem"),
            Token::Neg => owned("neg"),
            Token::Not => owned("not"),
            Token::And => owned("and"),
            Token::Or => owned("or"),
            Token::Xor => owned("xor"),
            Token::Shl => owned("shl"),
            Token::Shr => owned("shr"),
            Token::Sar => owned("sar"),
            Token::Cmp => owned("cmp"),
            Token::Alloca => owned("alloca"),
            Token::Load => owned("load"),
            Token::Store => owned("store"),
            Token::Jmp => owned("jmp"),
            Token::Br => owned("br"),
            Token::Ret => owned("ret"),
            Token::Call => owned("call"),
            Token::Phi => owned("phi"),
            Token::LBrace => owned("{"),
            Token::RBrace => owned("}"),
            Token::LParen => owned("("),
            Token::RParen => owned(")"),
            Token::LBracket => owned("["),
            Token::RBracket => owned("]"),
            Token::Colon => owned(":"),
            Token::Equal => owned("="),
            Token::Comma => owned(","),
            Token::Arrow => owned("->"),
        }
    }

    /// Structural equality of tokens.
    pub fn same(&self, other: &Token) -> (r: bool)
        ensures
            r == (self@ == other@),
    {
        match (self, other) {
            (Token::Ident(a), Token::Ident(b)) => crate::text::str_eq(a.as_str(), b.as_str()),
            (Token::FuncName(a), Token::FuncName(b)) => crate::text::str_eq(a.as_str(), b.as_str()),
            (Token::ValueName(a), Token::ValueName(b)) => crate::text::str_eq(a.as_str(), b.as_str()),
            (Token::Float(a), Token::Float(b)) => crate::text::str_eq(a.as_str(), b.as_str()),
            (Token::Int(a), Token::Int(b)) => *a == *b,
            _ => {
                self.kind() == other.kind()
            }
        }
    }

    /// A number that tells the token kinds apart.
    pub fn kind(&self) -> (k: u8)
        ensures
            k == kind_of(*self),
    {
        match self {
            Token::Func => 0, Token::Extern => 1, Token::ConstInt => 2, Token::ConstFloat => 3,
            Token::Add => 4, Token::Sub => 5, Token::Mul => 6, Token::Div => 7, Token::Rem => 8,
            Token::Neg => 9, Token::Not => 10, Token::And => 11, Token::Or => 12, Token::Xor => 13,
            Token::Shl => 14, Token::Shr => 15, Token::Sar => 16, Token::Cmp => 17, Token::Alloca => 18,
            Token::Load => 19, Token::Store => 20, Token::Jmp => 21, Token::Br => 22, Token::Ret => 23,
            Token::Call => 24, Token::Phi => 25, Token::Ident(_) => 26, Token::FuncName(_) => 27,
            Token::ValueName(_) => 28, Token::Int(_) => 29, Token::Float(_) => 30, Token::LBrace => 31,
            Token::RBrace => 32, Token::LParen => 33, Token::RParen => 34, Token::LBracket => 35,
            Token::RBracket => 36, Token::Colon => 37, Token::Equal => 38, Token::Comma => 39, Token::Arrow => 40,
        }
    }
}

// ---------------------------------------------------------------------------
// The token grammar

/// A position in the input: byte offset, line and column (both from 1).
pub struct Pos {
    pub pos: int,
    pub line: int,
    pub col: int,
}

pub open spec fn is_ws(c: u8) -> bool {
    c == 32 || c == 9 || c == 10 || c == 12 || c == 13
}

pub open spec fn is_digit(c: u8) -> bool {
    48 <= c <= 57
}

pub open spec fn is_alpha(c: u8) -> bool {
    (65 <= c <= 90) || (97 <= c <= 122)
}

/// Characters that may continue a word or a name.
pub open spec fn is_name_char(c: u8) -> bool {
    is_alpha(c) || is_digit(c) || c == 95 || c == 46 || c == 45
}

/// The position after the byte at `p`.
pub open spec fn adv(b: Seq<u8>, p: Pos) -> Pos {
    if b[p.pos] == 10 {
        Pos { pos: p.pos + 1, line: p.line + 1, col: 1 }
    } else {
        Pos { pos: p.pos + 1, line: p.line, col: p.col + 1 }
    }
}

/// The position of the end of the line that `p` is on (before its newline).
pub open spec fn skip_comment(b: Seq<u8>, p: Pos) -> Pos
    decreases b.len() - p.pos,
{
    if 0 <= p.pos < b.len() && b[p.pos] != 10 {
        skip_comment(b, adv(b, p))
    } else {
        p
    }
}

pub open spec fn starts_comment(b: Seq<u8>, i: int) -> bool {
    b[i] == 59 || (b[i] == 47 && i + 1 < b.len() && b[i + 1] == 47)
}

pub proof fn lemma_skip_comment(b: Seq<u8>, p: Pos)
    requires
        0 <= p.pos,
    ensures
        skip_comment(b, p).pos >= p.pos,
        (0 <= p.pos < b.len() && b[p.pos] != 10) ==> skip_comment(b, p).pos > p.pos,
        p.pos <= b.len() ==> skip_comment(b, p).pos <= b.len(),
        skip_comment(b, p).line >= p.line,
    decreases b.len() - p.pos,
{
    if 0 <= p.pos < b.len() && b[p.pos] != 10 {
        lemma_skip_comment(b, adv(b, p));
    }
}

/// The position of the next byte that is neither whitespace nor in a comment.
pub open spec fn skip_ws(b: Seq<u8>, p: Pos) -> Pos
    decreases b.len() - p.pos,
{
    if p.pos < 0 || p.pos >= b.len() {
        p
    } else if is_ws(b[p.pos]) {
        skip_ws(b, adv(b, p))
    } else if starts_comment(b, p.pos) {
        proof { lemma_skip_comment(b, p); }
        skip_ws(b, skip_comment(b, p))
    } else {
        p
    }
}

/// The end of the run of name characters from `i`.
pub open spec fn name_end(b: Seq<u8>, i: int) -> int
    decreases b.len() - i,
{
    if 0 <= i < b.len() && is_name_char(b[i]) {
        name_end(b, i + 1)
    } else {
        i
    }
}

/// The end of the run of digits and at most one dot from `i`, and whether it holds a dot.
pub open spec fn number_end(b: Seq<u8>, i: int, has_dot: bool) -> (int, bool)
    decreases b.len() - i,
{
    if 0 <= i < b.len() && is_digit(b[i]) {
        number_end(b, i + 1, has_dot)
    } else if 0 <= i < b.len() && b[i] == 46 && !has_dot {
        number_end(b, i + 1, true)
    } else {
        (i, has_dot)
    }
}

/// The bytes `b[i..j]` read as characters.
pub open spec fn chars(b: Seq<u8>, i: int, j: int) -> Seq<char> {
    b.subrange(i, j).map_values(|x: u8| x as char)
}

/// The value of a run of decimal digits.
pub open spec fn digits_value(d: Seq<u8>) -> int
    decreases d.len(),
{
    if d.len() == 0 {
        0
    } else {
        digits_value(d.drop_last()) * 10 + (d.last() - 48)
    }
}

/// The index of the first keyword spelled `w`, or -1.
pub open spec fn keyword_index(w: Seq<char>) -> int {
    if exists|k: int| 0 <= k < 26 && keywords()[k] == w {
        choose|k: int| 0 <= k < 26 && keywords()[k] == w && forall|j: int| 0 <= j < k ==> keywords()[j] != w
    } else {
        -1
    }
}

/// Where a lexing error is reported.
pub struct LexFault {
    pub line: int,
    pub col: int,
    pub message: Seq<char>,
}

/// The message for a byte that cannot start a token.
pub open spec fn unexpected_message(prefix: Seq<char>, c: u8) -> Seq<char> {
    prefix + seq![c as char] + "'"@
}

/// The token at `p` (a byte that is not whitespace) and the position after it.
pub open spec fn token_at(b: Seq<u8>, p: Pos) -> Result<(Tok, Pos), LexFault> {
    let c = b[p.pos];
    if c == 123 { Ok((Tok::Punct(0), adv(b, p))) }
    else if c == 125 { Ok((Tok::Punct(1), adv(b, p))) }
    else if c == 40 { Ok((Tok::Punct(2), adv(b, p))) }
    else if c == 41 { Ok((Tok::Punct(3), adv(b, p))) }
    else if c == 91 { Ok((Tok::Punct(4), adv(b, p))) }
    else if c == 93 { Ok((Tok::Punct(5), adv(b, p))) }
    else if c == 58 { Ok((Tok::Punct(6), adv(b, p))) }
    else if c == 61 { Ok((Tok::Punct(7), adv(b, p))) }
    else if c == 44 { Ok((Tok::Punct(8), adv(b, p))) }
    else if c == 45 {
        let q = adv(b, p);
        if q.pos < b.len() && b[q.pos] == 62 {
            Ok((Tok::Punct(9), adv(b, q)))
        } else if q.pos < b.len() && is_digit(b[q.pos]) {
            number_token(b, p, q, true)
        } else if q.pos < b.len() {
            Err(LexFault { line: p.line, col: p.col, message: unexpected_message("Unexpected character after '-': '"@, b[q.pos]) })
        } else {
            Err(LexFault { line: p.line, col: p.col, message: "Unexpected end of input after '-'"@ })
        }
    }
    else if c == 64 || c == 37 {
        let q = adv(b, p);
        let e = name_end(b, q.pos);
        if e == q.pos {
            Err(LexFault { line: p.line, col: p.col, message: "Expected identifier after prefix symbol"@ })
        } else {
            let name = chars(b, q.pos, e);
            let after = Pos { pos: e, line: q.line, col: q.col + (e - q.pos) };
            Ok((if c == 64 { Tok::FuncName(name) } else { Tok::ValueName(name) }, after))
        }
    }
    else if is_digit(c) {
        number_token(b, p, p, false)
    }
    else if is_alpha(c) || c == 95 {
        let e = name_end(b, p.pos);
        let w = chars(b, p.pos, e);
        let after = Pos { pos: e, line: p.line, col: p.col + (e - p.pos) };
        let k = keyword_index(w);
        Ok((if k >= 0 { Tok::Keyword(k) } else { Tok::Ident(w) }, after))
    }
    else {
        Err(LexFault { line: p.line, col: p.col, message: unexpected_message("Unexpected character: '"@, c) })
    }
}

/// A number literal starting at `q` (after a `-` at `start` when `neg`).
pub open spec fn number_token(b: Seq<u8>, start: Pos, q: Pos, neg: bool) -> Result<(Tok, Pos), LexFault> {
    let (e, has_dot) = number_end(b, q.pos, false);
    let after = Pos { pos: e, line: q.line, col: q.col + (e - q.pos) };
    let text = chars(b, q.pos, e);
    if has_dot {
        Ok((Tok::Float(if neg { seq!['-'] + text } else { text }), after))
    } else {
        let v = if neg { -digits_value(b.subrange(q.pos, e)) } else { digits_value(b.subrange(q.pos, e)) };
        if i64::MIN <= v <= i64::MAX {
            Ok((Tok::Int(v as i64), after))
        } else {
            Err(LexFault { line: start.line, col: start.col, message: "Invalid int literal '"@
                + (if neg { seq!['-'] + text } else { text })
                + (if neg { "': number too small to fit in target type"@ } else { "': number too large to fit in target type"@ }) })
        }
    }
}

/// The tokens from `p` to the end of the input, each with its line and column.
pub open spec fn lex_from(b: Seq<u8>, p: Pos) -> Result<Seq<(Tok, int, int)>, LexFault>
    decreases b.len() - p.pos,
{
    let q = skip_ws(b, p);
    if q.pos < 0 || q.pos >= b.len() || q.pos < p.pos {
        Ok(seq![])
    } else {
        match token_at(b, q) {
            Ok((t, r)) => if r.pos <= q.pos || r.pos > b.len() {
                Ok(seq![])
            } else {
                match lex_from(b, r) {
                    Ok(rest) => Ok(seq![(t, q.line, q.col)] + rest),
                    Err(e) => Err(e),
                }
            },
            Err(e) => Err(e),
        }
    }
}

/// The tokens of the whole input.
pub open spec fn lex(b: Seq<u8>) -> Result<Seq<(Tok, int, int)>, LexFault> {
    lex_from(b, Pos { pos: 0, line: 1, col: 1 })
}

pub proof fn lemma_name_end(b: Seq<u8>, i: int)
    requires
        0 <= i <= b.len(),
    ensures
        i <= name_end(b, i) <= b.len(),
        forall|j: int| i <= j < name_end(b, i) ==> is_name_char(#[trigger] b[j]),
        name_end(b, i) < b.len() ==> !is_name_char(b[name_end(b, i)]),
    decreases b.len() - i,
{
    if i < b.len() && is_name_char(b[i]) {
        lemma_name_end(b, i + 1);
    }
}

pub proof fn lemma_number_end(b: Seq<u8>, i: int, has_dot: bool)
    requires
        0 <= i <= b.len(),
    ensures
        i <= number_end(b, i, has_dot).0 <= b.len(),
        !number_end(b, i, has_dot).1 ==> !has_dot && forall|j: int| i <= j < number_end(b, i, has_dot).0 ==> is_digit(#[trigger] b[j]),
    decreases b.len() - i,
{
    if i < b.len() && is_digit(b[i]) {
        lemma_number_end(b, i + 1, has_dot);
    } else if i < b.len() && b[i] == 46 && !has_dot {
        lemma_number_end(b, i + 1, true);
    }
}

pub proof fn lemma_digits_value_grows(d: Seq<u8>)
    requires
        forall|j: int| 0 <= j < d.len() ==> is_digit(#[trigger] d[j]),
    ensures
        digits_value(d) >= 0,
        d.len() > 0 ==> digits_value(d) >= digits_value(d.drop_last()),
    decreases d.len(),
{
    if d.len() > 0 {
        lemma_digits_value_grows(d.drop_last());
    }
}


pub proof fn lemma_skip_ws(b: Seq<u8>, p: Pos)
    requires
        0 <= p.pos <= b.len(),
    ensures
        p.pos <= skip_ws(b, p).pos <= b.len(),
    decreases b.len() - p.pos,
{
    if p.pos < b.len() {
        if is_ws(b[p.pos]) {
            lemma_skip_ws(b, adv(b, p));
        } else if starts_comment(b, p.pos) {
            lemma_skip_comment(b, p);
            lemma_skip_ws(b, skip_comment(b, p));
        }
    }
}

/// On a line that holds no newline from `p` to `e`, skipping a comment from
/// `p` ends at `e`, with the column moved on by the bytes passed.
pub(crate) proof fn lemma_comment_reaches(b: Seq<u8>, p: Pos, e: int)
    requires
        0 <= p.pos <= e <= b.len(),
        e == b.len() || b[e] == 10,
        forall|k: int| p.pos <= k < e ==> b[k] != 10,
    ensures
        skip_comment(b, p) == (Pos { pos: e, line: p.line, col: p.col + (e - p.pos) }),
    decreases e - p.pos,
{
    if p.pos < e {
        lemma_comment_reaches(b, adv(b, p), e);
    }
}

/// A `;`, or two slashes, met between tokens starts a comment that runs to
/// the end of its line: lexing from there gives what lexing from the end of
/// the line gives, the same tokens at the same lines and columns, or the
/// same error. Here `e` is the end of the line: the first newline at or
/// after `p`, or the end of the input.
pub proof fn lemma_comment_to_line_end(b: Seq<u8>, p: Pos, e: int)
    requires
        0 <= p.pos < b.len(),
        b[p.pos] == 59 || (b[p.pos] == 47 && p.pos + 1 < b.len() && b[p.pos + 1] == 47),
        p.pos <= e <= b.len(),
        e == b.len() || b[e] == 10,
        forall|k: int| p.pos <= k < e ==> b[k] != 10,
    ensures
        lex_from(b, p) == lex_from(b, Pos { pos: e, line: p.line, col: p.col + (e - p.pos) }),
{
    let pe = Pos { pos: e, line: p.line, col: p.col + (e - p.pos) };
    lemma_comment_reaches(b, p, e);
    assert(skip_ws(b, p) == skip_ws(b, pe));
    lemma_skip_ws(b, pe);
}

/// Prepends tokens to a lexing result.
pub open spec fn prepend(pre: Seq<(Tok, int, int)>, r: Result<Seq<(Tok, int, int)>, LexFault>) -> Result<Seq<(Tok, int, int)>, LexFault> {
    match r {
        Ok(rest) => Ok(pre + rest),
        Err(e) => Err(e),
    }
}

/// A value with the line and column where it starts.
#[derive(Clone, PartialEq, Debug)]
pub struct Spanned<T> {
    pub value: T,
    pub line: usize,
    pub col: usize,
}

/// A lexing error: a message and the line and column where it occurred.
#[derive(Clone, PartialEq, Eq, Debug)]
pub struct LexError {
    pub message: String,
    pub line: usize,
    pub col: usize,
}

impl LexError {
    /// The error as the command-line driver prints it.
    pub fn to_string(&self) -> (r: String)
        ensures
            r@ == "Lex error at line "@ + crate::text::nat_digits(self.line as nat) + ", col "@
                + crate::text::nat_digits(self.col as nat) + ": "@ + self.message@,
    {
        let mut r = owned("Lex error at line ");
        push_u64_digits(&mut r, self.line as u64);
        push_str(&mut r, ", col ");
        push_u64_digits(&mut r, self.col as u64);
        push_str(&mut r, ": ");
        push_str(&mut r, self.message.as_str());
        r
    }
}

/// The tokens of a lexing result as values with their positions.
pub open spec fn spans_view(ts: Seq<Spanned<Token>>) -> Seq<(Tok, int, int)> {
    ts.map_values(|t: Spanned<Token>| (t.value@, t.line as int, t.col as int))
}

/// The lexer of the textual IR, over the bytes of its input.
pub struct Lexer<'a> {
    input: &'a [u8],
    pos: usize,
    line: usize,
    col: usize,
}

impl<'a> View for Lexer<'a> {
    type V = Pos;

    closed spec fn view(&self) -> Pos {
        Pos { pos: self.pos as int, line: self.line as int, col: self.col as int }
    }
}

fn is_ws_byte(c: u8) -> (r: bool)
    ensures
        r == is_ws(c),
{
    c == 32 || c == 9 || c == 10 || c == 12 || c == 13
}

fn is_digit_byte(c: u8) -> (r: bool)
    ensures
        r == is_digit(c),
{
    48 <= c && c <= 57
}

fn is_alpha_byte(c: u8) -> (r: bool)
    ensures
        r == is_alpha(c),
{
    (65 <= c && c <= 90) || (97 <= c && c <= 122)
}

fn is_name_byte(c: u8) -> (r: bool)
    ensures
        r == is_name_char(c),
{
    is_alpha_byte(c) || is_digit_byte(c) || c == 95 || c == 46 || c == 45
}

fn keyword_token(k: usize) -> (t: Token)
    requires
        k < 26,
    ensures
        t@ == Tok::Keyword(k as int),
{
    match k {
        0 => Token::Func, 1 => Token::Extern, 2 => Token::ConstInt, 3 => Token::ConstFloat,
        4 => Token::Add, 5 => Token::Sub, 6 => Token::Mul, 7 => Token::Div, 8 => Token::Rem,
        9 => Token::Neg, 10 => Token::Not, 11 => Token::And, 12 => Token::Or, 13 => Token::Xor,
        14 => Token::Shl, 15 => Token::Shr, 16 => Token::Sar, 17 => Token::Cmp, 18 => Token::Alloca,
        19 => Token::Load, 20 => Token::Store, 21 => Token::Jmp, 22 => Token::Br, 23 => Token::Ret,
        24 => Token::Call, _ => Token::Phi,
    }
}

fn keyword_lookup(w: &str) -> (r: Option<usize>)
    ensures
        r matches Some(k) ==> k == keyword_index(w@) && k < 26,
        r is None ==> keyword_index(w@) == -1,
{
    let kw = ["func", "extern", "const.int", "const.float", "add", "sub", "mul", "div", "rem", "neg",
        "not", "and", "or", "xor", "shl", "shr", "sar", "cmp", "alloca", "load", "store", "jmp",
        "br", "ret", "call", "phi"];
    assert(kw@.map_values(|s: &str| s@) =~= keywords());
    let mut k: usize = 0;
    while k < 26
        invariant
            kw@.map_values(|s: &str| s@) == keywords(),
            k <= 26,
            forall|j: int| 0 <= j < k ==> keywords()[j] != w@,
        decreases 26 - k,
    {
        assert(kw@.map_values(|s: &str| s@)[k as int] == kw@[k as int]@);
        if crate::text::str_eq(kw[k], w) {
            return Some(k);
        }
        k = k + 1;
    }
    None
}

impl<'a> Lexer<'a> {
    pub closed spec fn input(&self) -> Seq<u8> {
        self.input@
    }

    /// The lexer's counters stay within the input.
    pub closed spec fn wf(&self) -> bool {
        &&& self.input@.len() < usize::MAX
        &&& 0 <= self.pos <= self.input@.len()
        &&& 1 <= self.line <= self.pos + 1
        &&& 1 <= self.col <= self.pos + 1
    }

    pub fn new(input: &'a str) -> (lexer: Self)
        requires
            input.spec_bytes().len() < usize::MAX,
        ensures
            lexer.input() == input.spec_bytes(),
            lexer@ == (Pos { pos: 0, line: 1, col: 1 }),
            lexer.wf(),
    {
        Lexer { input: input.as_bytes(), pos: 0, line: 1, col: 1 }
    }

    fn peek_byte(&self) -> (r: Option<u8>)
        ensures
            self.pos < self.input@.len() ==> r == Some(self.input@[self.pos as int]),
            self.pos >= self.input@.len() ==> r is None,
    {
        if self.pos < self.input.len() {
            Some(self.input[self.pos])
        } else {
            None
        }
    }

    fn next_byte(&mut self)
        requires
            old(self).wf(),
            old(self).pos < old(self).input@.len(),
        ensures
            final(self).wf(),
            final(self).input == old(self).input,
            final(self)@ == adv(old(self).input@, old(self)@),
    {
        let ch = self.input[self.pos];
        self.pos = self.pos + 1;
        if ch == 10 {
            self.line = self.line + 1;
            self.col = 1;
        } else {
            self.col = self.col + 1;
        }
    }

    fn skip_whitespace_and_comments(&mut self)
        requires
            old(self).wf(),
        ensures
            final(self).wf(),
            final(self).input == old(self).input,
            final(self)@ == skip_ws(old(self).input@, old(self)@),
    {
        let ghost b = self.input@;
        while self.pos < self.input.len()
            invariant
                self.wf(),
                self.input@ == b,
                skip_ws(b, old(self)@) == skip_ws(b, self@),
            ensures
                self.wf(),
                self.input@ == b,
                skip_ws(b, old(self)@) == skip_ws(b, self@),
                skip_ws(b, self@) == self@,
            decreases b.len() - self.pos,
        {
            let ch = self.input[self.pos];
            if is_ws_byte(ch) {
                self.next_byte();
            } else if ch == 59 || (ch == 47 && self.pos + 1 < self.input.len() && self.input[self.pos + 1] == 47) {
                let ghost p0 = self@;
                proof { lemma_skip_comment(b, p0); }
                assert(skip_ws(b, p0) == skip_ws(b, skip_comment(b, p0)));
                while self.pos < self.input.len() && self.input[self.pos] != 10
                    invariant
                        self.wf(),
                        self.input@ == b,
                        skip_comment(b, p0) == skip_comment(b, self@),
                    decreases b.len() - self.pos,
                {
                    self.next_byte();
                }
                assert(skip_comment(b, self@) == self@);
            } else {
                assert(skip_ws(b, self@) == self@);
                break;
            }
        }
    }

    /// Scans a number literal whose digits start at the current position;
    /// `negative` when a `-` at (`start_line`, `start_col`) came before.
    fn lex_number(&mut self, start_line: usize, start_col: usize, negative: bool) -> (r: Result<Spanned<Token>, LexError>)
        requires
            old(self).wf(),
            old(self).pos < old(self).input@.len(),
            is_digit(old(self).input@[old(self).pos as int]),
        ensures
            final(self).wf(),
            final(self).input == old(self).input,
            ({
                let spec_r = number_token(
                    old(self).input@,
                    Pos { pos: 0, line: start_line as int, col: start_col as int },
                    old(self)@,
                    negative,
                );
                match spec_r {
                    Ok((t, after)) => r matches Ok(sp) && sp.value@ == t && sp.line == start_line
                        && sp.col == start_col && final(self)@ == after,
                    Err(f) => r matches Err(e) && e.line == f.line && e.col == f.col && e.message@ == f.message,
                }
            }),
    {
        let ghost b = self.input@;
        let ghost q = self@;
        proof {
            lemma_number_end(b, q.pos, false);
        }
        let mut num_str = String::new();
        if negative {
            push_char(&mut num_str, '-');
        }
        let mut has_dot = false;
        let mut mag: u64 = 0;
        let mut overflow = false;
        while self.pos < self.input.len()
            invariant
                self.wf(),
                self.input@ == b,
                0 <= q.pos <= self.pos <= b.len(),
                self.line == q.line,
                self.col == q.col + (self.pos - q.pos),
                number_end(b, q.pos, false) == number_end(b, self.pos as int, has_dot),
                num_str@ == (if negative { seq!['-'] } else { seq![] }) + chars(b, q.pos, self.pos as int),
                !has_dot ==> forall|j: int| q.pos <= j < self.pos ==> is_digit(#[trigger] b[j]),
                !has_dot && !overflow ==> mag == digits_value(b.subrange(q.pos, self.pos as int)),
                !has_dot && overflow ==> digits_value(b.subrange(q.pos, self.pos as int)) > u64::MAX,
            ensures
                self.wf(),
                self.input@ == b,
                0 <= q.pos <= self.pos <= b.len(),
                self.line == q.line,
                self.col == q.col + (self.pos - q.pos),
                number_end(b, q.pos, false) == (self.pos as int, has_dot),
                num_str@ == (if negative { seq!['-'] } else { seq![] }) + chars(b, q.pos, self.pos as int),
                !has_dot ==> forall|j: int| q.pos <= j < self.pos ==> is_digit(#[trigger] b[j]),
                !has_dot && !overflow ==> mag == digits_value(b.subrange(q.pos, self.pos as int)),
                !has_dot && overflow ==> digits_value(b.subrange(q.pos, self.pos as int)) > u64::MAX,
            decreases b.len() - self.pos,
        {
            let ch = self.input[self.pos];
            let ghost before = b.subrange(q.pos, self.pos as int);
            if is_digit_byte(ch) {
                assert(b.subrange(q.pos, self.pos as int + 1).drop_last() =~= before);
                if !has_dot {
                    proof {
                        lemma_digits_value_grows(b.subrange(q.pos, self.pos as int + 1));
                    }
                    if !overflow {
                        let d = (ch - 48) as u64;
                        match mag.checked_mul(10) {
                            Some(m10) => match m10.checked_add(d) {
                                Some(m) => { mag = m; }
                                None => { overflow = true; }
                            },
                            None => { overflow = true; }
                        }
                    }
                }
                push_char(&mut num_str, ch as char);
                self.next_byte();
                assert(chars(b, q.pos, self.pos as int) =~= chars(b, q.pos, self.pos as int - 1).push(ch as char));
            } else if ch == 46 && !has_dot {
                has_dot = true;
                push_char(&mut num_str, '.');
                self.next_byte();
                assert(chars(b, q.pos, self.pos as int) =~= chars(b, q.pos, self.pos as int - 1).push('.'));
            } else {
                break;
            }
        }
        let ghost e = self.pos as int;
        if has_dot {
            let r = Ok(Spanned { value: Token::Float(num_str), line: start_line, col: start_col });
            assert(num_str@ =~= (if negative { seq!['-'] + chars(b, q.pos, e) } else { chars(b, q.pos, e) }));
            return r;
        }
        let fits = if negative { !overflow && mag <= 0x8000_0000_0000_0000u64 } else { !overflow && mag <= 0x7FFF_FFFF_FFFF_FFFFu64 };
        if fits {
            let v: i64 = if negative {
                if mag == 0x8000_0000_0000_0000u64 { i64::MIN } else { -(mag as i64) }
            } else {
                mag as i64
            };
            Ok(Spanned { value: Token::Int(v), line: start_line, col: start_col })
        } else {
            let mut message = owned("Invalid int literal '");
            push_str(&mut message, num_str.as_str());
            if negative {
                push_str(&mut message, "': number too small to fit in target type");
            } else {
                push_str(&mut message, "': number too large to fit in target type");
            }
            Err(LexError { message, line: start_line, col: start_col })
        }
    }

    /// Scans a run of name characters into a string.
    fn scan_name(&mut self) -> (name: String)
        requires
            old(self).wf(),
        ensures
            final(self).wf(),
            final(self).input == old(self).input,
            old(self).pos <= name_end(old(self).input@, old(self).pos as int) <= old(self).input@.len(),
            name@ == chars(old(self).input@, old(self).pos as int, name_end(old(self).input@, old(self).pos as int)),
            final(self)@ == (Pos {
                pos: name_end(old(self).input@, old(self).pos as int),
                line: old(self).line as int,
                col: old(self).col + (name_end(old(self).input@, old(self).pos as int) - old(self).pos),
            }),
    {
        let ghost b = self.input@;
        let ghost q = self@;
        proof { lemma_name_end(b, q.pos); }
        let mut name = String::new();
        while self.pos < self.input.len()
            invariant
                self.wf(),
                self.input@ == b,
                0 <= q.pos <= self.pos <= name_end(b, q.pos),
                self.line == q.line,
                self.col == q.col + (self.pos - q.pos),
                name_end(b, q.pos) == name_end(b, self.pos as int),
                name@ == chars(b, q.pos, self.pos as int),
            ensures
                self.wf(),
                self.input@ == b,
                self.pos == name_end(b, q.pos),
                self.line == q.line,
                self.col == q.col + (self.pos - q.pos),
                name@ == chars(b, q.pos, self.pos as int),
            decreases b.len() - self.pos,
        {
            let ch = self.input[self.pos];
            proof { lemma_name_end(b, self.pos as int); }
            if is_name_byte(ch) {
                push_char(&mut name, ch as char);
                self.next_byte();
                assert(chars(b, q.pos, self.pos as int) =~= chars(b, q.pos, self.pos as int - 1).push(ch as char));
            } else {
                break;
            }
        }
        name
    }

    fn lex_word(&mut self, start_line: usize, start_col: usize) -> (r: Spanned<Token>)
        requires
            old(self).wf(),
            old(self).pos < old(self).input@.len(),
            start_line == old(self).line,
            start_col == old(self).col,
            is_alpha(old(self).input@[old(self).pos as int]) || old(self).input@[old(self).pos as int] == 95,
        ensures
            final(self).wf(),
            final(self).input == old(self).input,
            token_at(old(self).input@, old(self)@) matches Ok((t, after)) && r.value@ == t && final(self)@ == after,
            r.line == start_line,
            r.col == start_col,
    {
        let word = self.scan_name();
        let token = match keyword_lookup(word.as_str()) {
            Some(k) => keyword_token(k),
            None => Token::Ident(word),
        };
        Spanned { value: token, line: start_line, col: start_col }
    }

    fn lex_prefixed_name(&mut self, start_line: usize, start_col: usize, is_func: bool) -> (r: Result<Spanned<Token>, LexError>)
        requires
            old(self).wf(),
        ensures
            final(self).wf(),
            final(self).input == old(self).input,
            ({
                let b = old(self).input@;
                let e = name_end(b, old(self).pos as int);
                if e == old(self).pos {
                    r matches Err(err) && err.line == start_line && err.col == start_col
                        && err.message@ == "Expected identifier after prefix symbol"@
                } else {
                    r matches Ok(sp) && sp.line == start_line && sp.col == start_col
                        && sp.value@ == (if is_func { Tok::FuncName(chars(b, old(self).pos as int, e)) } else { Tok::ValueName(chars(b, old(self).pos as int, e)) })
                        && final(self)@ == (Pos { pos: e, line: old(self).line as int, col: old(self).col + (e - old(self).pos) })
                }
            }),
    {
        let name = self.scan_name();
        if name.as_str().is_empty() {
            return Err(LexError { message: owned("Expected identifier after prefix symbol"), line: start_line, col: start_col });
        }
        let token = if is_func { Token::FuncName(name) } else { Token::ValueName(name) };
        Ok(Spanned { value: token, line: start_line, col: start_col })
    }
    fn unexpected(message: &str, ch: u8, line: usize, col: usize) -> (e: LexError)
        ensures
            e.line == line,
            e.col == col,
            e.message@ == unexpected_message(message@, ch),
    {
        let mut m = owned(message);
        push_char(&mut m, ch as char);
        push_str(&mut m, "'");
        LexError { message: m, line, col }
    }

    /// Splits the rest of the input into tokens.
    pub fn tokenize(&mut self) -> (r: Result<Vec<Spanned<Token>>, LexError>)
        requires
            old(self).wf(),
        ensures
            final(self).wf(),
            final(self).input() == old(self).input(),
            match lex_from(old(self).input(), old(self)@) {
                Ok(ts) => r matches Ok(v) && spans_view(v@) == ts,
                Err(f) => r matches Err(e) && e.line == f.line && e.col == f.col && e.message@ == f.message,
            },
    {
        let ghost b = self.input@;
        let ghost start = self@;
        let mut tokens: Vec<Spanned<Token>> = Vec::new();
        loop
            invariant
                self.wf(),
                self.input@ == b,
                b == old(self).input@,
                start == old(self)@,
                lex_from(b, start) == prepend(spans_view(tokens@), lex_from(b, self@)),
            decreases b.len() - self.pos,
        {
            let ghost p = self@;
            proof { lemma_skip_ws(b, p); }
            self.skip_whitespace_and_comments();
            let ghost q = self@;
            let start_line = self.line;
            let start_col = self.col;
            if self.pos >= self.input.len() {
                assert(lex_from(b, p) == Ok::<Seq<(Tok, int, int)>, LexFault>(seq![]));
                assert(spans_view(tokens@) + seq![] =~= spans_view(tokens@));
                return Ok(tokens);
            }
            let ch = self.input[self.pos];
            let single: Option<Token> = if ch == 123 { Some(Token::LBrace) }
                else if ch == 125 { Some(Token::RBrace) }
                else if ch == 40 { Some(Token::LParen) }
                else if ch == 41 { Some(Token::RParen) }
                else if ch == 91 { Some(Token::LBracket) }
                else if ch == 93 { Some(Token::RBracket) }
                else if ch == 58 { Some(Token::Colon) }
                else if ch == 61 { Some(Token::Equal) }
                else if ch == 44 { Some(Token::Comma) }
                else { None };
            let sp: Spanned<Token> = match single {
                Some(t) => {
                    self.next_byte();
                    Spanned { value: t, line: start_line, col: start_col }
                }
                None => {
                    if ch == 45 {
                        self.next_byte();
                        match self.peek_byte() {
                            Some(62) => {
                                self.next_byte();
                                Spanned { value: Token::Arrow, line: start_line, col: start_col }
                            }
                            Some(next_ch) => {
                                if is_digit_byte(next_ch) {
                                    match self.lex_number(start_line, start_col, true) {
                                        Ok(t) => t,
                                        Err(e) => { return Err(e); }
                                    }
                                } else {
                                    return Err(Self::unexpected("Unexpected character after '-': '", next_ch, start_line, start_col));
                                }
                            }
                            None => {
                                return Err(LexError { message: owned("Unexpected end of input after '-'"), line: start_line, col: start_col });
                            }
                        }
                    } else if ch == 64 || ch == 37 {
                        self.next_byte();
                        match self.lex_prefixed_name(start_line, start_col, ch == 64) {
                            Ok(t) => t,
                            Err(e) => { return Err(e); }
                        }
                    } else if is_digit_byte(ch) {
                        match self.lex_number(start_line, start_col, false) {
                            Ok(t) => t,
                            Err(e) => { return Err(e); }
                        }
                    } else if is_alpha_byte(ch) || ch == 95 {
                        self.lex_word(start_line, start_col)
                    } else {
                        return Err(Self::unexpected("Unexpected character: '", ch, start_line, start_col));
                    }
                }
            };
            proof {
                let r = self@;
                assert(token_at(b, q) matches Ok((t, after)) && t == sp.value@ && after == r);
                if q.pos + 1 <= b.len() {
                    lemma_number_end(b, q.pos + 1, false);
                    lemma_name_end(b, q.pos + 1);
                }
                if q.pos + 2 <= b.len() {
                    lemma_number_end(b, q.pos + 2, false);
                    lemma_name_end(b, q.pos + 2);
                }
                assert(r.pos > q.pos && r.pos <= b.len());
                let ghost old_tokens = spans_view(tokens@);
            }
            let ghost old_view = spans_view(tokens@);
            tokens.push(sp);
            assert(spans_view(tokens@) =~= old_view.push((sp.value@, q.line, q.col)));
            assert(lex_from(b, p) == prepend(seq![(sp.value@, q.line, q.col)], lex_from(b, self@)));
            assert(prepend(old_view, prepend(seq![(sp.value@, q.line, q.col)], lex_from(b, self@)))
                == prepend(spans_view(tokens@), lex_from(b, self@))) by {
                match lex_from(b, self@) {
                    Ok(rest) => { assert(old_view + (seq![(sp.value@, q.line, q.col)] + rest) =~= spans_view(tokens@) + rest); }
                    Err(_) => {}
                }
            }
        }
    }
}


/// The keywords' kind numbers are their keyword numbers.
pub proof fn lemma_keyword_kind(t: Token)
    ensures
        kind_of(t) < 26 <==> t@ is Keyword,
        kind_of(t) < 26 ==> t@ == Tok::Keyword(kind_of(t) as int),
{
}

} // verus!

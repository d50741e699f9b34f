//! The parser of the textual IR.
use vstd::prelude::*;
use crate::arena::{Arena, Block, EntityId, Inst, Value};
use crate::function::{Function, ValueData, ValueDef};
use crate::inst::{CmpOp, Immediate, Instruction};
use crate::lexer::{tok_text, LexError, Lexer, Spanned, Tok, Token};
use crate::module::Module;
use crate::types::Type;
use crate::text::{owned, push_str, push_u64_digits, str_eq};
use vstd::string::StringSliceAdditionalSpecFns;

verus! {

/// A parsing error: a message and the line and column where it occurred.
#[derive(Clone, PartialEq, Eq, Debug)]
pub struct ParseError {
    pub message: String,
    pub line: usize,
    pub col: usize,
}

impl ParseError {
    /// The parse error that reports a lexing error.
    pub fn from_lex(e: LexError) -> (r: ParseError)
        ensures
            r.message == e.message,
            r.line == e.line,
            r.col == e.col,
    {
        ParseError { message: e.message, line: e.line, col: e.col }
    }

    /// The text of the error: its place and its message.
    pub open spec fn text(&self) -> Seq<char> {
        "Parse error at line "@ + crate::text::nat_digits(self.line as nat) + ", col "@
            + crate::text::nat_digits(self.col as nat) + ": "@ + self.message@
    }

    /// The error as the command-line driver prints it.
    pub fn to_string(&self) -> (r: String)
        ensures
            r@ == self.text(),
    {
        let mut r = owned("Parse error at line ");
        push_u64_digits(&mut r, self.line as u64);
        push_str(&mut r, ", col ");
        push_u64_digits(&mut r, self.col as u64);
        push_str(&mut r, ": ");
        push_str(&mut r, self.message.as_str());
        r
    }
}

/// The IEEE-754 double of each float literal that a text may hold, keyed by
/// the literal's decimal text. The library holds no floating-point number:
/// the caller that reads a text supplies these values.
pub struct FloatLiterals {
    pub entries: Vec<(String, u64)>,
}

/// The bit pattern that a table gives for a literal text: its first entry.
pub open spec fn float_bits_of(entries: Seq<(String, u64)>, text: Seq<char>) -> Option<u64>
    decreases entries.len(),
{
    if entries.len() == 0 {
        None
    } else if entries[0].0@ == text {
        Some(entries[0].1)
    } else {
        float_bits_of(entries.drop_first(), text)
    }
}

impl FloatLiterals {
    pub fn new() -> (r: Self)
        ensures
            r.entries@.len() == 0,
    {
        FloatLiterals { entries: Vec::new() }
    }

    /// The bit pattern recorded for a literal text.
    pub fn lookup(&self, text: &str) -> (r: Option<u64>)
        ensures
            r == float_bits_of(self.entries@, text@),
    {
        let mut i: usize = 0;
        assert(self.entries@.subrange(0, self.entries@.len() as int) =~= self.entries@);
        while i < self.entries.len()
            invariant
                i <= self.entries@.len(),
                float_bits_of(self.entries@, text@) == float_bits_of(self.entries@.subrange(i as int, self.entries@.len() as int), text@),
            decreases self.entries@.len() - i,
        {
            let ghost rest = self.entries@.subrange(i as int, self.entries@.len() as int);
            assert(rest.drop_first() =~= self.entries@.subrange(i as int + 1, self.entries@.len() as int));
            if str_eq(self.entries[i].0.as_str(), text) {
                return Some(self.entries[i].1);
            }
            i = i + 1;
        }
        None
    }
}

// ---------------------------------------------------------------------------
// Well-formed functions

/// The blocks that an instruction refers to.
pub open spec fn inst_blocks(inst: Instruction) -> Seq<Block> {
    match inst {
        Instruction::Jmp(b) => seq![b],
        Instruction::Br(_, t, f) => seq![t, f],
        Instruction::Phi(pairs) => pairs@.map_values(|p: (Block, Value)| p.0),
        _ => seq![],
    }
}

/// Every value and block that an instruction refers to exists.
pub open spec fn inst_refs_in(inst: Instruction, nvalues: int, nblocks: int) -> bool {
    &&& forall|k: int| 0 <= k < inst.operands().len() ==> (#[trigger] inst.operands()[k]).0 < nvalues
    &&& forall|k: int| 0 <= k < inst_blocks(inst).len() ==> (#[trigger] inst_blocks(inst)[k]).0 < nblocks
}

impl Function {
    /// A function whose every reference resolves: it is well-formed, each
    /// instruction's operands and target blocks exist, and each parameter
    /// value names an existing parameter.
    pub open spec fn closed(&self) -> bool {
        &&& self.wf()
        &&& (forall|i: int| 0 <= i < self.insts@.len() ==>
                inst_refs_in(#[trigger] self.insts@[i], self.values@.len() as int, self.blocks@.len() as int))
        &&& (forall|v: int| 0 <= v < self.values@.len() ==>
                ((#[trigger] self.values@[v]).def matches ValueDef::Param(k) ==> k < self.params@.len()))
    }
}

/// Every function of a parsed module is closed.
pub open spec fn module_closed(m: &Module) -> bool {
    &&& m.functions@.len() <= u32::MAX
    &&& forall|i: int| 0 <= i < m.functions@.len() ==> (#[trigger] m.functions@[i]).closed()
}

/// A function that is closed but for value references not yet defined:
/// those values are marked as parameter `usize::MAX`.
pub open spec fn open_ok(f: &Function) -> bool {
    &&& f.wf()
    &&& (forall|i: int| 0 <= i < f.insts@.len() ==>
            inst_refs_in(#[trigger] f.insts@[i], f.values@.len() as int, f.blocks@.len() as int))
    &&& (forall|v: int| 0 <= v < f.values@.len() ==>
            ((#[trigger] f.values@[v]).def matches ValueDef::Param(k) ==> k < f.params@.len() || k == usize::MAX))
}

pub open spec fn vals_in(vm: Seq<(String, Value)>, n: int) -> bool {
    forall|i: int| 0 <= i < vm.len() ==> (#[trigger] vm[i]).1.0 < n
}

pub open spec fn blocks_in(bm: Seq<(String, Block)>, n: int) -> bool {
    forall|i: int| 0 <= i < bm.len() ==> (#[trigger] bm[i]).1.0 < n
}

/// `g` is `f` with more values appended, and nothing else changed.
pub open spec fn only_values_grew(f: &Function, g: &Function) -> bool {
    &&& g.name == f.name
    &&& g.params == f.params
    &&& g.return_type == f.return_type
    &&& g.blocks@ == f.blocks@
    &&& g.insts@ == f.insts@
    &&& g.entry_block == f.entry_block
    &&& g.values@.len() >= f.values@.len()
    &&& forall|v: int| 0 <= v < f.values@.len() ==> #[trigger] g.values@[v] == f.values@[v]
    &&& forall|v: int| f.values@.len() <= v < g.values@.len() ==> (#[trigger] g.values@[v]).def == ValueDef::Param(usize::MAX)
}

/// The parser of the textual IR, over a slice of tokens.
pub struct Parser<'a> {
    tokens: &'a [Spanned<Token>],
    pos: usize,
    floats: &'a FloatLiterals,
}

impl<'a> Parser<'a> {
    pub closed spec fn wf(&self) -> bool {
        &&& self.pos <= self.tokens@.len()
        &&& self.tokens@.len() < usize::MAX
    }

    pub closed spec fn tokens(&self) -> Seq<Spanned<Token>> {
        self.tokens@
    }

    /// The index of the next token.
    pub closed spec fn position(&self) -> int {
        self.pos as int
    }

    /// The float literal table the parser reads with.
    pub closed spec fn float_table(&self) -> Seq<(String, u64)> {
        self.floats.entries@
    }

    pub fn new(tokens: &'a [Spanned<Token>], floats: &'a FloatLiterals) -> (p: Self)
        requires
            tokens@.len() < usize::MAX,
        ensures
            p.wf(),
            p.tokens() == tokens@,
            p.position() == 0,
            p.float_table() == floats.entries@,
    {
        Parser { tokens, pos: 0, floats }
    }

    fn peek(&self) -> (r: Option<&'a Spanned<Token>>)
        requires
            self.wf(),
        ensures
            self.pos < self.tokens@.len() ==> r == Some(&self.tokens@[self.pos as int]),
            self.pos >= self.tokens@.len() ==> r is None,
    {
        if self.pos < self.tokens.len() {
            Some(&self.tokens[self.pos])
        } else {
            None
        }
    }

    fn next_token(&mut self) -> (r: Option<&'a Spanned<Token>>)
        requires
            old(self).wf(),
        ensures
            final(self).wf(),
            final(self).tokens == old(self).tokens,
            final(self).floats == old(self).floats,
            old(self).pos < old(self).tokens@.len() ==> r == Some(&old(self).tokens@[old(self).pos as int])
                && final(self).pos == old(self).pos + 1,
            old(self).pos >= old(self).tokens@.len() ==> r is None && final(self).pos == old(self).pos,
    {
        if self.pos < self.tokens.len() {
            let t = &self.tokens[self.pos];
            self.pos = self.pos + 1;
            Some(t)
        } else {
            None
        }
    }

    fn peek_is(&self, t: &Token) -> (r: bool)
        requires
            self.wf(),
        ensures
            r == (self.pos < self.tokens@.len() && self.tokens@[self.pos as int].value@ == t@),
    {
        match self.peek() {
            Some(tok) => tok.value.same(t),
            None => false,
        }
    }

    /// Where an error found now is reported: the line and column of the next
    /// token, or of the last token at the end of the input, or the start of
    /// the text when there are no tokens.
    pub closed spec fn span(&self) -> (usize, usize) {
        if self.pos < self.tokens@.len() {
            (self.tokens@[self.pos as int].line, self.tokens@[self.pos as int].col)
        } else if self.tokens@.len() > 0 {
            (self.tokens@.last().line, self.tokens@.last().col)
        } else {
            (1, 1)
        }
    }

    fn current_span(&self) -> (r: (usize, usize))
        requires
            self.wf(),
        ensures
            r == self.span(),
    {
        if self.pos < self.tokens.len() {
            (self.tokens[self.pos].line, self.tokens[self.pos].col)
        } else if self.tokens.len() > 0 {
            let last = &self.tokens[self.tokens.len() - 1];
            (last.line, last.col)
        } else {
            (1, 1)
        }
    }

    fn error(&self, message: String) -> (e: ParseError)
        requires
            self.wf(),
        ensures
            e.message == message,
            (e.line, e.col) == self.span(),
    {
        let (line, col) = self.current_span();
        ParseError { message, line, col }
    }

    fn found(prefix: &str, tok: &Token) -> (m: String)
        ensures
            m@ == prefix@ + tok_text(tok@) + "'"@,
    {
        let mut m = owned(prefix);
        let t = tok.to_string();
        push_str(&mut m, t.as_str());
        push_str(&mut m, "'");
        m
    }

    fn expect_token(&mut self, expected: Token) -> (r: Result<(), ParseError>)
        requires
            old(self).wf(),
        ensures
            final(self).wf(),
            final(self).tokens == old(self).tokens,
            final(self).floats == old(self).floats,
            final(self).pos >= old(self).pos,
            r is Ok <==> (old(self).pos < old(self).tokens@.len() && old(self).tokens@[old(self).pos as int].value@ == expected@),
            r is Ok ==> final(self).pos == old(self).pos + 1,
    {
        let (line, col) = self.current_span();
        match self.next_token() {
            Some(tok) => {
                if tok.value.same(&expected) {
                    Ok(())
                } else {
                    let mut m = owned("Expected '");
                    let e = expected.to_string();
                    push_str(&mut m, e.as_str());
                    push_str(&mut m, "', found '");
                    let f = tok.value.to_string();
                    push_str(&mut m, f.as_str());
                    push_str(&mut m, "'");
                    Err(ParseError { message: m, line: tok.line, col: tok.col })
                }
            }
            None => {
                let mut m = owned("Expected '");
                let e = expected.to_string();
                push_str(&mut m, e.as_str());
                push_str(&mut m, "', found end of file");
                Err(ParseError { message: m, line, col })
            }
        }
    }

    /// Takes the next token when it is an identifier, a `@name` or a `%name`
    /// (`kind` 0, 1 or 2), and returns its text.
    fn expect_named(&mut self, kind: u8) -> (r: Result<String, ParseError>)
        requires
            old(self).wf(),
        ensures
            final(self).wf(),
            final(self).tokens == old(self).tokens,
            final(self).floats == old(self).floats,
            final(self).pos >= old(self).pos,
            r is Ok ==> final(self).pos == old(self).pos + 1,
            r matches Ok(s) ==> old(self).pos < old(self).tokens@.len() && (match old(self).tokens@[old(self).pos as int].value {
                Token::Ident(t) => kind == 0 && t@ == s@,
                Token::FuncName(t) => kind == 1 && t@ == s@,
                Token::ValueName(t) => kind == 2 && t@ == s@,
                _ => false,
            }),
            r is Err ==> !(old(self).pos < old(self).tokens@.len() && (match old(self).tokens@[old(self).pos as int].value {
                Token::Ident(_) => kind == 0,
                Token::FuncName(_) => kind == 1,
                Token::ValueName(_) => kind == 2,
                _ => false,
            })),
    {
        let what = if kind == 0 { "identifier" } else if kind == 1 { "@func_name" } else { "%value_name" };
        let (line, col) = self.current_span();
        match self.next_token() {
            Some(tok) => {
                match &tok.value {
                    Token::Ident(s) => if kind == 0 { return Ok(s.clone()); },
                    Token::FuncName(s) => if kind == 1 { return Ok(s.clone()); },
                    Token::ValueName(s) => if kind == 2 { return Ok(s.clone()); },
                    _ => {},
                }
                let mut m = owned("Expected ");
                push_str(&mut m, what);
                push_str(&mut m, ", found '");
                let f = tok.value.to_string();
                push_str(&mut m, f.as_str());
                push_str(&mut m, "'");
                Err(ParseError { message: m, line: tok.line, col: tok.col })
            }
            None => {
                let mut m = owned("Expected ");
                push_str(&mut m, what);
                push_str(&mut m, ", found end of file");
                Err(ParseError { message: m, line, col })
            }
        }
    }

    fn parse_type(&mut self) -> (r: Result<Type, ParseError>)
        requires
            old(self).wf(),
        ensures
            final(self).wf(),
            final(self).tokens == old(self).tokens,
            final(self).floats == old(self).floats,
            final(self).pos >= old(self).pos,
            r is Ok ==> final(self).pos == old(self).pos + 1,
            r matches Ok(t) ==> old(self).pos < old(self).tokens@.len()
                && (old(self).tokens@[old(self).pos as int].value matches Token::Ident(s) && s@ == t.name()),
            match sp_type(toks_of(old(self).tokens@), (old(self).pos as int, seq![], seq![])) {
                Some((t, _)) => r == Ok::<Type, ParseError>(t),
                None => r is Err,
            },
    {
        let ghost toks = toks_of(self.tokens@);
        let ghost p = self.pos as int;
        let ident = self.expect_named(0)?;
        match Type::from_str(ident.as_str()) {
            Ok(t) => {
                proof {
                    assert(toks[p] == self.tokens@[p].value@);
                    let c = choose|c: Type| c.name() == toks[p]->Ident_0;
                    crate::types::lemma_type_name_round_trip(t, c);
                }
                Ok(t)
            }
            Err(e) => {
                assert(toks[p] == self.tokens@[p].value@);
                Err(self.error(e))
            }
        }
    }

    fn parse_comparison(&mut self) -> (r: Result<CmpOp, ParseError>)
        requires
            old(self).wf(),
        ensures
            final(self).wf(),
            final(self).tokens == old(self).tokens,
            final(self).floats == old(self).floats,
            final(self).pos >= old(self).pos,
            r is Ok ==> final(self).pos == old(self).pos + 1,
            match sp_comparison(toks_of(old(self).tokens@), (old(self).pos as int, seq![], seq![])) {
                Some((op, _)) => r == Ok::<CmpOp, ParseError>(op),
                None => r is Err,
            },
    {
        let ghost toks = toks_of(self.tokens@);
        let ghost p = self.pos as int;
        let ident = self.expect_named(0)?;
        match CmpOp::from_str(ident.as_str()) {
            Ok(op) => {
                proof {
                    assert(toks[p] == self.tokens@[p].value@);
                    let c = choose|c: CmpOp| c.name() == toks[p]->Ident_0;
                    crate::inst::lemma_operator_name_round_trip(op, c);
                }
                Ok(op)
            }
            Err(e) => {
                assert(toks[p] == self.tokens@[p].value@);
                Err(self.error(e))
            }
        }
    }
}

fn find_index<T>(map: &Vec<(String, T)>, name: &str) -> (r: Option<usize>)
    ensures
        r matches Some(k) ==> k == first_index(names_of(map@), name@) && k < map@.len(),
        first_index(names_of(map@), name@) >= 0 ==> r == Some(first_index(names_of(map@), name@) as usize),
        first_index(names_of(map@), name@) < 0 ==> r is None,
{
    let ghost m = names_of(map@);
    let mut i: usize = 0;
    while i < map.len()
        invariant
            i <= map@.len(),
            m == names_of(map@),
            forall|j: int| 0 <= j < i ==> map@[j].0@ != name@,
        decreases map@.len() - i,
    {
        if str_eq(map[i].0.as_str(), name) {
            proof {
                assert forall|j: int| 0 <= j < i implies (#[trigger] m[j]).0 != name@ by {
                    assert(m[j].0 == map@[j].0@);
                }
                lemma_first_index(m, name@, i as int);
            }
            return Some(i);
        }
        i = i + 1;
    }
    proof {
        assert forall|j: int| 0 <= j < m.len() implies (#[trigger] m[j]).0 != name@ by {
            assert(m[j].0 == map@[j].0@);
        }
        lemma_no_index(m, name@);
    }
    None
}

fn find_name<T: Copy>(map: &Vec<(String, T)>, name: &str) -> (r: Option<T>)
    ensures
        first_index(names_of(map@), name@) >= 0 ==> r == Some(map@[first_index(names_of(map@), name@)].1),
        first_index(names_of(map@), name@) < 0 ==> r is None,
        r matches Some(v) ==> exists|i: int| 0 <= i < map@.len() && map@[i].1 == v && map@[i].0@ == name@,
        r is None ==> forall|i: int| 0 <= i < map@.len() ==> map@[i].0@ != name@,
{
    let ghost m = names_of(map@);
    let mut i: usize = 0;
    while i < map.len()
        invariant
            i <= map@.len(),
            m == names_of(map@),
            forall|j: int| 0 <= j < i ==> map@[j].0@ != name@,
        decreases map@.len() - i,
    {
        if str_eq(map[i].0.as_str(), name) {
            proof {
                assert forall|j: int| 0 <= j < i implies (#[trigger] m[j]).0 != name@ by {
                    assert(m[j].0 == map@[j].0@);
                }
                lemma_first_index(m, name@, i as int);
            }
            return Some(map[i].1);
        }
        i = i + 1;
    }
    proof {
        assert forall|j: int| 0 <= j < m.len() implies (#[trigger] m[j]).0 != name@ by {
            assert(m[j].0 == map@[j].0@);
        }
        lemma_no_index(m, name@);
    }
    None
}

/// The value named `name`, created as an undefined placeholder when it is new.
fn get_or_create_val(func: &mut Function, val_map: &mut Vec<(String, Value)>, name: &str) -> (v: Value)
    requires
        old(func).values@.len() < u32::MAX,
        vals_in(old(val_map)@, old(func).values@.len() as int),
    ensures
        only_values_grew(old(func), final(func)),
        final(func).values@.len() <= old(func).values@.len() + 1,
        vals_in(final(val_map)@, final(func).values@.len() as int),
        v.0 < final(func).values@.len(),
        ({
            let k = first_index(names_of(old(val_map)@), name@);
            &&& k >= 0 ==> v == old(val_map)@[k].1 && final(val_map)@ == old(val_map)@ && final(func).values@ == old(func).values@
            &&& k < 0 ==> v == Value(old(func).values@.len() as u32)
                && names_of(final(val_map)@) == names_of(old(val_map)@).push((name@, v))
                && final(func).values@.len() == old(func).values@.len() + 1
                && values_view(final(func).values@) == values_view(old(func).values@).push(placeholder(name@))
        }),
{
    match find_name(val_map, name) {
        Some(v) => v,
        None => {
            let v = func.values.push(ValueData { ty: Type::Void, def: ValueDef::Param(usize::MAX), name: Some(owned(name)) });
            val_map.push((owned(name), v));
            proof {
                assert forall|i: int| 0 <= i < val_map@.len() implies (#[trigger] val_map@[i]).1.0 < func.values@.len() by {
                    if i < old(val_map)@.len() {
                        assert(val_map@[i] == old(val_map)@[i]);
                    }
                }
                assert(names_of(val_map@) =~= names_of(old(val_map)@).push((name@, v)));
                let k = old(val_map)@.len() as int;
                assert(names_of(val_map@)[k] == (name@, v));
            }
            v
        }
    }
}

/// The ways in which `parse_instruction` may change the function it adds to.
pub open spec fn inst_step(f: &Function, g: &Function, vm: Seq<(String, Value)>, vm2: Seq<(String, Value)>) -> bool {
    &&& only_values_grew(f, g)
    &&& g.values@.len() < u32::MAX
    &&& vals_in(vm2, g.values@.len() as int)
}

impl<'a> Parser<'a> {
    fn parse_value_ref(&mut self, func: &mut Function, val_map: &mut Vec<(String, Value)>) -> (r: Result<Value, ParseError>)
        requires
            old(self).wf(),
            old(func).values@.len() < u32::MAX,
            vals_in(old(val_map)@, old(func).values@.len() as int),
        ensures
            final(self).wf(),
            final(self).tokens == old(self).tokens,
            final(self).floats == old(self).floats,
            final(self).pos >= old(self).pos,
            only_values_grew(old(func), final(func)),
            final(func).values@.len() <= old(func).values@.len() + 1,
            vals_in(final(val_map)@, final(func).values@.len() as int),
            r matches Ok(v) ==> v.0 < final(func).values@.len(),
            old(func).values@.len() < value_limit() ==> value_read(toks_of(old(self).tokens@), old(self).pos as int, old(val_map)@,
                old(func).values@, r, final(self).pos as int, final(val_map)@, final(func).values@),
    {
        let ghost toks = toks_of(self.tokens@);
        let ghost p = self.pos as int;
        proof {
            if p < self.tokens@.len() {
                assert(toks[p] == self.tokens@[p].value@);
            }
        }
        let name = self.expect_named(2)?;
        let v = get_or_create_val(func, val_map, name.as_str());
        proof {
            let k = first_index(names_of(old(val_map)@), name@);
            if k >= 0 {
                assert(names_of(old(val_map)@)[k].1 == old(val_map)@[k].1);
            }
        }
        Ok(v)
    }

    /// A value reference, refused when the function cannot hold another value.
    fn value_ref(&mut self, func: &mut Function, val_map: &mut Vec<(String, Value)>) -> (r: Result<Value, ParseError>)
        requires
            old(self).wf(),
            vals_in(old(val_map)@, old(func).values@.len() as int),
        ensures
            final(self).wf(),
            final(self).tokens == old(self).tokens,
            final(self).floats == old(self).floats,
            final(self).pos >= old(self).pos,
            only_values_grew(old(func), final(func)),
            final(func).values@.len() < u32::MAX || final(func).values@ == old(func).values@,
            vals_in(final(val_map)@, final(func).values@.len() as int),
            r matches Ok(v) ==> v.0 < final(func).values@.len() && final(func).values@.len() < u32::MAX,
            value_read(toks_of(old(self).tokens@), old(self).pos as int, old(val_map)@,
                old(func).values@, r, final(self).pos as int, final(val_map)@, final(func).values@),
    {
        if func.values.len() >= 4294967294 {
            let e = self.error(owned("Too many SSA values in one function"));
            return Err(e);
        }
        self.parse_value_ref(func, val_map)
    }

    fn parse_block_ref(&mut self, block_map: &Vec<(String, Block)>) -> (r: Result<Block, ParseError>)
        requires
            old(self).wf(),
        ensures
            final(self).wf(),
            final(self).tokens == old(self).tokens,
            final(self).floats == old(self).floats,
            final(self).pos >= old(self).pos,
            r matches Ok(b) ==> exists|i: int| 0 <= i < block_map@.len() && block_map@[i].1 == b,
            match sp_block(toks_of(old(self).tokens@), (old(self).pos as int, seq![], seq![]), names_of(block_map@)) {
                Some((b, st)) => r == Ok::<Block, ParseError>(b) && final(self).pos == st.0,
                None => r is Err,
            },
    {
        let ghost toks = toks_of(self.tokens@);
        let ghost p = self.pos as int;
        proof {
            if p < self.tokens@.len() {
                assert(toks[p] == self.tokens@[p].value@);
            }
        }
        let tok = match self.next_token() {
            Some(t) => t,
            None => {
                let e = self.error(owned("Expected block name, found end of file"));
                return Err(e);
            }
        };
        let name = match &tok.value {
            Token::Ident(s) => s.clone(),
            other => other.to_string(),
        };
        assert(name@ == block_name_of(toks[p]));
        match find_name(block_map, name.as_str()) {
            Some(b) => {
                proof {
                    let k = first_index(names_of(block_map@), name@);
                    assert(names_of(block_map@)[k].1 == block_map@[k].1);
                }
                Ok(b)
            }
            None => {
                let mut m = owned("Unknown basic block reference: '");
                push_str(&mut m, name.as_str());
                push_str(&mut m, "'");
                Err(ParseError { message: m, line: tok.line, col: tok.col })
            }
        }
    }

    /// The two operands of a binary instruction: `%a, %b`.
    fn parse_binary_op(&mut self, func: &mut Function, val_map: &mut Vec<(String, Value)>) -> (r: Result<(Value, Value), ParseError>)
        requires
            old(self).wf(),
            vals_in(old(val_map)@, old(func).values@.len() as int),
            old(func).values@.len() < u32::MAX,
        ensures
            final(self).wf(),
            final(self).tokens == old(self).tokens,
            final(self).floats == old(self).floats,
            final(self).pos >= old(self).pos,
            inst_step(old(func), final(func), old(val_map)@, final(val_map)@),
            r matches Ok((a, b)) ==> a.0 < final(func).values@.len() && b.0 < final(func).values@.len(),
            match sp_pair(toks_of(old(self).tokens@), (old(self).pos as int, names_of(old(val_map)@), values_view(old(func).values@))) {
                Some((a, b, st)) => r == Ok::<(Value, Value), ParseError>((a, b)) && final(self).pos == st.0
                    && names_of(final(val_map)@) == st.1 && values_view(final(func).values@) == st.2
                   ,
                None => r is Err,
            },
    {
        let ghost toks = toks_of(self.tokens@);
        let a = self.value_ref(func, val_map)?;
        let ghost p1 = self.pos as int;
        let ghost f1 = *func;
        let ghost vm1 = *val_map;
        proof {
            if p1 < self.tokens@.len() {
                assert(toks[p1] == self.tokens@[p1].value@);
            }
        }
        self.expect_token(Token::Comma)?;
        let b = self.value_ref(func, val_map)?;
        Ok((a, b))
    }

    fn int_operand(&mut self, what: &str) -> (r: Result<i64, ParseError>)
        requires
            old(self).wf(),
        ensures
            final(self).wf(),
            final(self).tokens == old(self).tokens,
            final(self).floats == old(self).floats,
            final(self).pos >= old(self).pos,
            match sp_int(toks_of(old(self).tokens@), (old(self).pos as int, seq![], seq![])) {
                Some((i, st)) => r == Ok::<i64, ParseError>(i) && final(self).pos == st.0,
                None => r is Err,
            },
    {
        let ghost toks = toks_of(self.tokens@);
        let ghost p = self.pos as int;
        proof {
            if p < self.tokens@.len() {
                assert(toks[p] == self.tokens@[p].value@);
            }
        }
        let tok = match self.next_token() {
            Some(t) => t,
            None => {
                let mut m = owned("Expected ");
                push_str(&mut m, what);
                let e = self.error(m);
                return Err(e);
            }
        };
        match &tok.value {
            Token::Int(i) => Ok(*i),
            _ => {
                let mut m = owned("Expected integer ");
                push_str(&mut m, what);
                let e = self.error(m);
                Err(e)
            }
        }
    }

    /// The arguments of a call, up to its closing parenthesis.
    fn parse_call_args(&mut self, func: &mut Function, val_map: &mut Vec<(String, Value)>) -> (r: Result<Vec<Value>, ParseError>)
        requires
            old(self).wf(),
            old(func).values@.len() < u32::MAX,
            vals_in(old(val_map)@, old(func).values@.len() as int),
        ensures
            final(self).wf(),
            final(self).tokens == old(self).tokens,
            final(self).floats == old(self).floats,
            final(self).pos >= old(self).pos,
            inst_step(old(func), final(func), old(val_map)@, final(val_map)@),
            r matches Ok(args) ==> forall|k: int| 0 <= k < args@.len() ==> (#[trigger] args@[k]).0 < final(func).values@.len(),
            match sp_args(toks_of(old(self).tokens@), (old(self).pos as int, names_of(old(val_map)@), values_view(old(func).values@)), seq![]) {
                Some((args, st)) => r matches Ok(a) && a@ == args && final(self).pos == st.0 && names_of(final(val_map)@) == st.1
                    && values_view(final(func).values@) == st.2,
                None => r is Err,
            },
    {
        let ghost toks = toks_of(self.tokens@);
        let ghost st0: PState = (self.pos as int, names_of(val_map@), values_view(func.values@));
        let mut args: Vec<Value> = Vec::new();
        let mut done = false;
        assert(names_of(val_map@) =~= names_of(old(val_map)@));
        while !done && self.pos < self.tokens.len()
            invariant
                self.wf(),
                self.tokens == old(self).tokens,
                self.floats == old(self).floats,
                self.pos >= old(self).pos,
                toks == toks_of(self.tokens@),
                st0 == (old(self).pos as int, names_of(old(val_map)@), values_view(old(func).values@)),
                inst_step(old(func), func, old(val_map)@, val_map@),
                forall|k: int| 0 <= k < args@.len() ==> (#[trigger] args@[k]).0 < func.values@.len(),
                names_of(val_map@).len() >= old(val_map)@.len(),
                forall|k: int| 0 <= k < old(val_map)@.len() ==> #[trigger] names_of(val_map@)[k] == names_of(old(val_map)@)[k],
                sp_args(toks, st0, seq![]) == (if done {
                    Some((args@, (self.pos as int, names_of(val_map@), values_view(func.values@))))
                } else {
                    sp_args(toks, (self.pos as int, names_of(val_map@), values_view(func.values@)), args@)
                }),
            decreases self.tokens@.len() - self.pos, if done { 0int } else { 1int },
        {
            let ghost cur: PState = (self.pos as int, names_of(val_map@), values_view(func.values@));
            let ghost p = self.pos as int;
            assert(toks[p] == self.tokens@[p].value@);
            if self.peek_is(&Token::RParen) {
                done = true;
            } else {
                let ghost f0 = *func;
                let ghost vm0 = *val_map;
                let a = match self.value_ref(func, val_map) {
                    Ok(a) => a,
                    Err(e) => {
                        assert(sp_value(toks, cur) is None);
                        assert(sp_args(toks, cur, args@) is None);
                        assert(sp_args(toks, st0, seq![]) is None);
                        return Err(e);
                    }
                };
                proof {
                    lemma_value_extends(toks, cur);
                }
                args.push(a);
                let ghost p1 = self.pos as int;
                proof {
                    if p1 < self.tokens@.len() {
                        assert(toks[p1] == self.tokens@[p1].value@);
                    }
                }
                if self.peek_is(&Token::Comma) {
                    self.next_token();
                } else {
                    done = true;
                }
            }
        }
        Ok(args)
    }

    /// The incoming pairs of a phi.
    fn parse_phi_pairs(
        &mut self,
        func: &mut Function,
        val_map: &mut Vec<(String, Value)>,
        block_map: &Vec<(String, Block)>,
    ) -> (r: Result<Vec<(Block, Value)>, ParseError>)
        requires
            old(self).wf(),
            old(func).values@.len() < u32::MAX,
            vals_in(old(val_map)@, old(func).values@.len() as int),
            blocks_in(block_map@, old(func).blocks@.len() as int),
        ensures
            final(self).wf(),
            final(self).tokens == old(self).tokens,
            final(self).floats == old(self).floats,
            final(self).pos >= old(self).pos,
            inst_step(old(func), final(func), old(val_map)@, final(val_map)@),
            r matches Ok(pairs) ==> forall|k: int| 0 <= k < pairs@.len() ==> (#[trigger] pairs@[k]).1.0 < final(func).values@.len()
                && pairs@[k].0.0 < final(func).blocks@.len(),
            match sp_pairs(toks_of(old(self).tokens@), (old(self).pos as int, names_of(old(val_map)@), values_view(old(func).values@)),
                names_of(block_map@), seq![]) {
                Some((ps, st)) => r matches Ok(a) && a@ == ps && final(self).pos == st.0 && names_of(final(val_map)@) == st.1
                    && values_view(final(func).values@) == st.2,
                None => r is Err,
            },
    {
        let ghost toks = toks_of(self.tokens@);
        let ghost bm = names_of(block_map@);
        let ghost st0: PState = (self.pos as int, names_of(val_map@), values_view(func.values@));
        let mut pairs: Vec<(Block, Value)> = Vec::new();
        let mut done = false;
        assert(names_of(val_map@) =~= names_of(old(val_map)@));
        while !done && self.pos < self.tokens.len()
            invariant
                self.wf(),
                self.tokens == old(self).tokens,
                self.floats == old(self).floats,
                self.pos >= old(self).pos,
                toks == toks_of(self.tokens@),
                st0 == (old(self).pos as int, names_of(old(val_map)@), values_view(old(func).values@)),
                bm == names_of(block_map@),
                inst_step(old(func), func, old(val_map)@, val_map@),
                blocks_in(block_map@, func.blocks@.len() as int),
                forall|k: int| 0 <= k < pairs@.len() ==> (#[trigger] pairs@[k]).1.0 < func.values@.len()
                    && pairs@[k].0.0 < func.blocks@.len(),
                names_of(val_map@).len() >= old(val_map)@.len(),
                forall|k: int| 0 <= k < old(val_map)@.len() ==> #[trigger] names_of(val_map@)[k] == names_of(old(val_map)@)[k],
                sp_pairs(toks, st0, bm, seq![]) == (if done {
                    Some((pairs@, (self.pos as int, names_of(val_map@), values_view(func.values@))))
                } else {
                    sp_pairs(toks, (self.pos as int, names_of(val_map@), values_view(func.values@)), bm, pairs@)
                }),
            decreases self.tokens@.len() - self.pos, if done { 0int } else { 1int },
        {
            let ghost cur: PState = (self.pos as int, names_of(val_map@), values_view(func.values@));
            let ghost p = self.pos as int;
            assert(toks[p] == self.tokens@[p].value@);
            if !self.peek_is(&Token::LBracket) {
                done = true;
            } else {
                self.next_token();
                let ghost s0: PState = (p + 1, cur.1, cur.2);
                let ghost f0 = *func;
                let ghost vm0 = *val_map;
                let val = match self.value_ref(func, val_map) {
                    Ok(v) => v,
                    Err(e) => {
                        assert(sp_value(toks, s0) is None);
                        assert(sp_pairs(toks, cur, bm, pairs@) is None);
                        return Err(e);
                    }
                };
                let ghost s1: PState = (self.pos as int, names_of(val_map@), values_view(func.values@));
                proof {
                    lemma_value_extends(toks, s0);
                    assert(sp_value(toks, s0) == Some((val, s1)));
                    if s1.0 < self.tokens@.len() {
                        assert(toks[s1.0] == self.tokens@[s1.0].value@);
                    }
                }
                match self.expect_token(Token::Comma) {
                    Ok(()) => {}
                    Err(e) => {
                        assert(sp_expect(toks, s1, Tok::Punct(8)) is None);
                        assert(sp_pairs(toks, cur, bm, pairs@) is None);
                        return Err(e);
                    }
                }
                let ghost s2: PState = (s1.0 + 1, s1.1, s1.2);
                assert(sp_expect(toks, s1, Tok::Punct(8)) == Some(s2));
                assert(self.pos as int == s2.0);
                assert(toks_of(self.tokens@) == toks);
                let blk = match self.parse_block_ref(block_map) {
                    Ok(b) => b,
                    Err(e) => {
                        assert(sp_block(toks, (s2.0, Seq::<(Seq<char>, Value)>::empty(), Seq::<VView>::empty()), bm) is None);
                        assert(sp_block(toks, s2, bm) is None);
                        assert(sp_pairs(toks, cur, bm, pairs@) is None);
                        return Err(e);
                    }
                };
                let ghost s3: PState = (s2.0 + 1, s2.1, s2.2);
                proof {
                    assert(sp_block(toks, (s2.0, Seq::<(Seq<char>, Value)>::empty(), Seq::<VView>::empty()), bm) matches Some((b, _)) && b == blk);
                    assert(sp_block(toks, s2, bm) == Some((blk, s3)));
                    if s3.0 < self.tokens@.len() {
                        assert(toks[s3.0] == self.tokens@[s3.0].value@);
                    }
                }
                match self.expect_token(Token::RBracket) {
                    Ok(()) => {}
                    Err(e) => {
                        assert(sp_expect(toks, s3, Tok::Punct(5)) is None);
                        assert(sp_pairs(toks, cur, bm, pairs@) is None);
                        return Err(e);
                    }
                }
                let ghost s4: PState = (s3.0 + 1, s3.1, s3.2);
                proof {
                    let k = first_index(bm, block_name_of(toks[s2.0]));
                    assert(k >= 0);
                    assert(bm[k].1 == block_map@[k].1);
                    assert(blocks_in(block_map@, func.blocks@.len() as int));
                    assert(block_map@[k].1 == blk);
                }
                pairs.push((blk, val));
                proof {
                    if s4.0 < self.tokens@.len() {
                        assert(toks[s4.0] == self.tokens@[s4.0].value@);
                    }
                }
                if self.peek_is(&Token::Comma) {
                    self.next_token();
                } else {
                    done = true;
                }
            }
        }
        Ok(pairs)
    }

    /// The operand of `const.int`.
    fn parse_const_int_ops(&mut self, func: &mut Function, val_map: &mut Vec<(String, Value)>) -> (r: Result<Instruction, ParseError>)
        requires
            old(self).wf(),
            old(func).values@.len() < u32::MAX,
            vals_in(old(val_map)@, old(func).values@.len() as int),
        ensures
            final(self).wf(),
            final(self).tokens == old(self).tokens,
            final(self).floats == old(self).floats,
            final(self).pos >= old(self).pos,
            inst_step(old(func), final(func), old(val_map)@, final(val_map)@),
            r matches Ok(inst) ==> inst_refs_in(inst, final(func).values@.len() as int, final(func).blocks@.len() as int),
            inst_read(sp_const_int(toks_of(old(self).tokens@), (old(self).pos as int, names_of(old(val_map)@), values_view(old(func).values@))), old(val_map)@.len() as int, r, final(self).pos as int, final(val_map)@, final(func).values@),
    {
        let ghost toks = toks_of(self.tokens@);
        let ghost p = self.pos as int;
        proof {
            if p < self.tokens@.len() {
                assert(toks[p] == self.tokens@[p].value@);
            }
            if p + 1 < self.tokens@.len() {
                assert(toks[p + 1] == self.tokens@[p + 1].value@);
            }
            assert(names_of(val_map@) =~= names_of(old(val_map)@));
        }
        let next = match self.next_token() {
            Some(t) => t,
            None => {
                let e = self.error(owned("Expected integer literal after const.int"));
                return Err(e);
            }
        };
        match &next.value {
            Token::Int(i) => Ok(Instruction::Const(Immediate::I64(*i))),
            other => {
                let m = Self::found("Expected integer literal, found '", other);
                let e = self.error(m);
                Err(e)
            }
        }
    }

    /// The operand of `const.float`, valued through the literal table.
    fn parse_const_float_ops(&mut self, func: &mut Function, val_map: &mut Vec<(String, Value)>) -> (r: Result<Instruction, ParseError>)
        requires
            old(self).wf(),
            old(func).values@.len() < u32::MAX,
            vals_in(old(val_map)@, old(func).values@.len() as int),
        ensures
            final(self).wf(),
            final(self).tokens == old(self).tokens,
            final(self).floats == old(self).floats,
            final(self).pos >= old(self).pos,
            inst_step(old(func), final(func), old(val_map)@, final(val_map)@),
            r matches Ok(inst) ==> inst_refs_in(inst, final(func).values@.len() as int, final(func).blocks@.len() as int),
            inst_read(sp_const_float(toks_of(old(self).tokens@), (old(self).pos as int, names_of(old(val_map)@), values_view(old(func).values@)), old(self).floats.entries@), old(val_map)@.len() as int, r, final(self).pos as int, final(val_map)@, final(func).values@),
    {
        let ghost toks = toks_of(self.tokens@);
        let ghost p = self.pos as int;
        proof {
            if p < self.tokens@.len() {
                assert(toks[p] == self.tokens@[p].value@);
            }
            if p + 1 < self.tokens@.len() {
                assert(toks[p + 1] == self.tokens@[p + 1].value@);
            }
            assert(names_of(val_map@) =~= names_of(old(val_map)@));
        }
        let next = match self.next_token() {
            Some(t) => t,
            None => {
                let e = self.error(owned("Expected float literal after const.float"));
                return Err(e);
            }
        };
        let text = match &next.value {
            Token::Float(t) => t.clone(),
            Token::Int(i) => crate::text::i64_text(*i),
            other => {
                let m = Self::found("Expected float literal, found '", other);
                let e = self.error(m);
                return Err(e);
            }
        };
        assert(float_text_of(toks[p]) == Some(text@));
        match self.floats.lookup(text.as_str()) {
            Some(bits) => Ok(Instruction::Const(Immediate::F64(bits))),
            None => {
                let mut m = owned("Invalid float literal '");
                push_str(&mut m, text.as_str());
                push_str(&mut m, "'");
                let e = self.error(m);
                Err(e)
            }
        }
    }

    /// The operands of a two-operand arithmetic or bitwise instruction.
    fn parse_binary_ops(&mut self, func: &mut Function, val_map: &mut Vec<(String, Value)>, kind: u8) -> (r: Result<Instruction, ParseError>)
        requires
            is_binary_keyword(kind as int),
            old(self).wf(),
            old(func).values@.len() < u32::MAX,
            vals_in(old(val_map)@, old(func).values@.len() as int),
        ensures
            final(self).wf(),
            final(self).tokens == old(self).tokens,
            final(self).floats == old(self).floats,
            final(self).pos >= old(self).pos,
            inst_step(old(func), final(func), old(val_map)@, final(val_map)@),
            r matches Ok(inst) ==> inst_refs_in(inst, final(func).values@.len() as int, final(func).blocks@.len() as int),
            inst_read(sp_binary(toks_of(old(self).tokens@), kind as int, (old(self).pos as int, names_of(old(val_map)@), values_view(old(func).values@))), old(val_map)@.len() as int, r, final(self).pos as int, final(val_map)@, final(func).values@),
    {
        let ghost toks = toks_of(self.tokens@);
        let ghost p = self.pos as int;
        proof {
            if p < self.tokens@.len() {
                assert(toks[p] == self.tokens@[p].value@);
            }
            if p + 1 < self.tokens@.len() {
                assert(toks[p + 1] == self.tokens@[p + 1].value@);
            }
            assert(names_of(val_map@) =~= names_of(old(val_map)@));
        }
        let (a, b) = self.parse_binary_op(func, val_map)?;
        let inst = if kind == 4 {
            Instruction::Add(a, b)
        } else if kind == 5 {
            Instruction::Sub(a, b)
        } else if kind == 6 {
            Instruction::Mul(a, b)
        } else if kind == 7 {
            Instruction::Div(a, b)
        } else if kind == 8 {
            Instruction::Rem(a, b)
        } else if kind == 11 {
            Instruction::And(a, b)
        } else if kind == 12 {
            Instruction::Or(a, b)
        } else if kind == 13 {
            Instruction::Xor(a, b)
        } else if kind == 14 {
            Instruction::Shl(a, b)
        } else if kind == 15 {
            Instruction::Shr(a, b)
        } else {
            Instruction::Sar(a, b)
        };
        Ok(inst)
    }

    /// The operand of `neg` or `not`.
    fn parse_unary_ops(&mut self, func: &mut Function, val_map: &mut Vec<(String, Value)>, kind: u8) -> (r: Result<Instruction, ParseError>)
        requires
            kind == 9 || kind == 10,
            old(self).wf(),
            old(func).values@.len() < u32::MAX,
            vals_in(old(val_map)@, old(func).values@.len() as int),
        ensures
            final(self).wf(),
            final(self).tokens == old(self).tokens,
            final(self).floats == old(self).floats,
            final(self).pos >= old(self).pos,
            inst_step(old(func), final(func), old(val_map)@, final(val_map)@),
            r matches Ok(inst) ==> inst_refs_in(inst, final(func).values@.len() as int, final(func).blocks@.len() as int),
            inst_read(sp_unary(toks_of(old(self).tokens@), kind as int, (old(self).pos as int, names_of(old(val_map)@), values_view(old(func).values@))), old(val_map)@.len() as int, r, final(self).pos as int, final(val_map)@, final(func).values@),
    {
        let ghost toks = toks_of(self.tokens@);
        let ghost p = self.pos as int;
        proof {
            if p < self.tokens@.len() {
                assert(toks[p] == self.tokens@[p].value@);
            }
            if p + 1 < self.tokens@.len() {
                assert(toks[p + 1] == self.tokens@[p + 1].value@);
            }
            assert(names_of(val_map@) =~= names_of(old(val_map)@));
        }
        let a = self.value_ref(func, val_map)?;
        if kind == 9 {
            Ok(Instruction::Neg(a))
        } else {
            Ok(Instruction::Not(a))
        }
    }

    /// The operator and operands of `cmp`.
    fn parse_compare_ops(&mut self, func: &mut Function, val_map: &mut Vec<(String, Value)>) -> (r: Result<Instruction, ParseError>)
        requires
            old(self).wf(),
            old(func).values@.len() < u32::MAX,
            vals_in(old(val_map)@, old(func).values@.len() as int),
        ensures
            final(self).wf(),
            final(self).tokens == old(self).tokens,
            final(self).floats == old(self).floats,
            final(self).pos >= old(self).pos,
            inst_step(old(func), final(func), old(val_map)@, final(val_map)@),
            r matches Ok(inst) ==> inst_refs_in(inst, final(func).values@.len() as int, final(func).blocks@.len() as int),
            inst_read(sp_compare(toks_of(old(self).tokens@), (old(self).pos as int, names_of(old(val_map)@), values_view(old(func).values@))), old(val_map)@.len() as int, r, final(self).pos as int, final(val_map)@, final(func).values@),
    {
        let ghost toks = toks_of(self.tokens@);
        let ghost p = self.pos as int;
        proof {
            if p < self.tokens@.len() {
                assert(toks[p] == self.tokens@[p].value@);
            }
            if p + 1 < self.tokens@.len() {
                assert(toks[p + 1] == self.tokens@[p + 1].value@);
            }
            assert(names_of(val_map@) =~= names_of(old(val_map)@));
        }
        let op = self.parse_comparison()?;
        let (a, b) = self.parse_binary_op(func, val_map)?;
        Ok(Instruction::Cmp(op, a, b))
    }

    /// The type of `alloca`.
    fn parse_alloca_ops(&mut self, func: &mut Function, val_map: &mut Vec<(String, Value)>) -> (r: Result<Instruction, ParseError>)
        requires
            old(self).wf(),
            old(func).values@.len() < u32::MAX,
            vals_in(old(val_map)@, old(func).values@.len() as int),
        ensures
            final(self).wf(),
            final(self).tokens == old(self).tokens,
            final(self).floats == old(self).floats,
            final(self).pos >= old(self).pos,
            inst_step(old(func), final(func), old(val_map)@, final(val_map)@),
            r matches Ok(inst) ==> inst_refs_in(inst, final(func).values@.len() as int, final(func).blocks@.len() as int),
            inst_read(sp_alloca(toks_of(old(self).tokens@), (old(self).pos as int, names_of(old(val_map)@), values_view(old(func).values@))), old(val_map)@.len() as int, r, final(self).pos as int, final(val_map)@, final(func).values@),
    {
        let ghost toks = toks_of(self.tokens@);
        let ghost p = self.pos as int;
        proof {
            if p < self.tokens@.len() {
                assert(toks[p] == self.tokens@[p].value@);
            }
            if p + 1 < self.tokens@.len() {
                assert(toks[p + 1] == self.tokens@[p + 1].value@);
            }
            assert(names_of(val_map@) =~= names_of(old(val_map)@));
        }
        let ty = self.parse_type()?;
        Ok(Instruction::Alloca(ty))
    }

    /// The operands of `load`: type, pointer and offset.
    fn parse_load_ops(&mut self, func: &mut Function, val_map: &mut Vec<(String, Value)>) -> (r: Result<Instruction, ParseError>)
        requires
            old(self).wf(),
            old(func).values@.len() < u32::MAX,
            vals_in(old(val_map)@, old(func).values@.len() as int),
        ensures
            final(self).wf(),
            final(self).tokens == old(self).tokens,
            final(self).floats == old(self).floats,
            final(self).pos >= old(self).pos,
            inst_step(old(func), final(func), old(val_map)@, final(val_map)@),
            r matches Ok(inst) ==> inst_refs_in(inst, final(func).values@.len() as int, final(func).blocks@.len() as int),
            inst_read(sp_load(toks_of(old(self).tokens@), (old(self).pos as int, names_of(old(val_map)@), values_view(old(func).values@))), old(val_map)@.len() as int, r, final(self).pos as int, final(val_map)@, final(func).values@),
    {
        let ghost toks = toks_of(self.tokens@);
        let ghost p = self.pos as int;
        proof {
            if p < self.tokens@.len() {
                assert(toks[p] == self.tokens@[p].value@);
            }
            if p + 1 < self.tokens@.len() {
                assert(toks[p + 1] == self.tokens@[p + 1].value@);
            }
            assert(names_of(val_map@) =~= names_of(old(val_map)@));
        }
        let ty = self.parse_type()?;
        self.expect_token(Token::Comma)?;
        let ptr = self.value_ref(func, val_map)?;
        let ghost p4 = self.pos as int;
        proof {
            if p4 < self.tokens@.len() {
                assert(toks[p4] == self.tokens@[p4].value@);
            }
        }
        self.expect_token(Token::Comma)?;
        let offset = self.int_operand("offset in load")?;
        Ok(Instruction::Load(ty, ptr, #[verifier::truncate] (offset as i32)))
    }

    /// The operands of `store`: value, pointer and offset.
    fn parse_store_ops(&mut self, func: &mut Function, val_map: &mut Vec<(String, Value)>) -> (r: Result<Instruction, ParseError>)
        requires
            old(self).wf(),
            old(func).values@.len() < u32::MAX,
            vals_in(old(val_map)@, old(func).values@.len() as int),
        ensures
            final(self).wf(),
            final(self).tokens == old(self).tokens,
            final(self).floats == old(self).floats,
            final(self).pos >= old(self).pos,
            inst_step(old(func), final(func), old(val_map)@, final(val_map)@),
            r matches Ok(inst) ==> inst_refs_in(inst, final(func).values@.len() as int, final(func).blocks@.len() as int),
            inst_read(sp_store(toks_of(old(self).tokens@), (old(self).pos as int, names_of(old(val_map)@), values_view(old(func).values@))), old(val_map)@.len() as int, r, final(self).pos as int, final(val_map)@, final(func).values@),
    {
        let ghost toks = toks_of(self.tokens@);
        let ghost p = self.pos as int;
        proof {
            if p < self.tokens@.len() {
                assert(toks[p] == self.tokens@[p].value@);
            }
            if p + 1 < self.tokens@.len() {
                assert(toks[p + 1] == self.tokens@[p + 1].value@);
            }
            assert(names_of(val_map@) =~= names_of(old(val_map)@));
        }
        let (val, ptr) = self.parse_binary_op(func, val_map)?;
        let ghost p4 = self.pos as int;
        proof {
            if p4 < self.tokens@.len() {
                assert(toks[p4] == self.tokens@[p4].value@);
            }
        }
        self.expect_token(Token::Comma)?;
        let offset = self.int_operand("offset in store")?;
        Ok(Instruction::Store(val, ptr, #[verifier::truncate] (offset as i32)))
    }

    /// The target of `jmp`.
    fn parse_jmp_ops(&mut self, func: &mut Function, val_map: &mut Vec<(String, Value)>, block_map: &Vec<(String, Block)>) -> (r: Result<Instruction, ParseError>)
        requires
            old(self).wf(),
            old(func).values@.len() < u32::MAX,
            vals_in(old(val_map)@, old(func).values@.len() as int),
            blocks_in(block_map@, old(func).blocks@.len() as int),
        ensures
            final(self).wf(),
            final(self).tokens == old(self).tokens,
            final(self).floats == old(self).floats,
            final(self).pos >= old(self).pos,
            inst_step(old(func), final(func), old(val_map)@, final(val_map)@),
            r matches Ok(inst) ==> inst_refs_in(inst, final(func).values@.len() as int, final(func).blocks@.len() as int),
            inst_read(sp_jmp(toks_of(old(self).tokens@), (old(self).pos as int, names_of(old(val_map)@), values_view(old(func).values@)), names_of(block_map@)), old(val_map)@.len() as int, r, final(self).pos as int, final(val_map)@, final(func).values@),
    {
        let ghost toks = toks_of(self.tokens@);
        let ghost p = self.pos as int;
        proof {
            if p < self.tokens@.len() {
                assert(toks[p] == self.tokens@[p].value@);
            }
            if p + 1 < self.tokens@.len() {
                assert(toks[p + 1] == self.tokens@[p + 1].value@);
            }
            assert(names_of(val_map@) =~= names_of(old(val_map)@));
        }
        let blk = self.parse_block_ref(block_map)?;
        let inst = Instruction::Jmp(blk);
        proof {
            let bm = names_of(block_map@);
            let k = first_index(bm, block_name_of(toks[p]));
            assert(bm[k].1 == block_map@[k].1);
        }
        assert(inst_blocks(inst) =~= seq![blk]);
        Ok(inst)
    }

    /// The condition and targets of `br`.
    fn parse_br_ops(&mut self, func: &mut Function, val_map: &mut Vec<(String, Value)>, block_map: &Vec<(String, Block)>) -> (r: Result<Instruction, ParseError>)
        requires
            old(self).wf(),
            old(func).values@.len() < u32::MAX,
            vals_in(old(val_map)@, old(func).values@.len() as int),
            blocks_in(block_map@, old(func).blocks@.len() as int),
        ensures
            final(self).wf(),
            final(self).tokens == old(self).tokens,
            final(self).floats == old(self).floats,
            final(self).pos >= old(self).pos,
            inst_step(old(func), final(func), old(val_map)@, final(val_map)@),
            r matches Ok(inst) ==> inst_refs_in(inst, final(func).values@.len() as int, final(func).blocks@.len() as int),
            inst_read(sp_br(toks_of(old(self).tokens@), (old(self).pos as int, names_of(old(val_map)@), values_view(old(func).values@)), names_of(block_map@)), old(val_map)@.len() as int, r, final(self).pos as int, final(val_map)@, final(func).values@),
    {
        let ghost toks = toks_of(self.tokens@);
        let ghost p = self.pos as int;
        proof {
            if p < self.tokens@.len() {
                assert(toks[p] == self.tokens@[p].value@);
            }
            if p + 1 < self.tokens@.len() {
                assert(toks[p + 1] == self.tokens@[p + 1].value@);
            }
            assert(names_of(val_map@) =~= names_of(old(val_map)@));
        }
        let cond = self.value_ref(func, val_map)?;
        let ghost p2 = self.pos as int;
        proof {
            if p2 < self.tokens@.len() {
                assert(toks[p2] == self.tokens@[p2].value@);
            }
            if p2 + 1 < self.tokens@.len() {
                assert(toks[p2 + 1] == self.tokens@[p2 + 1].value@);
            }
            if p2 + 2 < self.tokens@.len() {
                assert(toks[p2 + 2] == self.tokens@[p2 + 2].value@);
            }
            if p2 + 3 < self.tokens@.len() {
                assert(toks[p2 + 3] == self.tokens@[p2 + 3].value@);
            }
        }
        self.expect_token(Token::Comma)?;
        let t_blk = self.parse_block_ref(block_map)?;
        self.expect_token(Token::Comma)?;
        let f_blk = self.parse_block_ref(block_map)?;
        proof {
            let bm = names_of(block_map@);
            let k1 = first_index(bm, block_name_of(toks[p2 + 1]));
            assert(bm[k1].1 == block_map@[k1].1);
            let k2 = first_index(bm, block_name_of(toks[p2 + 3]));
            assert(bm[k2].1 == block_map@[k2].1);
        }
        Ok(Instruction::Br(cond, t_blk, f_blk))
    }

    /// The optional value of `ret`.
    fn parse_ret_ops(&mut self, func: &mut Function, val_map: &mut Vec<(String, Value)>) -> (r: Result<Instruction, ParseError>)
        requires
            old(self).wf(),
            old(func).values@.len() < u32::MAX,
            vals_in(old(val_map)@, old(func).values@.len() as int),
        ensures
            final(self).wf(),
            final(self).tokens == old(self).tokens,
            final(self).floats == old(self).floats,
            final(self).pos >= old(self).pos,
            inst_step(old(func), final(func), old(val_map)@, final(val_map)@),
            r matches Ok(inst) ==> inst_refs_in(inst, final(func).values@.len() as int, final(func).blocks@.len() as int),
            inst_read(sp_ret(toks_of(old(self).tokens@), (old(self).pos as int, names_of(old(val_map)@), values_view(old(func).values@))), old(val_map)@.len() as int, r, final(self).pos as int, final(val_map)@, final(func).values@),
    {
        let ghost toks = toks_of(self.tokens@);
        let ghost p = self.pos as int;
        proof {
            if p < self.tokens@.len() {
                assert(toks[p] == self.tokens@[p].value@);
            }
            if p + 1 < self.tokens@.len() {
                assert(toks[p + 1] == self.tokens@[p + 1].value@);
            }
            assert(names_of(val_map@) =~= names_of(old(val_map)@));
        }
        if self.peek_value_name() {
            let val = self.value_ref(func, val_map)?;
            Ok(Instruction::Ret(Some(val)))
        } else {
            Ok(Instruction::Ret(None))
        }
    }

    /// The callee and arguments of `call`.
    fn parse_call_ops(&mut self, func: &mut Function, val_map: &mut Vec<(String, Value)>) -> (r: Result<Instruction, ParseError>)
        requires
            old(self).wf(),
            old(func).values@.len() < u32::MAX,
            vals_in(old(val_map)@, old(func).values@.len() as int),
        ensures
            final(self).wf(),
            final(self).tokens == old(self).tokens,
            final(self).floats == old(self).floats,
            final(self).pos >= old(self).pos,
            inst_step(old(func), final(func), old(val_map)@, final(val_map)@),
            r matches Ok(inst) ==> inst_refs_in(inst, final(func).values@.len() as int, final(func).blocks@.len() as int),
            inst_read(sp_call(toks_of(old(self).tokens@), (old(self).pos as int, names_of(old(val_map)@), values_view(old(func).values@))), old(val_map)@.len() as int, r, final(self).pos as int, final(val_map)@, final(func).values@),
    {
        let ghost toks = toks_of(self.tokens@);
        let ghost p = self.pos as int;
        proof {
            if p < self.tokens@.len() {
                assert(toks[p] == self.tokens@[p].value@);
            }
            if p + 1 < self.tokens@.len() {
                assert(toks[p + 1] == self.tokens@[p + 1].value@);
            }
            assert(names_of(val_map@) =~= names_of(old(val_map)@));
        }
        let target = self.expect_named(1)?;
        self.expect_token(Token::LParen)?;
        let args = self.parse_call_args(func, val_map)?;
        let ghost p4 = self.pos as int;
        proof {
            if p4 < self.tokens@.len() {
                assert(toks[p4] == self.tokens@[p4].value@);
            }
        }
        self.expect_token(Token::RParen)?;
        Ok(Instruction::Call(target, args))
    }

    /// The incoming pairs of `phi`.
    fn parse_phi_ops(&mut self, func: &mut Function, val_map: &mut Vec<(String, Value)>, block_map: &Vec<(String, Block)>) -> (r: Result<Instruction, ParseError>)
        requires
            old(self).wf(),
            old(func).values@.len() < u32::MAX,
            vals_in(old(val_map)@, old(func).values@.len() as int),
            blocks_in(block_map@, old(func).blocks@.len() as int),
        ensures
            final(self).wf(),
            final(self).tokens == old(self).tokens,
            final(self).floats == old(self).floats,
            final(self).pos >= old(self).pos,
            inst_step(old(func), final(func), old(val_map)@, final(val_map)@),
            r matches Ok(inst) ==> inst_refs_in(inst, final(func).values@.len() as int, final(func).blocks@.len() as int),
            inst_read(sp_phi(toks_of(old(self).tokens@), (old(self).pos as int, names_of(old(val_map)@), values_view(old(func).values@)), names_of(block_map@)), old(val_map)@.len() as int, r, final(self).pos as int, final(val_map)@, final(func).values@),
    {
        let ghost toks = toks_of(self.tokens@);
        let ghost p = self.pos as int;
        proof {
            if p < self.tokens@.len() {
                assert(toks[p] == self.tokens@[p].value@);
            }
            if p + 1 < self.tokens@.len() {
                assert(toks[p + 1] == self.tokens@[p + 1].value@);
            }
            assert(names_of(val_map@) =~= names_of(old(val_map)@));
        }
        let pairs = self.parse_phi_pairs(func, val_map, block_map)?;
        let inst = Instruction::Phi(pairs);
        proof {
            assert forall|k: int| 0 <= k < inst.operands().len() implies (#[trigger] inst.operands()[k]).0 < func.values@.len() by {
                assert(inst.operands()[k] == pairs@[k].1);
            }
            assert forall|k: int| 0 <= k < inst_blocks(inst).len() implies (#[trigger] inst_blocks(inst)[k]).0 < func.blocks@.len() by {
                assert(inst_blocks(inst)[k] == pairs@[k].0);
            }
        }
        Ok(inst)
    }

    /// One instruction, from its opcode on.
    fn parse_instruction(
        &mut self,
        func: &mut Function,
        val_map: &mut Vec<(String, Value)>,
        block_map: &Vec<(String, Block)>,
    ) -> (r: Result<Instruction, ParseError>)
        requires
            old(self).wf(),
            old(func).values@.len() < u32::MAX,
            vals_in(old(val_map)@, old(func).values@.len() as int),
            blocks_in(block_map@, old(func).blocks@.len() as int),
        ensures
            final(self).wf(),
            final(self).tokens == old(self).tokens,
            final(self).floats == old(self).floats,
            final(self).pos >= old(self).pos,
            inst_step(old(func), final(func), old(val_map)@, final(val_map)@),
            r matches Ok(inst) ==> inst_refs_in(inst, final(func).values@.len() as int, final(func).blocks@.len() as int),
            r is Ok ==> final(self).pos > old(self).pos,
            inst_read(sp_inst(toks_of(old(self).tokens@), (old(self).pos as int, names_of(old(val_map)@), values_view(old(func).values@)),
                names_of(block_map@), old(self).floats.entries@), old(val_map)@.len() as int, r, final(self).pos as int,
                final(val_map)@, final(func).values@),
    {
        let ghost toks = toks_of(self.tokens@);
        let ghost p = self.pos as int;
        proof {
            if p < self.tokens@.len() {
                assert(toks[p] == self.tokens@[p].value@);
            }
        }
        let tok = match self.next_token() {
            Some(t) => t,
            None => {
                let e = self.error(owned("Expected instruction opcode, found end of file"));
                return Err(e);
            }
        };
        let kind = tok.value.kind();
        proof { crate::lexer::lemma_keyword_kind(tok.value); }
        if kind == 2 {
            self.parse_const_int_ops(func, val_map)
        } else if kind == 3 {
            self.parse_const_float_ops(func, val_map)
        } else if (4 <= kind && kind <= 8) || (11 <= kind && kind <= 16) {
            self.parse_binary_ops(func, val_map, kind)
        } else if kind == 9 || kind == 10 {
            self.parse_unary_ops(func, val_map, kind)
        } else if kind == 17 {
            self.parse_compare_ops(func, val_map)
        } else if kind == 18 {
            self.parse_alloca_ops(func, val_map)
        } else if kind == 19 {
            self.parse_load_ops(func, val_map)
        } else if kind == 20 {
            self.parse_store_ops(func, val_map)
        } else if kind == 21 {
            self.parse_jmp_ops(func, val_map, block_map)
        } else if kind == 22 {
            self.parse_br_ops(func, val_map, block_map)
        } else if kind == 23 {
            self.parse_ret_ops(func, val_map)
        } else if kind == 24 {
            self.parse_call_ops(func, val_map)
        } else if kind == 25 {
            self.parse_phi_ops(func, val_map, block_map)
        } else {
            let m = Self::found("Expected instruction opcode, found '", &tok.value);
            let e = self.error(m);
            Err(e)
        }
    }

    fn peek_value_name(&self) -> (r: bool)
        requires
            self.wf(),
        ensures
            r == (self.pos < self.tokens@.len() && self.tokens@[self.pos as int].value is ValueName),
    {
        match self.peek() {
            Some(t) => matches!(t.value, Token::ValueName(_)),
            None => false,
        }
    }
}

/// Adding an instruction whose references resolve keeps a function open-closed.
pub proof fn lemma_push_open_ok(f: &Function, g: &Function, block: Block, inst: Instruction)
    requires
        open_ok(f),
        block.0 < f.blocks@.len(),
        inst_refs_in(inst, f.values@.len() as int, f.blocks@.len() as int),
        g.insts@ == f.insts@.push(inst),
        g.blocks@.len() == f.blocks@.len(),
        g.values@ == f.values@,
        g.params == f.params,
        g.wf(),
    ensures
        open_ok(g),
{
    assert forall|i: int| 0 <= i < g.insts@.len() implies
        inst_refs_in(#[trigger] g.insts@[i], g.values@.len() as int, g.blocks@.len() as int) by {
        if i < f.insts@.len() {
            assert(g.insts@[i] == f.insts@[i]);
            assert(inst_refs_in(f.insts@[i], f.values@.len() as int, f.blocks@.len() as int));
        }
    }
}

impl<'a> Parser<'a> {
    /// Type names separated by commas, up to the closing parenthesis.
    fn parse_type_list(&mut self) -> (r: Result<Vec<Type>, ParseError>)
        requires
            old(self).wf(),
        ensures
            final(self).wf(),
            final(self).tokens == old(self).tokens,
            final(self).floats == old(self).floats,
            final(self).pos >= old(self).pos,
            match sp_types(toks_of(old(self).tokens@), old(self).pos as int, seq![]) {
                Some((ts, p)) => r matches Ok(v) && v@ == ts && final(self).pos == p,
                None => r is Err,
            },
    {
        let ghost toks = toks_of(self.tokens@);
        let ghost p0 = self.pos as int;
        let mut params: Vec<Type> = Vec::new();
        let mut done = false;
        while !done && self.pos < self.tokens.len()
            invariant
                self.wf(),
                self.tokens == old(self).tokens,
                self.floats == old(self).floats,
                self.pos >= old(self).pos,
                toks == toks_of(self.tokens@),
                p0 == old(self).pos as int,
                sp_types(toks, p0, seq![]) == (if done {
                    Some((params@, self.pos as int))
                } else {
                    sp_types(toks, self.pos as int, params@)
                }),
            decreases self.tokens@.len() - self.pos, if done { 0int } else { 1int },
        {
            let ghost p = self.pos as int;
            assert(toks[p] == self.tokens@[p].value@);
            if self.peek_is(&Token::RParen) {
                done = true;
            } else {
                let t = match self.parse_type() {
                    Ok(t) => t,
                    Err(e) => {
                        assert(sp_type(toks, (p, seq![], seq![])) is None);
                        return Err(e);
                    }
                };
                params.push(t);
                let ghost p1 = self.pos as int;
                proof {
                    if p1 < self.tokens@.len() {
                        assert(toks[p1] == self.tokens@[p1].value@);
                    }
                }
                if self.peek_is(&Token::Comma) {
                    self.next_token();
                } else {
                    done = true;
                }
            }
        }
        Ok(params)
    }

    fn parse_extern(&mut self, module: &mut Module) -> (r: Result<(), ParseError>)
        requires
            old(self).wf(),
        ensures
            final(self).wf(),
            final(self).tokens == old(self).tokens,
            final(self).floats == old(self).floats,
            final(self).pos >= old(self).pos,
            r is Ok ==> final(self).pos > old(self).pos,
            final(module).functions == old(module).functions,
            match sp_extern(toks_of(old(self).tokens@), old(self).pos as int) {
                Some((name, params, ret, p)) => r is Ok && final(self).pos == p
                    && final(module).externs@.len() == old(module).externs@.len() + 1
                    && final(module).externs@.drop_last() == old(module).externs@
                    && final(module).externs@.last().name@ == name
                    && final(module).externs@.last().params@ == params
                    && final(module).externs@.last().return_type == ret,
                None => r is Err,
            },
    {
        let ghost toks = toks_of(self.tokens@);
        let ghost p = self.pos as int;
        proof {
            if p < self.tokens@.len() {
                assert(toks[p] == self.tokens@[p].value@);
            }
            if p + 1 < self.tokens@.len() {
                assert(toks[p + 1] == self.tokens@[p + 1].value@);
            }
            if p + 2 < self.tokens@.len() {
                assert(toks[p + 2] == self.tokens@[p + 2].value@);
            }
            if p + 3 < self.tokens@.len() {
                assert(toks[p + 3] == self.tokens@[p + 3].value@);
            }
        }
        self.expect_token(Token::Extern)?;
        self.expect_token(Token::Func)?;
        let name = self.expect_named(1)?;
        self.expect_token(Token::LParen)?;
        let params = self.parse_type_list()?;
        let ghost p1 = self.pos as int;
        proof {
            if p1 < self.tokens@.len() {
                assert(toks[p1] == self.tokens@[p1].value@);
            }
            if p1 + 1 < self.tokens@.len() {
                assert(toks[p1 + 1] == self.tokens@[p1 + 1].value@);
            }
        }
        self.expect_token(Token::RParen)?;
        self.expect_token(Token::Arrow)?;
        let return_type = self.parse_type()?;
        module.add_extern(name.as_str(), params, return_type);
        Ok(())
    }

    /// Whether the tokens at `i` are a block label: a name and a colon.
    fn is_label_at(&self, i: usize) -> (r: bool)
        requires
            self.wf(),
        ensures
            r == (i + 1 < self.tokens@.len() && self.tokens@[i as int].value is Ident
                && self.tokens@[i as int + 1].value@ == Tok::Punct(6)),
    {
        i < self.tokens.len() && matches!(self.tokens[i].value, Token::Ident(_))
            && i + 1 < self.tokens.len() && matches!(self.tokens[i + 1].value, Token::Colon)
    }

    /// The parameters of a function, up to the closing parenthesis; each
    /// defines a new value and binds its name.
    fn parse_param_list(&mut self, func: &mut Function, val_map: &mut Vec<(String, Value)>) -> (r: Result<(), ParseError>)
        requires
            old(self).wf(),
            open_ok(old(func)),
            old(func).blocks@.len() == 0,
            old(func).insts@.len() == 0,
            old(func).values@.len() < u32::MAX,
            vals_in(old(val_map)@, old(func).values@.len() as int),
        ensures
            final(self).wf(),
            final(self).tokens == old(self).tokens,
            final(self).floats == old(self).floats,
            final(self).pos >= old(self).pos,
            open_ok(final(func)),
            final(func).blocks@.len() == 0,
            final(func).insts@.len() == 0,
            final(func).values@.len() < u32::MAX,
            vals_in(final(val_map)@, final(func).values@.len() as int),
            final(func).name == old(func).name,
            final(func).return_type == old(func).return_type,
            final(func).entry_block == old(func).entry_block,
            match sp_params(toks_of(old(self).tokens@), old(self).pos as int, names_of(old(val_map)@), fview(old(func)).params,
                values_view(old(func).values@)) {
                Some((p, names, params, vals)) => r is Ok && final(self).pos == p && names_of(final(val_map)@) == names
                    && fview(final(func)).params == params && values_view(final(func).values@) == vals,
                None => r is Err,
            },
    {
        let ghost toks = toks_of(self.tokens@);
        let ghost st0 = (self.pos as int, names_of(val_map@), fview(func).params, values_view(func.values@));
        let mut done = false;
        while !done && self.pos < self.tokens.len()
            invariant
                self.wf(),
                self.tokens == old(self).tokens,
                self.floats == old(self).floats,
                self.pos >= old(self).pos,
                toks == toks_of(self.tokens@),
                st0 == (old(self).pos as int, names_of(old(val_map)@), fview(old(func)).params, values_view(old(func).values@)),
                open_ok(func),
                func.blocks@.len() == 0,
                func.insts@.len() == 0,
                func.values@.len() < u32::MAX,
                vals_in(val_map@, func.values@.len() as int),
                func.name == old(func).name,
                func.return_type == old(func).return_type,
                func.entry_block == old(func).entry_block,
                sp_params(toks, st0.0, st0.1, st0.2, st0.3) == (if done {
                    Some((self.pos as int, names_of(val_map@), fview(func).params, values_view(func.values@)))
                } else {
                    sp_params(toks, self.pos as int, names_of(val_map@), fview(func).params, values_view(func.values@))
                }),
            decreases self.tokens@.len() - self.pos, if done { 0int } else { 1int },
        {
            let ghost p = self.pos as int;
            proof {
                assert(toks[p] == self.tokens@[p].value@);
                if p + 1 < self.tokens@.len() {
                    assert(toks[p + 1] == self.tokens@[p + 1].value@);
                }
            }
            if self.peek_is(&Token::RParen) {
                done = true;
            } else {
                let param_name = self.expect_named(2)?;
                self.expect_token(Token::Colon)?;
                let ty = self.parse_type()?;
                assert(sp_type(toks, (p + 2, seq![], seq![])) matches Some((t, s2)) && t == ty && s2.0 == p + 3);
                if func.values.len() >= 4294967294 {
                    let e = self.error(owned("Too many SSA values in one function"));
                    return Err(e);
                }
                let ghost f0 = *func;
                let ghost vm0 = val_map@;
                let val = func.add_param(param_name.as_str(), ty);
                match find_index(val_map, param_name.as_str()) {
                    Some(k) => {
                        let ghost pn = param_name@;
                        val_map.set(k, (param_name, val));
                        proof {
                            assert(names_of(val_map@) =~= names_of(vm0).update(k as int, (pn, val)));
                            assert(first_index(names_of(vm0), pn) == k as int);
                            assert(names_of(val_map@) == bind_name(names_of(vm0), pn, val));
                        }
                    }
                    None => {
                        let ghost pn = param_name@;
                        val_map.push((param_name, val));
                        proof {
                            assert(names_of(val_map@) =~= names_of(vm0).push((pn, val)));
                            assert(first_index(names_of(vm0), pn) < 0);
                            assert(names_of(val_map@) == bind_name(names_of(vm0), pn, val));
                        }
                    }
                }
                proof {
                    assert forall|v: int| 0 <= v < func.values@.len() implies
                        ((#[trigger] func.values@[v]).def matches ValueDef::Param(k) ==> k < func.params@.len() || k == usize::MAX) by {
                        if v < f0.values@.len() {
                            assert(func.values@[v] == f0.values@[v]);
                        }
                    }
                    assert forall|i: int| 0 <= i < val_map@.len() implies (#[trigger] val_map@[i]).1.0 < func.values@.len() by {
                        if val_map@[i].1 != val {
                            assert(exists|j: int| 0 <= j < vm0.len() && vm0[j] == val_map@[i]) by {
                                if i < vm0.len() {
                                    assert(val_map@[i] == vm0[i]);
                                }
                            }
                        }
                    }
                    assert(fview(func).params =~= fview(&f0).params.push((toks[p]->ValueName_0, val, ty)));
                    assert(values_view(func.values@) =~= values_view(f0.values@).push((ty, ValueDef::Param(f0.params@.len() as usize), Some(toks[p]->ValueName_0))));
                }
                let ghost p3 = self.pos as int;
                proof {
                    if p3 < self.tokens@.len() {
                        assert(toks[p3] == self.tokens@[p3].value@);
                    }
                    let n = toks[p]->ValueName_0;
                    assert(param_name@ == n);
                    assert(val == Value(values_view(f0.values@).len() as u32));
                    assert(names_of(val_map@) == bind_name(names_of(vm0), n, val));
                }
                if self.peek_is(&Token::Comma) {
                    self.next_token();
                } else {
                    done = true;
                }
            }
        }
        Ok(())
    }

    /// Creates a block for each label of the body, in the order the labels
    /// first appear, up to the brace that closes the body.
    fn scan_blocks(&self, func: &mut Function, block_map: &mut Vec<(String, Block)>) -> (r: Result<(), ParseError>)
        requires
            self.wf(),
            open_ok(old(func)),
            old(func).blocks@.len() == 0,
            old(func).insts@.len() == 0,
            old(func).entry_block is None,
            old(block_map)@.len() == 0,
        ensures
            open_ok(final(func)),
            final(func).insts@.len() == 0,
            final(func).name == old(func).name,
            final(func).params == old(func).params,
            final(func).return_type == old(func).return_type,
            final(func).values@ == old(func).values@,
            blocks_in(final(block_map)@, final(func).blocks@.len() as int),
            match sp_scan(toks_of(self.tokens@), self.pos as int, 1, seq![]) {
                Some(bnames) => r is Ok && names_of(final(block_map)@) == block_table(bnames)
                    && fview(final(func)).blocks == Seq::new(bnames.len(), |k: int| (bnames[k], Seq::<Inst>::empty()))
                    && final(func).entry_block == (if bnames.len() > 0 { Some(Block(0)) } else { None }),
                None => r is Err,
            },
    {
        let ghost toks = toks_of(self.tokens@);
        let ghost bn: Seq<Seq<char>> = seq![];
        let mut scan_pos = self.pos;
        let mut depth: usize = 1;
        assert(names_of(block_map@) =~= block_table(bn));
        assert(fview(func).blocks =~= Seq::new(bn.len(), |k: int| (bn[k], Seq::<Inst>::empty())));
        while scan_pos < self.tokens.len() && depth > 0
            invariant
                self.wf(),
                toks == toks_of(self.tokens@),
                scan_pos <= self.tokens@.len(),
                depth <= scan_pos + 1,
                open_ok(func),
                func.insts@.len() == 0,
                func.name == old(func).name,
                func.params == old(func).params,
                func.return_type == old(func).return_type,
                func.values@ == old(func).values@,
                bn.len() == func.blocks@.len(),
                names_of(block_map@) == block_table(bn),
                blocks_in(block_map@, func.blocks@.len() as int),
                fview(func).blocks == Seq::new(bn.len(), |k: int| (bn[k], Seq::<Inst>::empty())),
                func.entry_block == (if bn.len() > 0 { Some(Block(0)) } else { None }),
                sp_scan(toks, self.pos as int, 1, seq![]) == sp_scan(toks, scan_pos as int, depth as int, bn),
            decreases self.tokens@.len() - scan_pos,
        {
            let ghost i = scan_pos as int;
            proof {
                assert(toks[i] == self.tokens@[i].value@);
                if i + 1 < self.tokens@.len() {
                    assert(toks[i + 1] == self.tokens@[i + 1].value@);
                }
            }
            match &self.tokens[scan_pos].value {
                Token::LBrace => { depth = depth + 1; }
                Token::RBrace => { depth = depth - 1; }
                Token::Ident(bname) => {
                    let fresh = find_name(block_map, bname.as_str()).is_none();
                    proof {
                        assert(names_of(block_map@).len() == block_map@.len());
                        assert(block_map@.len() == bn.len());
                        if fresh {
                            assert forall|j: int| 0 <= j < bn.len() implies bn[j] != bname@ by {
                                assert(names_of(block_map@)[j] == block_table(bn)[j]);
                                assert(block_map@[j].0@ != bname@);
                            }
                            assert(!bn.contains(bname@));
                        } else {
                            let j = choose|j: int| 0 <= j < block_map@.len() && block_map@[j].0@ == bname@;
                            assert(names_of(block_map@)[j] == block_table(bn)[j]);
                            assert(bn[j] == bname@);
                        }
                    }
                    if self.is_label_at(scan_pos) && fresh {
                        if func.blocks.len() >= 4294967294 {
                            let e = self.error(owned("Too many basic blocks in one function"));
                            return Err(e);
                        }
                        let ghost f0 = *func;
                        let ghost bm0 = block_map@;
                        let blk = func.create_block(bname.as_str());
                        let bcopy = bname.clone();
                        assert(bcopy@ == bname@);
                        block_map.push((bcopy, blk));
                        proof {
                            let bn0 = bn;
                            bn = bn.push(bname@);
                            assert(block_map@ == bm0.push((bcopy, blk)));
                            assert forall|k: int| 0 <= k < bn.len() implies #[trigger] names_of(block_map@)[k] == block_table(bn)[k] by {
                                if k < bn0.len() {
                                    assert(names_of(block_map@)[k] == names_of(bm0)[k]);
                                    assert(names_of(bm0)[k] == block_table(bn0)[k]);
                                }
                            }
                            assert(names_of(block_map@) =~= block_table(bn));
                            assert forall|k: int| 0 <= k < bn.len() implies #[trigger] fview(func).blocks[k] == (bn[k], Seq::<Inst>::empty()) by {
                                if k < bn0.len() {
                                    assert(func.blocks@[k] == f0.blocks@[k]);
                                    assert(fview(&f0).blocks[k] == (bn0[k], Seq::<Inst>::empty()));
                                } else {
                                    assert(func.blocks@[k] == func.blocks@.last());
                                }
                            }
                            assert(fview(func).blocks =~= Seq::new(bn.len(), |k: int| (bn[k], Seq::<Inst>::empty())));
                            assert forall|i: int| 0 <= i < block_map@.len() implies (#[trigger] block_map@[i]).1.0 < func.blocks@.len() by {
                                if i < block_map@.len() - 1 {
                                    assert(block_map@[i] == block_map@.drop_last()[i]);
                                }
                            }
                            assert forall|b: int, k: int| 0 <= b < func.blocks@.len() && 0 <= k < func.blocks@[b].insts@.len()
                                implies (#[trigger] func.blocks@[b].insts@[k]).0 < func.insts@.len() by {
                                assert(b < f0.blocks@.len());
                                assert(func.blocks@[b] == f0.blocks@[b]);
                            }
                        }
                    }
                }
                _ => {}
            }
            scan_pos = scan_pos + 1;
        }
        Ok(())
    }

    /// The result part of a statement, `%name: type =`, when there is one.
    fn parse_result_part(&mut self) -> (r: Result<Option<(String, Type)>, ParseError>)
        requires
            old(self).wf(),
        ensures
            final(self).wf(),
            final(self).tokens == old(self).tokens,
            final(self).floats == old(self).floats,
            final(self).pos >= old(self).pos,
            match sp_result(toks_of(old(self).tokens@), old(self).pos as int) {
                Some((res, p1)) => r matches Ok(o) && final(self).pos == p1 && (match (o, res) {
                    (None, None) => true,
                    (Some((n, t)), Some((n2, t2))) => n@ == n2 && t == t2,
                    _ => false,
                }),
                None => r is Err,
            },
    {
        let ghost toks = toks_of(self.tokens@);
        let ghost p = self.pos as int;
        proof {
            if p < self.tokens@.len() {
                assert(toks[p] == self.tokens@[p].value@);
            }
            if p + 1 < self.tokens@.len() {
                assert(toks[p + 1] == self.tokens@[p + 1].value@);
            }
        }
        if self.peek_value_name() {
            let val_name = self.expect_named(2)?;
            self.expect_token(Token::Colon)?;
            let ty = self.parse_type()?;
            let ghost p3 = self.pos as int;
            proof {
                if p3 < self.tokens@.len() {
                    assert(toks[p3] == self.tokens@[p3].value@);
                }
            }
            self.expect_token(Token::Equal)?;
            Ok(Some((val_name, ty)))
        } else {
            Ok(None)
        }
    }

    /// One statement of a body: an optional result, then an instruction,
    /// added to `block`.
    fn parse_statement(
        &mut self,
        func: &mut Function,
        val_map: &mut Vec<(String, Value)>,
        block_map: &Vec<(String, Block)>,
        block: Block,
    ) -> (r: Result<(), ParseError>)
        requires
            old(self).wf(),
            open_ok(old(func)),
            old(func).values@.len() < u32::MAX,
            vals_in(old(val_map)@, old(func).values@.len() as int),
            blocks_in(block_map@, old(func).blocks@.len() as int),
            block.0 < old(func).blocks@.len(),
        ensures
            final(self).wf(),
            final(self).tokens == old(self).tokens,
            final(self).floats == old(self).floats,
            final(self).pos >= old(self).pos,
            r is Ok ==> final(self).pos > old(self).pos,
            open_ok(final(func)),
            final(func).values@.len() < u32::MAX,
            vals_in(final(val_map)@, final(func).values@.len() as int),
            final(func).blocks@.len() == old(func).blocks@.len(),
            block_names(final(func)) == block_names(old(func)),
            final(func).name == old(func).name,
            final(func).params == old(func).params,
            final(func).return_type == old(func).return_type,
            final(func).entry_block == old(func).entry_block,
            match sp_statement(toks_of(old(self).tokens@), bstate(old(self).pos as int, Some(block), old(val_map)@, old(func)), block,
                names_of(block_map@), old(self).floats.entries@) {
                Some(st2) => r is Ok && bstate(final(self).pos as int, Some(block), final(val_map)@, final(func)) == st2,
                None => r is Err,
            },
    {
        let ghost toks = toks_of(self.tokens@);
        let res = self.parse_result_part()?;
        let ghost f0 = *func;
        let ghost vm0 = val_map@;
        let ghost p1 = self.pos as int;
        let inst = self.parse_instruction(func, val_map, block_map)?;
        if func.insts.len() >= 4294967294 || func.values.len() >= 4294967294 {
            let e = self.error(owned("Too many instructions in one function"));
            return Err(e);
        }
        let ghost f1 = *func;
        let ghost inst_v = inst;
        let (inst_id, _) = func.push_inst(block, inst, None);
        proof {
            lemma_push_open_ok(&f1, func, block, inst_v);
            assert(fview(func).insts =~= fview(&f1).insts.push(inst_view(inst_v)));
            assert(block_insts(func) =~= block_insts(&f1).update(block.0 as int, block_insts(&f1)[block.0 as int].push(inst_id)));
            assert(block_names(func) =~= block_names(&f1));
            assert(block_names(&f1) =~= block_names(old(func)));
            assert(block_insts(&f1) =~= block_insts(old(func)));
            assert(fview(&f1).insts =~= fview(old(func)).insts);
            assert(values_view(func.values@) == values_view(f1.values@));
        }
        match res {
            Some((val_name, ty)) => {
                match find_name(val_map, val_name.as_str()) {
                    Some(existing) => {
                        let ghost f2 = *func;
                        let old_data = func.values.replace(existing, ValueData { ty: Type::Void, def: ValueDef::Param(0), name: None });
                        func.values.replace(existing, ValueData { ty, def: ValueDef::Inst(inst_id), name: old_data.name });
                        proof {
                            assert forall|v: int| 0 <= v < func.values@.len() implies
                                ((#[trigger] func.values@[v]).def matches ValueDef::Inst(i) ==> i.0 < func.insts@.len()) by {
                                if v != existing.0 { assert(func.values@[v] == f2.values@[v]); }
                            }
                            assert forall|v: int| 0 <= v < func.values@.len() implies
                                ((#[trigger] func.values@[v]).def matches ValueDef::Param(k) ==> k < func.params@.len() || k == usize::MAX) by {
                                if v != existing.0 { assert(func.values@[v] == f2.values@[v]); }
                            }
                            assert forall|i: int| 0 <= i < func.insts@.len() implies
                                inst_refs_in(#[trigger] func.insts@[i], func.values@.len() as int, func.blocks@.len() as int) by {
                                assert(inst_refs_in(f2.insts@[i], f2.values@.len() as int, f2.blocks@.len() as int));
                            }
                            let names = names_of(val_map@);
                            let k = first_index(names, val_name@);
                            lemma_first_index_bound(names, val_name@);
                            assert(names[k].1 == existing);
                            let vv = values_view(f2.values@);
                            assert(values_view(func.values@) =~= vv.update(existing.0 as int, (ty, ValueDef::Inst(inst_id), vv[existing.0 as int].2)));
                        }
                    }
                    None => {
                        let ghost f2 = *func;
                        let new_id = func.create_value(ty, inst_id);
                        let ghost f3 = *func;
                        func.set_value_name(new_id, val_name.as_str());
                        let ghost vn = val_name@;
                        let ghost vm2 = val_map@;
                        val_map.push((val_name, new_id));
                        proof {
                            assert forall|v: int| 0 <= v < func.values@.len() implies
                                ((#[trigger] func.values@[v]).def matches ValueDef::Param(k) ==> k < func.params@.len() || k == usize::MAX) by {
                                if v < f2.values@.len() {
                                    assert(func.values@[v].def == f3.values@[v].def);
                                    assert(f3.values@[v] == f2.values@[v]);
                                }
                            }
                            assert forall|i: int| 0 <= i < func.insts@.len() implies
                                inst_refs_in(#[trigger] func.insts@[i], func.values@.len() as int, func.blocks@.len() as int) by {
                                assert(inst_refs_in(f2.insts@[i], f2.values@.len() as int, f2.blocks@.len() as int));
                            }
                            assert forall|i: int| 0 <= i < val_map@.len() implies (#[trigger] val_map@[i]).1.0 < func.values@.len() by {
                                if i < val_map@.len() - 1 {
                                    assert(val_map@[i] == val_map@.drop_last()[i]);
                                }
                            }
                            assert(names_of(val_map@) =~= names_of(vm2).push((vn, Value(f2.values@.len() as u32))));
                            assert(values_view(func.values@) =~= values_view(f2.values@).push((ty, ValueDef::Inst(inst_id), Some(vn))));
                        }
                    }
                }
            }
            None => {}
        }
        Ok(())
    }

    /// The statements and labels of a body, up to its closing brace.
    fn parse_body(&mut self, func: &mut Function, val_map: &mut Vec<(String, Value)>, block_map: &Vec<(String, Block)>) -> (r: Result<(), ParseError>)
        requires
            old(self).wf(),
            open_ok(old(func)),
            old(func).values@.len() < u32::MAX,
            vals_in(old(val_map)@, old(func).values@.len() as int),
            blocks_in(block_map@, old(func).blocks@.len() as int),
        ensures
            final(self).wf(),
            final(self).tokens == old(self).tokens,
            final(self).floats == old(self).floats,
            final(self).pos >= old(self).pos,
            open_ok(final(func)),
            final(func).blocks@.len() == old(func).blocks@.len(),
            block_names(final(func)) == block_names(old(func)),
            final(func).name == old(func).name,
            final(func).params == old(func).params,
            final(func).return_type == old(func).return_type,
            final(func).entry_block == old(func).entry_block,
            match sp_body(toks_of(old(self).tokens@), bstate(old(self).pos as int, None, old(val_map)@, old(func)),
                names_of(block_map@), old(self).floats.entries@) {
                Some(end) => r is Ok && final(self).pos == end.0 && names_of(final(val_map)@) == end.2
                    && values_view(final(func).values@) == end.3 && fview(final(func)).insts == end.4 && block_insts(final(func)) == end.5,
                None => r is Err,
            },
    {
        let ghost toks = toks_of(self.tokens@);
        let ghost bm = names_of(block_map@);
        let ghost fl = self.floats.entries@;
        let ghost st0 = bstate(self.pos as int, None, val_map@, func);
        let mut current_block: Option<Block> = None;
        let mut done = false;
        while !done && self.pos < self.tokens.len()
            invariant
                self.wf(),
                self.tokens == old(self).tokens,
                self.floats == old(self).floats,
                self.pos >= old(self).pos,
                toks == toks_of(self.tokens@),
                bm == names_of(block_map@),
                fl == self.floats.entries@,
                st0 == bstate(old(self).pos as int, None, old(val_map)@, old(func)),
                open_ok(func),
                func.values@.len() < u32::MAX,
                vals_in(val_map@, func.values@.len() as int),
                blocks_in(block_map@, func.blocks@.len() as int),
                func.blocks@.len() == old(func).blocks@.len(),
                block_names(func) == block_names(old(func)),
                func.name == old(func).name,
                func.params == old(func).params,
                func.return_type == old(func).return_type,
                func.entry_block == old(func).entry_block,
                current_block matches Some(b) ==> b.0 < func.blocks@.len(),
                sp_body(toks, st0, bm, fl) == (if done {
                    Some(bstate(self.pos as int, current_block, val_map@, func))
                } else {
                    sp_body(toks, bstate(self.pos as int, current_block, val_map@, func), bm, fl)
                }),
            decreases self.tokens@.len() - self.pos, if done { 0int } else { 1int },
        {
            let ghost p = self.pos as int;
            let ghost cur = bstate(p, current_block, val_map@, func);
            proof {
                assert(toks[p] == self.tokens@[p].value@);
                if p + 1 < self.tokens@.len() {
                    assert(toks[p + 1] == self.tokens@[p + 1].value@);
                }
            }
            if self.peek_is(&Token::RBrace) {
                self.next_token();
                done = true;
            } else if self.is_label_at(self.pos) {
                let label = self.expect_named(0)?;
                self.next_token();
                match find_name(block_map, label.as_str()) {
                    Some(b) => {
                        proof {
                            let k = first_index(bm, label@);
                            lemma_first_index_bound(bm, label@);
                            assert(bm[k].1 == block_map@[k].1);
                        }
                        current_block = Some(b);
                    }
                    None => {
                        let e = self.error(owned("Unknown basic block label"));
                        return Err(e);
                    }
                }
            } else {
                let block = match current_block {
                    Some(b) => b,
                    None => {
                        let e = self.error(owned("Instruction found outside of any basic block"));
                        return Err(e);
                    }
                };
                self.parse_statement(func, val_map, block_map, block)?;
            }
        }
        Ok(())
    }

    /// A function definition: `func @name(params) -> type { body }`; the
    /// function is added to the module once every value it refers to is
    /// defined.
    fn parse_func(&mut self, module: &mut Module) -> (r: Result<(), ParseError>)
        requires
            old(self).wf(),
            module_closed(old(module)),
        ensures
            final(self).wf(),
            final(self).tokens == old(self).tokens,
            final(self).floats == old(self).floats,
            final(self).pos >= old(self).pos,
            r is Ok ==> final(self).pos > old(self).pos,
            module_closed(final(module)),
            final(module).externs == old(module).externs,
            r is Ok ==> final(module).functions@.len() == old(module).functions@.len() + 1
                && final(module).functions@.drop_last() == old(module).functions@,
            r is Err ==> final(module).functions@ == old(module).functions@,
            old(module).functions@.len() >= u32::MAX ==> r is Err,
            match sp_func(toks_of(old(self).tokens@), old(self).pos as int, old(self).floats.entries@) {
                Some((fv, p)) => old(module).functions@.len() < u32::MAX ==> r is Ok && final(self).pos == p
                    && fview(&final(module).functions@.last()) == fv,
                None => r is Err,
            },
    {
        let ghost toks = toks_of(self.tokens@);
        let ghost fl = self.floats.entries@;
        let ghost p = self.pos as int;
        proof {
            reveal(sp_func);
            if p < self.tokens@.len() {
                assert(toks[p] == self.tokens@[p].value@);
            }
            if p + 1 < self.tokens@.len() {
                assert(toks[p + 1] == self.tokens@[p + 1].value@);
            }
            if p + 2 < self.tokens@.len() {
                assert(toks[p + 2] == self.tokens@[p + 2].value@);
            }
        }
        self.expect_token(Token::Func)?;
        let name = self.expect_named(1)?;
        self.expect_token(Token::LParen)?;
        let mut func = Function::new(name.as_str(), Type::Void);
        let mut val_map: Vec<(String, Value)> = Vec::new();
        proof {
            assert(names_of(val_map@) =~= Seq::<(Seq<char>, Value)>::empty());
            assert(fview(&func).params =~= Seq::<(Seq<char>, Value, Type)>::empty());
            assert(values_view(func.values@) =~= Seq::<VView>::empty());
        }
        self.parse_param_list(&mut func, &mut val_map)?;
        let ghost p1 = self.pos as int;
        proof {
            if p1 < self.tokens@.len() {
                assert(toks[p1] == self.tokens@[p1].value@);
            }
            if p1 + 1 < self.tokens@.len() {
                assert(toks[p1 + 1] == self.tokens@[p1 + 1].value@);
            }
        }
        self.expect_token(Token::RParen)?;
        self.expect_token(Token::Arrow)?;
        let return_type = self.parse_type()?;
        func.return_type = return_type;
        let ghost p2 = self.pos as int;
        proof {
            if p2 < self.tokens@.len() {
                assert(toks[p2] == self.tokens@[p2].value@);
            }
        }
        self.expect_token(Token::LBrace)?;
        let mut block_map: Vec<(String, Block)> = Vec::new();
        self.scan_blocks(&mut func, &mut block_map)?;
        let ghost bnames = sp_scan(toks, p2 + 1, 1, seq![]).unwrap();
        let ghost f2 = func;
        proof {
            assert(self.pos == p2 + 1);
            assert(sp_scan(toks, p2 + 1, 1, seq![]) is Some);
            assert(fview(&f2).blocks == Seq::new(bnames.len(), |k: int| (bnames[k], Seq::<Inst>::empty())));
            assert(fview(&f2).blocks.len() == f2.blocks@.len());
            assert(fview(&f2).insts =~= Seq::<ParsedInst>::empty());
            assert(block_insts(&f2) =~= Seq::new(bnames.len(), |k: int| Seq::<Inst>::empty())) by {
                assert forall|k: int| 0 <= k < bnames.len() implies block_insts(&f2)[k] == Seq::<Inst>::empty() by {
                    assert(fview(&f2).blocks[k] == (bnames[k], Seq::<Inst>::empty()));
                    assert(fview(&f2).blocks[k].1 == f2.blocks@[k].insts@);
                }
            }
            assert(block_names(&f2) =~= bnames) by {
                assert forall|k: int| 0 <= k < bnames.len() implies block_names(&f2)[k] == bnames[k] by {
                    assert(fview(&f2).blocks[k] == (bnames[k], Seq::<Inst>::empty()));
                    assert(fview(&f2).blocks[k].0 == f2.blocks@[k].name@);
                }
            }
        }
        let ghost st0 = bstate(self.pos as int, None, val_map@, &f2);
        let ghost end = sp_body(toks, st0, names_of(block_map@), fl);
        self.parse_body(&mut func, &mut val_map, &block_map)?;

        proof {
            assert(end is Some);
            assert((exists|v: int| 0 <= v < end.unwrap().3.len() && (#[trigger] end.unwrap().3[v]).1 == ValueDef::Param(usize::MAX))
                ==> sp_func(toks, p, fl) is None);
        }
        // Every value that was referred to must have been defined.
        let vals = func.values.as_slice();
        let mut i: usize = 0;
        while i < vals.len()
            invariant
                self.wf(),
                self.tokens == old(self).tokens,
                self.floats == old(self).floats,
                self.pos > old(self).pos,
                module_closed(module),
                module.externs == old(module).externs,
                module.functions@ == old(module).functions@,
                toks == toks_of(old(self).tokens@),
                p == old(self).pos as int,
                fl == old(self).floats.entries@,
                end is Some,
                end.unwrap().3 == values_view(vals@),
                (exists|v: int| 0 <= v < end.unwrap().3.len() && (#[trigger] end.unwrap().3[v]).1 == ValueDef::Param(usize::MAX))
                    ==> sp_func(toks, p, fl) is None,
                vals@ == func.values@,
                i <= vals@.len(),
                forall|v: int| 0 <= v < i ==> !(vals@[v].def == ValueDef::Param(usize::MAX)),
            decreases vals@.len() - i,
        {
            if let ValueDef::Param(k) = vals[i].def {
                if k == usize::MAX {
                    let mut m = owned("Undefined SSA value reference '%");
                    match &vals[i].name {
                        Some(n) => push_str(&mut m, n.as_str()),
                        None => push_str(&mut m, "?"),
                    }
                    push_str(&mut m, "' in function '@");
                    push_str(&mut m, func.name.as_str());
                    push_str(&mut m, "'");
                    let e = self.error(m);
                    proof {
                        assert(values_view(func.values@)[i as int].1 == ValueDef::Param(usize::MAX));
                        assert(end.unwrap().3[i as int].1 == ValueDef::Param(usize::MAX));
                    }
                    return Err(e);
                }
            }
            i = i + 1;
        }
        proof {
            assert(!exists|v: int| 0 <= v < values_view(func.values@).len()
                && (#[trigger] values_view(func.values@)[v]).1 == ValueDef::Param(usize::MAX)) by {
                assert forall|v: int| 0 <= v < values_view(func.values@).len() implies
                    (#[trigger] values_view(func.values@)[v]).1 != ValueDef::Param(usize::MAX) by {
                    assert(!(vals@[v].def == ValueDef::Param(usize::MAX)));
                }
            }
        }
        if module.functions.len() >= 4294967295 {
            let e = self.error(owned("Too many functions in one module"));
            return Err(e);
        }
        proof {
            assert forall|v: int| 0 <= v < func.values@.len() implies
                ((#[trigger] func.values@[v]).def matches ValueDef::Param(k) ==> k < func.params@.len()) by {
                assert(!(vals@[v].def == ValueDef::Param(usize::MAX)));
            }
            assert(func.closed());
            assert(block_names(&func) == bnames);
            assert(fview(&func).blocks =~= Seq::new(bnames.len(), |k: int| (bnames[k], end.unwrap().5[k]))) by {
                assert forall|k: int| 0 <= k < bnames.len() implies
                    fview(&func).blocks[k] == (bnames[k], end.unwrap().5[k]) by {
                    assert(block_names(&func)[k] == bnames[k]);
                    assert(block_insts(&func)[k] == end.unwrap().5[k]);
                }
            }
        }
        let ghost m0 = *module;
        module.add_function(func);
        proof {
            assert forall|i: int| 0 <= i < module.functions@.len() implies (#[trigger] module.functions@[i]).closed() by {
                if i < m0.functions@.len() {
                    assert(module.functions@[i] == m0.functions@[i]);
                }
            }
            assert(module.functions@.drop_last() =~= m0.functions@);
        }
        Ok(())
    }

    /// Parses the externs and functions of a module, up to the end of the tokens.
    pub fn parse_module(&mut self) -> (r: Result<Module, ParseError>)
        requires
            old(self).wf(),
        ensures
            final(self).wf(),
            r matches Ok(m) ==> module_closed(&m),
            match sp_module(toks_of(old(self).tokens()), old(self).position(), empty_mview(), old(self).float_table()) {
                Some(mv) => r matches Ok(m) && mview(&m) == mv,
                None => r is Err,
            },
    {
        let ghost toks = toks_of(self.tokens@);
        let ghost fl = self.floats.entries@;
        let ghost whole = sp_module(toks, self.pos as int, empty_mview(), fl);
        let mut module = Module::new();
        proof {
            assert(mview(&module).externs =~= empty_mview().externs);
            assert(mview(&module).functions =~= empty_mview().functions);
        }
        while self.pos < self.tokens.len()
            invariant
                self.wf(),
                module_closed(&module),
                toks == toks_of(self.tokens@),
                fl == self.floats.entries@,
                whole == sp_module(toks, self.pos as int, mview(&module), fl),
                whole == sp_module(toks_of(old(self).tokens()), old(self).position(), empty_mview(), old(self).float_table()),
            decreases self.tokens@.len() - self.pos,
        {
            let ghost p = self.pos as int;
            let ghost m0 = module;
            proof {
                assert(toks[p] == self.tokens@[p].value@);
            }
            if self.peek_is(&Token::Extern) {
                match self.parse_extern(&mut module) {
                    Ok(()) => {},
                    Err(e) => {
                        proof {
                            assert(sp_extern(toks, p) is None);
                            assert(whole is None);
                        }
                        return Err(e);
                    },
                }
                proof {
                    let (n, ps, ret, p2) = sp_extern(toks, p).unwrap();
                    assert(whole == sp_module(toks, p2, mview(&m0).add_extern(n, ps, ret), fl));
                    lemma_mview_add_extern(&m0, &module);
                }
            } else if self.peek_is(&Token::Func) {
                match self.parse_func(&mut module) {
                    Ok(()) => {},
                    Err(e) => {
                        proof {
                            if module.functions@.len() < u32::MAX {
                                assert(sp_func(toks, p, fl) is None);
                            }
                            assert(whole is None);
                        }
                        return Err(e);
                    },
                }
                proof {
                    let (f, p2) = sp_func(toks, p, fl).unwrap();
                    assert(whole == sp_module(toks, p2, mview(&m0).add_function(f), fl));
                    lemma_mview_add_function(&m0, &module);
                }
            } else {
                let tok = self.peek().unwrap();
                let m = Self::found("Expected 'extern' or 'func', found '", &tok.value);
                let e = self.error(m);
                proof {
                    assert(whole is None);
                }
                return Err(e);
            }
        }
        Ok(module)
    }
}

/// Parses a module from its text. `floats` gives the value of each float
/// literal that the text may hold.
pub fn parse(input: &str, floats: &FloatLiterals) -> (r: Result<Module, ParseError>)
    ensures
        r matches Ok(m) ==> module_closed(&m),
        input.spec_bytes().len() >= usize::MAX ==> r is Err,
        input.spec_bytes().len() < usize::MAX ==> match crate::lexer::lex(input.spec_bytes()) {
            Ok(ts) => if ts.len() >= usize::MAX {
                r is Err
            } else {
                match sp_module(token_kinds(ts), 0, empty_mview(), floats.entries@) {
                    Some(mv) => r matches Ok(m) && mview(&m) == mv,
                    None => r is Err,
                }
            },
            Err(f) => r matches Err(e) && e.line == f.line && e.col == f.col && e.message@ == f.message,
        },
{
    if input.as_bytes().len() >= usize::MAX {
        return Err(ParseError { message: owned("Input too large"), line: 1, col: 1 });
    }
    let mut lexer = Lexer::new(input);
    let tokens = match lexer.tokenize() {
        Ok(t) => t,
        Err(e) => { return Err(ParseError::from_lex(e)); }
    };
    if tokens.len() >= usize::MAX {
        return Err(ParseError { message: owned("Input too large"), line: 1, col: 1 });
    }
    let mut parser = Parser::new(tokens.as_slice(), floats);
    proof {
        assert(toks_of(tokens@) =~= token_kinds(crate::lexer::spans_view(tokens@)));
    }
    parser.parse_module()
}

// ---------------------------------------------------------------------------
// What the tokens of a module read as

/// A module as the parser builds it: its externs (name, parameter types,
/// return type) and its functions, in the order they appear.
pub struct MView {
    pub externs: Seq<(Seq<char>, Seq<Type>, Type)>,
    pub functions: Seq<FView>,
}

impl MView {
    pub open spec fn add_extern(self, n: Seq<char>, ps: Seq<Type>, ret: Type) -> MView {
        MView { externs: self.externs.push((n, ps, ret)), functions: self.functions }
    }

    pub open spec fn add_function(self, f: FView) -> MView {
        MView { externs: self.externs, functions: self.functions.push(f) }
    }
}

pub open spec fn empty_mview() -> MView {
    MView { externs: seq![], functions: seq![] }
}

pub open spec fn mview(m: &Module) -> MView {
    MView {
        externs: Seq::new(m.externs@.len(), |i: int| (m.externs@[i].name@, m.externs@[i].params@, m.externs@[i].return_type)),
        functions: Seq::new(m.functions@.len(), |i: int| fview(&m.functions@[i])),
    }
}

pub proof fn lemma_mview_add_extern(m0: &Module, m: &Module)
    requires
        m.functions == m0.functions,
        m.externs@.len() == m0.externs@.len() + 1,
        m.externs@.drop_last() == m0.externs@,
    ensures
        mview(m) == mview(m0).add_extern(m.externs@.last().name@, m.externs@.last().params@, m.externs@.last().return_type),
{
    assert forall|i: int| 0 <= i < m0.externs@.len() implies m.externs@[i] == m0.externs@[i] by {
        assert(m.externs@[i] == m.externs@.drop_last()[i]);
    }
    assert(mview(m).externs =~= mview(m0).externs.push(
        (m.externs@.last().name@, m.externs@.last().params@, m.externs@.last().return_type)));
    assert(mview(m).functions =~= mview(m0).functions);
}

pub proof fn lemma_mview_add_function(m0: &Module, m: &Module)
    requires
        m.externs == m0.externs,
        m.functions@.len() == m0.functions@.len() + 1,
        m.functions@.drop_last() == m0.functions@,
    ensures
        mview(m) == mview(m0).add_function(fview(&m.functions@.last())),
{
    assert forall|i: int| 0 <= i < m0.functions@.len() implies m.functions@[i] == m0.functions@[i] by {
        assert(m.functions@[i] == m.functions@.drop_last()[i]);
    }
    assert(mview(m).functions =~= mview(m0).functions.push(fview(&m.functions@.last())));
    assert(mview(m).externs =~= mview(m0).externs);
}

/// The kinds of lexed tokens, without their places.
pub open spec fn token_kinds(ts: Seq<(Tok, int, int)>) -> Seq<Tok> {
    Seq::new(ts.len(), |i: int| ts[i].0)
}

/// The items of a module from `pos` to the end of the tokens: `extern` and
/// `func` definitions, in any order.
pub open spec fn sp_module(toks: Seq<Tok>, pos: int, acc: MView, floats: Seq<(String, u64)>) -> Option<MView>
    decreases toks.len() - pos,
{
    if !(0 <= pos < toks.len()) {
        Some(acc)
    } else if toks[pos] == Tok::Keyword(1) {
        match sp_extern(toks, pos) {
            Some((n, ps, ret, p)) => if pos < p <= toks.len() { sp_module(toks, p, acc.add_extern(n, ps, ret), floats) } else { None },
            None => None,
        }
    } else if toks[pos] == Tok::Keyword(0) {
        if acc.functions.len() >= u32::MAX {
            None
        } else {
            match sp_func(toks, pos, floats) {
                Some((f, p)) => if pos < p <= toks.len() { sp_module(toks, p, acc.add_function(f), floats) } else { None },
                None => None,
            }
        }
    } else {
        None
    }
}

// ---------------------------------------------------------------------------
// What the tokens of an instruction read as

/// The parser's place in the tokens, the value names it knows (each with its
/// value), and the number of values of the function it builds.
pub type PState = (int, Seq<(Seq<char>, Value)>, Seq<VView>);

/// The tokens, as values.
pub open spec fn toks_of(ts: Seq<Spanned<Token>>) -> Seq<Tok> {
    Seq::new(ts.len(), |i: int| ts[i].value@)
}

/// A table keyed by strings, with its keys as character sequences.
pub open spec fn names_of<T>(m: Seq<(String, T)>) -> Seq<(Seq<char>, T)> {
    Seq::new(m.len(), |i: int| (m[i].0@, m[i].1))
}

/// `m[k]` is the first entry of the table named `n`.
pub open spec fn first_at<T>(m: Seq<(Seq<char>, T)>, n: Seq<char>, k: int) -> bool {
    &&& 0 <= k < m.len()
    &&& m[k].0 == n
    &&& forall|j: int| 0 <= j < k ==> (#[trigger] m[j]).0 != n
}

/// The index of the first entry named `n`, or -1 when there is none.
pub open spec fn first_index<T>(m: Seq<(Seq<char>, T)>, n: Seq<char>) -> int {
    if exists|k: int| first_at(m, n, k) { choose|k: int| first_at(m, n, k) } else { -1 }
}

pub proof fn lemma_first_index<T>(m: Seq<(Seq<char>, T)>, n: Seq<char>, k: int)
    requires
        first_at(m, n, k),
    ensures
        first_index(m, n) == k,
{
    let c = choose|c: int| first_at(m, n, c);
    if c < k {
        assert(m[c].0 != n);
    } else if c > k {
        assert(m[k].0 != n);
    }
}

pub proof fn lemma_first_index_bound<T>(m: Seq<(Seq<char>, T)>, n: Seq<char>)
    ensures
        -1 <= first_index(m, n) < m.len(),
        first_index(m, n) >= 0 ==> first_at(m, n, first_index(m, n)),
{
}

pub proof fn lemma_no_index<T>(m: Seq<(Seq<char>, T)>, n: Seq<char>)
    requires
        forall|j: int| 0 <= j < m.len() ==> (#[trigger] m[j]).0 != n,
    ensures
        first_index(m, n) == -1,
{
    if exists|k: int| first_at(m, n, k) {
        let k = choose|k: int| first_at(m, n, k);
        assert(m[k].0 != n);
    }
}

/// A value as the parser sees it: its type, its definition and its name.
pub type VView = (Type, ValueDef, Option<Seq<char>>);

pub open spec fn value_view(d: ValueData) -> VView {
    (d.ty, d.def, match d.name { Some(s) => Some(s@), None => None })
}

pub open spec fn values_view(s: Seq<ValueData>) -> Seq<VView> {
    Seq::new(s.len(), |i: int| value_view(s[i]))
}

/// The value that a reference to a name not yet defined creates.
pub open spec fn placeholder(n: Seq<char>) -> VView {
    (Type::Void, ValueDef::Param(usize::MAX), Some(n))
}

/// What a value reference did: the parser moved on as `sp_value` says, and
/// the names and the values grew as it says.
pub open spec fn value_read(
    toks: Seq<Tok>,
    pos: int,
    vm: Seq<(String, Value)>,
    vals: Seq<ValueData>,
    r: Result<Value, ParseError>,
    pos2: int,
    vm2: Seq<(String, Value)>,
    vals2: Seq<ValueData>,
) -> bool {
    match sp_value(toks, (pos, names_of(vm), values_view(vals))) {
        Some((v, st)) => r == Ok::<Value, ParseError>(v) && pos2 == st.0 && names_of(vm2) == st.1 && values_view(vals2) == st.2,
        None => r is Err,
    }
}

/// Values are refused once the function holds this many.
pub open spec fn value_limit() -> nat {
    4294967294
}

/// A `%name` reference: the value of the name when it is known, and
/// otherwise a new value, the next one, under that name.
pub open spec fn sp_value(toks: Seq<Tok>, st: PState) -> Option<(Value, PState)> {
    if st.2.len() >= value_limit() || !(0 <= st.0 < toks.len()) {
        None
    } else {
        match toks[st.0] {
            Tok::ValueName(n) => {
                let k = first_index(st.1, n);
                if k >= 0 {
                    Some((st.1[k].1, (st.0 + 1, st.1, st.2)))
                } else {
                    let v = Value(st.2.len() as u32);
                    Some((v, (st.0 + 1, st.1.push((n, v)), st.2.push(placeholder(n)))))
                }
            },
            _ => None,
        }
    }
}

/// The expected token, then what follows it.
pub open spec fn sp_expect(toks: Seq<Tok>, st: PState, t: Tok) -> Option<PState> {
    if 0 <= st.0 < toks.len() && toks[st.0] == t { Some((st.0 + 1, st.1, st.2)) } else { None }
}

/// A type name.
pub open spec fn sp_type(toks: Seq<Tok>, st: PState) -> Option<(Type, PState)> {
    if 0 <= st.0 < toks.len() && toks[st.0] is Ident && exists|t: Type| t.name() == toks[st.0]->Ident_0 {
        Some((choose|t: Type| t.name() == toks[st.0]->Ident_0, (st.0 + 1, st.1, st.2)))
    } else {
        None
    }
}

/// A comparison operator's name.
pub open spec fn sp_comparison(toks: Seq<Tok>, st: PState) -> Option<(CmpOp, PState)> {
    if 0 <= st.0 < toks.len() && toks[st.0] is Ident && exists|op: CmpOp| op.name() == toks[st.0]->Ident_0 {
        Some((choose|op: CmpOp| op.name() == toks[st.0]->Ident_0, (st.0 + 1, st.1, st.2)))
    } else {
        None
    }
}

/// An integer literal.
pub open spec fn sp_int(toks: Seq<Tok>, st: PState) -> Option<(i64, PState)> {
    if 0 <= st.0 < toks.len() && toks[st.0] is Int { Some((toks[st.0]->Int_0, (st.0 + 1, st.1, st.2))) } else { None }
}

/// The name under which a token refers to a block: an identifier's text, or
/// else the token's text.
pub open spec fn block_name_of(t: Tok) -> Seq<char> {
    match t {
        Tok::Ident(s) => s,
        _ => tok_text(t),
    }
}

/// A block reference: a block of the table, by name.
pub open spec fn sp_block(toks: Seq<Tok>, st: PState, blocks: Seq<(Seq<char>, Block)>) -> Option<(Block, PState)> {
    if !(0 <= st.0 < toks.len()) {
        None
    } else {
        let k = first_index(blocks, block_name_of(toks[st.0]));
        if k >= 0 { Some((blocks[k].1, (st.0 + 1, st.1, st.2))) } else { None }
    }
}

/// Two value references separated by a comma.
pub open spec fn sp_pair(toks: Seq<Tok>, st: PState) -> Option<(Value, Value, PState)> {
    match sp_value(toks, st) {
        Some((a, s1)) => match sp_expect(toks, s1, Tok::Punct(8)) {
            Some(s2) => match sp_value(toks, s2) {
                Some((b, s3)) => Some((a, b, s3)),
                None => None,
            },
            None => None,
        },
        None => None,
    }
}

/// What an instruction reads as: the instruction itself, or the parts of a
/// call or of a phi.
pub enum ParsedInst {
    Plain(Instruction),
    Call(Seq<char>, Seq<Value>),
    Phi(Seq<(Block, Value)>),
}

/// An instruction as the parser reads it.
pub open spec fn inst_view(i: Instruction) -> ParsedInst {
    match i {
        Instruction::Call(n, a) => ParsedInst::Call(n@, a@),
        Instruction::Phi(ps) => ParsedInst::Phi(ps@),
        _ => ParsedInst::Plain(i),
    }
}

/// The instruction is what was read.
pub open spec fn parsed_as(i: Instruction, p: ParsedInst) -> bool {
    inst_view(i) == p
}

/// The keywords of the two-operand arithmetic and bitwise instructions.
pub open spec fn is_binary_keyword(k: int) -> bool {
    (4 <= k <= 8) || (11 <= k <= 16)
}

pub open spec fn binary_of(k: int, a: Value, b: Value) -> Instruction {
    if k == 4 {
        Instruction::Add(a, b)
    } else if k == 5 {
        Instruction::Sub(a, b)
    } else if k == 6 {
        Instruction::Mul(a, b)
    } else if k == 7 {
        Instruction::Div(a, b)
    } else if k == 8 {
        Instruction::Rem(a, b)
    } else if k == 11 {
        Instruction::And(a, b)
    } else if k == 12 {
        Instruction::Or(a, b)
    } else if k == 13 {
        Instruction::Xor(a, b)
    } else if k == 14 {
        Instruction::Shl(a, b)
    } else if k == 15 {
        Instruction::Shr(a, b)
    } else {
        Instruction::Sar(a, b)
    }
}

/// The arguments of a call, up to the closing parenthesis: value
/// references separated by commas.
pub open spec fn sp_args(toks: Seq<Tok>, st: PState, acc: Seq<Value>) -> Option<(Seq<Value>, PState)>
    decreases toks.len() - st.0,
{
    if !(0 <= st.0 < toks.len()) || toks[st.0] == Tok::Punct(3) {
        Some((acc, st))
    } else {
        match sp_value(toks, st) {
            None => None,
            Some((v, s1)) => {
                if 0 <= s1.0 < toks.len() && toks[s1.0] == Tok::Punct(8) {
                    sp_args(toks, (s1.0 + 1, s1.1, s1.2), acc.push(v))
                } else {
                    Some((acc.push(v), s1))
                }
            },
        }
    }
}

/// The incoming pairs of a phi: `[ %value, block ]` separated by commas.
pub open spec fn sp_pairs(toks: Seq<Tok>, st: PState, blocks: Seq<(Seq<char>, Block)>, acc: Seq<(Block, Value)>)
    -> Option<(Seq<(Block, Value)>, PState)>
    decreases toks.len() - st.0,
{
    if !(0 <= st.0 < toks.len()) || toks[st.0] != Tok::Punct(4) {
        Some((acc, st))
    } else {
        match sp_value(toks, (st.0 + 1, st.1, st.2)) {
            None => None,
            Some((v, s1)) => match sp_expect(toks, s1, Tok::Punct(8)) {
                None => None,
                Some(s2) => match sp_block(toks, s2, blocks) {
                    None => None,
                    Some((b, s3)) => match sp_expect(toks, s3, Tok::Punct(5)) {
                        None => None,
                        Some(s4) => {
                            if 0 <= s4.0 < toks.len() && toks[s4.0] == Tok::Punct(8) {
                                sp_pairs(toks, (s4.0 + 1, s4.1, s4.2), blocks, acc.push((b, v)))
                            } else {
                                Some((acc.push((b, v)), s4))
                            }
                        },
                    },
                },
            },
        }
    }
}

/// The text of a `const.float` operand: a float literal's text, or an
/// integer's decimal text.
pub open spec fn float_text_of(t: Tok) -> Option<Seq<char>> {
    match t {
        Tok::Float(s) => Some(s),
        Tok::Int(i) => Some(crate::text::int_text(i as int)),
        _ => None,
    }
}

/// What an instruction's operands read as, and where the parser ends.
pub type InstRead = Option<(ParsedInst, PState)>;

pub open spec fn sp_const_int(toks: Seq<Tok>, s1: PState) -> InstRead {
    match sp_int(toks, s1) {
        Some((i, s2)) => Some((ParsedInst::Plain(Instruction::Const(Immediate::I64(i))), s2)),
        None => None,
    }
}

pub open spec fn sp_const_float(toks: Seq<Tok>, s1: PState, floats: Seq<(String, u64)>) -> InstRead {
    if 0 <= s1.0 < toks.len() {
        match float_text_of(toks[s1.0]) {
            Some(t) => match float_bits_of(floats, t) {
                Some(bits) => Some((ParsedInst::Plain(Instruction::Const(Immediate::F64(bits))), (s1.0 + 1, s1.1, s1.2))),
                None => None,
            },
            None => None,
        }
    } else {
        None
    }
}

pub open spec fn sp_binary(toks: Seq<Tok>, k: int, s1: PState) -> InstRead {
    match sp_pair(toks, s1) {
        Some((a, b, s2)) => Some((ParsedInst::Plain(binary_of(k, a, b)), s2)),
        None => None,
    }
}

pub open spec fn sp_unary(toks: Seq<Tok>, k: int, s1: PState) -> InstRead {
    match sp_value(toks, s1) {
        Some((a, s2)) => Some((ParsedInst::Plain(if k == 9 { Instruction::Neg(a) } else { Instruction::Not(a) }), s2)),
        None => None,
    }
}

pub open spec fn sp_compare(toks: Seq<Tok>, s1: PState) -> InstRead {
    match sp_comparison(toks, s1) {
        Some((op, s2)) => match sp_pair(toks, s2) {
            Some((a, b, s3)) => Some((ParsedInst::Plain(Instruction::Cmp(op, a, b)), s3)),
            None => None,
        },
        None => None,
    }
}

pub open spec fn sp_alloca(toks: Seq<Tok>, s1: PState) -> InstRead {
    match sp_type(toks, s1) {
        Some((t, s2)) => Some((ParsedInst::Plain(Instruction::Alloca(t)), s2)),
        None => None,
    }
}

pub open spec fn sp_load(toks: Seq<Tok>, s1: PState) -> InstRead {
    match sp_type(toks, s1) {
        Some((t, s2)) => match sp_expect(toks, s2, Tok::Punct(8)) {
            Some(s3) => match sp_value(toks, s3) {
                Some((p, s4)) => match sp_expect(toks, s4, Tok::Punct(8)) {
                    Some(s5) => match sp_int(toks, s5) {
                        Some((off, s6)) => Some((ParsedInst::Plain(Instruction::Load(t, p, off as i32)), s6)),
                        None => None,
                    },
                    None => None,
                },
                None => None,
            },
            None => None,
        },
        None => None,
    }
}

pub open spec fn sp_store(toks: Seq<Tok>, s1: PState) -> InstRead {
    match sp_pair(toks, s1) {
        Some((a, b, s2)) => match sp_expect(toks, s2, Tok::Punct(8)) {
            Some(s3) => match sp_int(toks, s3) {
                Some((off, s4)) => Some((ParsedInst::Plain(Instruction::Store(a, b, off as i32)), s4)),
                None => None,
            },
            None => None,
        },
        None => None,
    }
}

pub open spec fn sp_jmp(toks: Seq<Tok>, s1: PState, blocks: Seq<(Seq<char>, Block)>) -> InstRead {
    match sp_block(toks, s1, blocks) {
        Some((b, s2)) => Some((ParsedInst::Plain(Instruction::Jmp(b)), s2)),
        None => None,
    }
}

pub open spec fn sp_br(toks: Seq<Tok>, s1: PState, blocks: Seq<(Seq<char>, Block)>) -> InstRead {
    match sp_value(toks, s1) {
        Some((c, s2)) => match sp_expect(toks, s2, Tok::Punct(8)) {
            Some(s3) => match sp_block(toks, s3, blocks) {
                Some((t, s4)) => match sp_expect(toks, s4, Tok::Punct(8)) {
                    Some(s5) => match sp_block(toks, s5, blocks) {
                        Some((f, s6)) => Some((ParsedInst::Plain(Instruction::Br(c, t, f)), s6)),
                        None => None,
                    },
                    None => None,
                },
                None => None,
            },
            None => None,
        },
        None => None,
    }
}

pub open spec fn sp_ret(toks: Seq<Tok>, s1: PState) -> InstRead {
    if 0 <= s1.0 < toks.len() && toks[s1.0] is ValueName {
        match sp_value(toks, s1) {
            Some((v, s2)) => Some((ParsedInst::Plain(Instruction::Ret(Some(v))), s2)),
            None => None,
        }
    } else {
        Some((ParsedInst::Plain(Instruction::Ret(None)), s1))
    }
}

pub open spec fn sp_call(toks: Seq<Tok>, s1: PState) -> InstRead {
    if 0 <= s1.0 < toks.len() && toks[s1.0] is FuncName {
        match sp_expect(toks, (s1.0 + 1, s1.1, s1.2), Tok::Punct(2)) {
            Some(s3) => match sp_args(toks, s3, seq![]) {
                Some((args, s4)) => match sp_expect(toks, s4, Tok::Punct(3)) {
                    Some(s5) => Some((ParsedInst::Call(toks[s1.0]->FuncName_0, args), s5)),
                    None => None,
                },
                None => None,
            },
            None => None,
        }
    } else {
        None
    }
}

pub open spec fn sp_phi(toks: Seq<Tok>, s1: PState, blocks: Seq<(Seq<char>, Block)>) -> InstRead {
    match sp_pairs(toks, s1, blocks, seq![]) {
        Some((ps, s2)) => Some((ParsedInst::Phi(ps), s2)),
        None => None,
    }
}

/// What follows the opcode with keyword number `k`.
pub open spec fn sp_operands(toks: Seq<Tok>, k: int, s1: PState, blocks: Seq<(Seq<char>, Block)>, floats: Seq<(String, u64)>) -> InstRead {
    if k == 2 {
        sp_const_int(toks, s1)
    } else if k == 3 {
        sp_const_float(toks, s1, floats)
    } else if is_binary_keyword(k) {
        sp_binary(toks, k, s1)
    } else if k == 9 || k == 10 {
        sp_unary(toks, k, s1)
    } else if k == 17 {
        sp_compare(toks, s1)
    } else if k == 18 {
        sp_alloca(toks, s1)
    } else if k == 19 {
        sp_load(toks, s1)
    } else if k == 20 {
        sp_store(toks, s1)
    } else if k == 21 {
        sp_jmp(toks, s1, blocks)
    } else if k == 22 {
        sp_br(toks, s1, blocks)
    } else if k == 23 {
        sp_ret(toks, s1)
    } else if k == 24 {
        sp_call(toks, s1)
    } else if k == 25 {
        sp_phi(toks, s1, blocks)
    } else {
        None
    }
}

/// One instruction, from its opcode on.
pub open spec fn sp_inst(toks: Seq<Tok>, st: PState, blocks: Seq<(Seq<char>, Block)>, floats: Seq<(String, u64)>) -> InstRead {
    if 0 <= st.0 < toks.len() && toks[st.0] is Keyword {
        sp_operands(toks, toks[st.0]->Keyword_0, (st.0 + 1, st.1, st.2), blocks, floats)
    } else {
        None
    }
}

/// What an instruction's parse did: the parser moved on as the reading
/// says, and the names and the values grew as it says.
pub open spec fn inst_read(
    read: InstRead,
    from: int,
    r: Result<Instruction, ParseError>,
    pos2: int,
    vm2: Seq<(String, Value)>,
    vals2: Seq<ValueData>,
) -> bool {
    match read {
        Some((pi, st)) => r matches Ok(inst) && parsed_as(inst, pi) && pos2 == st.0
            && names_of(vm2) == st.1 && values_view(vals2) == st.2,
        None => r is Err,
    }
}

/// A list of type names separated by commas, up to the closing parenthesis.
pub open spec fn sp_types(toks: Seq<Tok>, pos: int, acc: Seq<Type>) -> Option<(Seq<Type>, int)>
    decreases toks.len() - pos,
{
    if !(0 <= pos < toks.len()) || toks[pos] == Tok::Punct(3) {
        Some((acc, pos))
    } else {
        match sp_type(toks, (pos, seq![], seq![])) {
            None => None,
            Some((t, s)) => {
                if 0 <= s.0 < toks.len() && toks[s.0] == Tok::Punct(8) {
                    sp_types(toks, s.0 + 1, acc.push(t))
                } else {
                    Some((acc.push(t), s.0))
                }
            },
        }
    }
}

/// An external declaration: `extern func @name(types) -> type`; its name,
/// parameter types and return type, and where it ends.
pub open spec fn sp_extern(toks: Seq<Tok>, pos: int) -> Option<(Seq<char>, Seq<Type>, Type, int)> {
    if 0 <= pos && pos + 3 < toks.len() && toks[pos] == Tok::Keyword(1) && toks[pos + 1] == Tok::Keyword(0)
        && toks[pos + 2] is FuncName && toks[pos + 3] == Tok::Punct(2) {
        match sp_types(toks, pos + 4, seq![]) {
            Some((ps, p1)) => {
                if 0 <= p1 && p1 + 1 < toks.len() && toks[p1] == Tok::Punct(3) && toks[p1 + 1] == Tok::Punct(9) {
                    match sp_type(toks, (p1 + 2, seq![], seq![])) {
                        Some((ret, s)) => Some((toks[pos + 2]->FuncName_0, ps, ret, s.0)),
                        None => None,
                    }
                } else {
                    None
                }
            },
            None => None,
        }
    } else {
        None
    }
}

// ---------------------------------------------------------------------------
// What the tokens of a function read as

/// A function as the parser builds it: name, parameters, return type,
/// blocks (name and instructions), instructions, values and entry block.
pub struct FView {
    pub name: Seq<char>,
    pub params: Seq<(Seq<char>, Value, Type)>,
    pub ret: Type,
    pub blocks: Seq<(Seq<char>, Seq<Inst>)>,
    pub insts: Seq<ParsedInst>,
    pub values: Seq<VView>,
    pub entry: Option<Block>,
}

pub open spec fn fview(f: &Function) -> FView {
    FView {
        name: f.name@,
        params: Seq::new(f.params@.len(), |i: int| (f.params@[i].0@, f.params@[i].1, f.params@[i].2)),
        ret: f.return_type,
        blocks: Seq::new(f.blocks@.len(), |i: int| (f.blocks@[i].name@, f.blocks@[i].insts@)),
        insts: Seq::new(f.insts@.len(), |i: int| inst_view(f.insts@[i])),
        values: values_view(f.values@),
        entry: f.entry_block,
    }
}

/// The table of names after `n` is bound to `v`: the entry of the name is
/// replaced when there is one, and added otherwise.
pub open spec fn bind_name(names: Seq<(Seq<char>, Value)>, n: Seq<char>, v: Value) -> Seq<(Seq<char>, Value)> {
    let k = first_index(names, n);
    if k >= 0 { names.update(k, (n, v)) } else { names.push((n, v)) }
}

/// The parameters of a function, up to the closing parenthesis: `%name: type`
/// separated by commas. Each parameter defines the next value.
pub open spec fn sp_params(
    toks: Seq<Tok>,
    pos: int,
    names: Seq<(Seq<char>, Value)>,
    params: Seq<(Seq<char>, Value, Type)>,
    vals: Seq<VView>,
) -> Option<(int, Seq<(Seq<char>, Value)>, Seq<(Seq<char>, Value, Type)>, Seq<VView>)>
    decreases toks.len() - pos,
{
    if !(0 <= pos < toks.len()) || toks[pos] == Tok::Punct(3) {
        Some((pos, names, params, vals))
    } else if toks[pos] is ValueName && pos + 1 < toks.len() && toks[pos + 1] == Tok::Punct(6) {
        let n = toks[pos]->ValueName_0;
        match sp_type(toks, (pos + 2, seq![], seq![])) {
            Some((t, s)) => {
                if vals.len() >= value_limit() {
                    None
                } else {
                    let v = Value(vals.len() as u32);
                    let names2 = bind_name(names, n, v);
                    let params2 = params.push((n, v, t));
                    let vals2 = vals.push((t, ValueDef::Param(params.len() as usize), Some(n)));
                    if 0 <= s.0 < toks.len() && toks[s.0] == Tok::Punct(8) {
                        sp_params(toks, s.0 + 1, names2, params2, vals2)
                    } else {
                        Some((s.0, names2, params2, vals2))
                    }
                }
            },
            None => None,
        }
    } else {
        None
    }
}

/// The most blocks a function may have.
pub open spec fn block_limit() -> nat {
    4294967294
}

/// The block labels of a body, in the order they first appear, up to the
/// brace that closes it (`depth` braces are open).
pub open spec fn sp_scan(toks: Seq<Tok>, i: int, depth: int, names: Seq<Seq<char>>) -> Option<Seq<Seq<char>>>
    decreases toks.len() - i,
{
    if !(0 <= i < toks.len()) || depth <= 0 {
        Some(names)
    } else {
        match toks[i] {
            Tok::Punct(q) => {
                if q == 0 {
                    sp_scan(toks, i + 1, depth + 1, names)
                } else if q == 1 {
                    sp_scan(toks, i + 1, depth - 1, names)
                } else {
                    sp_scan(toks, i + 1, depth, names)
                }
            },
            Tok::Ident(n) => {
                if i + 1 < toks.len() && toks[i + 1] == Tok::Punct(6) && !names.contains(n) {
                    if names.len() >= block_limit() {
                        None
                    } else {
                        sp_scan(toks, i + 1, depth, names.push(n))
                    }
                } else {
                    sp_scan(toks, i + 1, depth, names)
                }
            },
            _ => sp_scan(toks, i + 1, depth, names),
        }
    }
}

/// The blocks named in a body, by name.
pub open spec fn block_table(names: Seq<Seq<char>>) -> Seq<(Seq<char>, Block)> {
    Seq::new(names.len(), |k: int| (names[k], Block(k as u32)))
}

/// The most instructions a function may have.
pub open spec fn inst_limit() -> nat {
    4294967294
}

/// The body's state: place, current block, names, values, instructions,
/// and each block's instructions.
pub type BState = (int, Option<Block>, Seq<(Seq<char>, Value)>, Seq<VView>, Seq<ParsedInst>, Seq<Seq<Inst>>);

/// What a value definition `%name: type =` does once its instruction `id` is
/// added: the value of a name already referred to becomes defined by it, and
/// otherwise a new value is.
pub open spec fn define(names: Seq<(Seq<char>, Value)>, vals: Seq<VView>, n: Seq<char>, t: Type, id: Inst)
    -> (Seq<(Seq<char>, Value)>, Seq<VView>)
{
    let k = first_index(names, n);
    if k >= 0 {
        let v = names[k].1.0 as int;
        (names, vals.update(v, (t, ValueDef::Inst(id), vals[v].2)))
    } else {
        (names.push((n, Value(vals.len() as u32))), vals.push((t, ValueDef::Inst(id), Some(n))))
    }
}

/// The result part of a statement, `%name: type =`, when there is one:
/// the name, the type and where the instruction starts.
pub open spec fn sp_result(toks: Seq<Tok>, pos: int) -> Option<(Option<(Seq<char>, Type)>, int)> {
    if 0 <= pos < toks.len() && toks[pos] is ValueName {
        if pos + 1 < toks.len() && toks[pos + 1] == Tok::Punct(6) {
            match sp_type(toks, (pos + 2, seq![], seq![])) {
                Some((t, s)) => {
                    if 0 <= s.0 < toks.len() && toks[s.0] == Tok::Punct(7) {
                        Some((Some((toks[pos]->ValueName_0, t)), s.0 + 1))
                    } else {
                        None
                    }
                },
                None => None,
            }
        } else {
            None
        }
    } else {
        Some((None, pos))
    }
}

/// One statement of a body whose current block is `b`: an optional result,
/// then an instruction, added to `b`.
pub open spec fn sp_statement(toks: Seq<Tok>, st: BState, b: Block, blocks: Seq<(Seq<char>, Block)>, floats: Seq<(String, u64)>) -> Option<BState> {
    match sp_result(toks, st.0) {
        Some((res, p1)) => match sp_inst(toks, (p1, st.2, st.3), blocks, floats) {
            Some((pi, s)) => {
                if st.4.len() >= inst_limit() || s.2.len() >= value_limit() || !(0 <= b.0 < st.5.len()) {
                    None
                } else {
                    let id = Inst(st.4.len() as u32);
                    let bi = st.5.update(b.0 as int, st.5[b.0 as int].push(id));
                    match res {
                        None => Some((s.0, st.1, s.1, s.2, st.4.push(pi), bi)),
                        Some((n, t)) => {
                            let d = define(s.1, s.2, n, t, id);
                            Some((s.0, st.1, d.0, d.1, st.4.push(pi), bi))
                        },
                    }
                }
            },
            None => None,
        },
        None => None,
    }
}

/// The statements and labels of a body, up to its closing brace.
pub open spec fn sp_body(toks: Seq<Tok>, st: BState, blocks: Seq<(Seq<char>, Block)>, floats: Seq<(String, u64)>) -> Option<BState>
    decreases toks.len() - st.0,
{
    let pos = st.0;
    if !(0 <= pos < toks.len()) {
        Some(st)
    } else if toks[pos] == Tok::Punct(1) {
        Some((pos + 1, st.1, st.2, st.3, st.4, st.5))
    } else if toks[pos] is Ident && pos + 1 < toks.len() && toks[pos + 1] == Tok::Punct(6) {
        let k = first_index(blocks, toks[pos]->Ident_0);
        if k >= 0 {
            sp_body(toks, (pos + 2, Some(blocks[k].1), st.2, st.3, st.4, st.5), blocks, floats)
        } else {
            None
        }
    } else {
        match st.1 {
            None => None,
            Some(b) => match sp_statement(toks, st, b, blocks, floats) {
                Some(st2) => if pos < st2.0 <= toks.len() { sp_body(toks, st2, blocks, floats) } else { None },
                None => None,
            },
        }
    }
}

/// A function: `func @name(params) -> type { body }`, and where it ends;
/// every value referred to in it must be defined.
#[verifier::opaque]
pub open spec fn sp_func(toks: Seq<Tok>, pos: int, floats: Seq<(String, u64)>) -> Option<(FView, int)> {
    if 0 <= pos && pos + 2 < toks.len() && toks[pos] == Tok::Keyword(0) && toks[pos + 1] is FuncName && toks[pos + 2] == Tok::Punct(2) {
        match sp_params(toks, pos + 3, seq![], seq![], seq![]) {
            Some((p1, names, params, vals)) => {
                if 0 <= p1 && p1 + 1 < toks.len() && toks[p1] == Tok::Punct(3) && toks[p1 + 1] == Tok::Punct(9) {
                    match sp_type(toks, (p1 + 2, seq![], seq![])) {
                        Some((ret, s)) => {
                            let p2 = s.0;
                            if 0 <= p2 < toks.len() && toks[p2] == Tok::Punct(0) {
                                match sp_scan(toks, p2 + 1, 1, seq![]) {
                                    Some(bnames) => {
                                        let bt = block_table(bnames);
                                        let st0: BState = (p2 + 1, None, names, vals, seq![], Seq::new(bnames.len(), |k: int| Seq::<Inst>::empty()));
                                        match sp_body(toks, st0, bt, floats) {
                                            Some(end) => {
                                                if exists|v: int| 0 <= v < end.3.len() && (#[trigger] end.3[v]).1 == ValueDef::Param(usize::MAX) {
                                                    None
                                                } else {
                                                    Some((FView {
                                                        name: toks[pos + 1]->FuncName_0,
                                                        params,
                                                        ret,
                                                        blocks: Seq::new(bnames.len(), |k: int| (bnames[k], end.5[k])),
                                                        insts: end.4,
                                                        values: end.3,
                                                        entry: if bnames.len() > 0 { Some(Block(0)) } else { None },
                                                    }, end.0))
                                                }
                                            },
                                            None => None,
                                        }
                                    },
                                    None => None,
                                }
                            } else {
                                None
                            }
                        },
                        None => None,
                    }
                } else {
                    None
                }
            },
            None => None,
        }
    } else {
        None
    }
}

pub open spec fn block_insts(f: &Function) -> Seq<Seq<Inst>> {
    Seq::new(f.blocks@.len(), |i: int| f.blocks@[i].insts@)
}

pub open spec fn block_names(f: &Function) -> Seq<Seq<char>> {
    Seq::new(f.blocks@.len(), |i: int| f.blocks@[i].name@)
}

/// The body's state, as the parser holds it.
pub open spec fn bstate(pos: int, cur: Option<Block>, vm: Seq<(String, Value)>, f: &Function) -> BState {
    (pos, cur, names_of(vm), values_view(f.values@), fview(f).insts, block_insts(f))
}

pub proof fn lemma_value_extends(toks: Seq<Tok>, st: PState)
    ensures
        sp_value(toks, st) matches Some((v, s1)) ==> s1.0 == st.0 + 1 && s1.1.len() >= st.1.len() && s1.2.len() >= st.2.len()
            && (forall|k: int| 0 <= k < st.1.len() ==> #[trigger] s1.1[k] == st.1[k]),
{
}


} // verus!

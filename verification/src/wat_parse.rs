//! The WAT parser: turns source text into a `wat::Module`.
//!
//! The parser reads one token ahead, with one more slot to push a `(`
//! back; every step consumes input, so each function terminates.
//! Malformed input that the grammar cannot go on from is reported as a
//! `ParseError`.
use vstd::prelude::*;
use vstd::string::StringSliceAdditionalSpecFns;
use crate::bytes::bytes_eq;
use crate::wat::{DataSeg, Export, FuncDef, FuncType, Import, Instr, Local, Memory, Module, ValType,
    WasmEmitter, module_bytes, valtype_from_kw, valtype_byte};
use crate::wat_lex::{Token, TokenView, Tokenizer, int_value, opt_token_view, parse_i32, token_at,
    token_view, unescape_from, unescape_wat_string};

verus! {

/// Why WAT source could not be parsed.
#[derive(Clone, Copy, PartialEq, Eq, Debug, Structural)]
pub enum ParseError {
    /// A `(` was required.
    ExpectedLParen,
    /// A `)` was required.
    ExpectedRParen,
    /// A particular keyword was required.
    ExpectedKeyword,
    /// A string literal was required.
    ExpectedString,
    /// A `(type ...)` use named no index.
    ExpectedTypeIndex,
    /// The text ended inside a list.
    UnexpectedEof,
    /// A function declares more locals than the binary format can count.
    TooManyLocals,
}

impl ParseError {
    /// A short description of the error.
    pub fn as_str(self) -> (s: &'static str)
        ensures
            s == parse_error_text(self),
    {
        match self {
            ParseError::ExpectedLParen => "expected '('",
            ParseError::ExpectedRParen => "expected ')'",
            ParseError::ExpectedKeyword => "expected keyword",
            ParseError::ExpectedString => "expected string literal",
            ParseError::ExpectedTypeIndex => "expected type index",
            ParseError::UnexpectedEof => "unexpected EOF while skipping",
            ParseError::TooManyLocals => "too many locals",
        }
    }
}

/// The description `ParseError::as_str` gives.
pub open spec fn parse_error_text(e: ParseError) -> &'static str {
    match e {
        ParseError::ExpectedLParen => "expected '('",
        ParseError::ExpectedRParen => "expected ')'",
        ParseError::ExpectedKeyword => "expected keyword",
        ParseError::ExpectedString => "expected string literal",
        ParseError::ExpectedTypeIndex => "expected type index",
        ParseError::UnexpectedEof => "unexpected EOF while skipping",
        ParseError::TooManyLocals => "too many locals",
    }
}

/// The literal of a float constant, for the caller to turn into IEEE bits:
/// its text, or an integer literal that stands for a float.
#[derive(Clone, Copy)]
pub enum FloatLit<'a> {
    Text(&'a [u8]),
    Int(i32),
}

/// Whether the keyword bytes `k` spell `lit`.
fn is_kw(k: &[u8], lit: &str) -> (r: bool)
    ensures
        r == (k@ == lit.spec_bytes()),
{
    bytes_eq(k, lit.as_bytes())
}

/// Whether a token (as seen) is the keyword `lit`.
pub open spec fn is_keyword(t: Option<TokenView>, lit: Seq<u8>) -> bool {
    t == Some(TokenView::Keyword(lit))
}

/// The value bound to `name` in a name table: its first entry.
pub open spec fn lookup_name(tbl: Seq<(Seq<u8>, u32)>, name: Seq<u8>) -> Option<u32>
    decreases tbl.len(),
{
    if tbl.len() == 0 {
        None
    } else if tbl[0].0 == name {
        Some(tbl[0].1)
    } else {
        lookup_name(tbl.drop_first(), name)
    }
}

/// The bytes of each name in a table.
pub open spec fn names_view<'a>(v: Seq<(&'a [u8], u32)>) -> Seq<(Seq<u8>, u32)> {
    v.map_values(|e: (&'a [u8], u32)| (e.0@, e.1))
}

/// Look `name` up in a name table (see `lookup_name`).
fn find_name(tbl: &Vec<(&[u8], u32)>, name: &[u8]) -> (r: Option<u32>)
    ensures
        r == lookup_name(names_view(tbl@), name@),
{
    let mut i: usize = 0;
    assert(names_view(tbl@).skip(0) =~= names_view(tbl@));
    while i < tbl.len()
        invariant
            i <= tbl@.len(),
            lookup_name(names_view(tbl@), name@) == lookup_name(names_view(tbl@).skip(i as int), name@),
        decreases tbl@.len() - i,
    {
        let ghost rest = names_view(tbl@).skip(i as int);
        assert(rest.drop_first() =~= names_view(tbl@).skip(i + 1));
        if bytes_eq(tbl[i].0, name) {
            return Some(tbl[i].1);
        }
        i = i + 1;
    }
    None
}

/// The bytes after the leading `$` characters.
pub open spec fn trim_dollars(s: Seq<u8>) -> Seq<u8>
    decreases s.len(),
{
    if s.len() > 0 && s[0] == 0x24 { trim_dollars(s.drop_first()) } else { s }
}

/// `s.trim_start_matches('$')` on bytes.
fn trim_dollars_exec(s: &[u8]) -> (r: &[u8])
    ensures
        r@ == trim_dollars(s@),
{
    let mut i: usize = 0;
    assert(s@.skip(0) =~= s@);
    while i < s.len() && s[i] == 0x24
        invariant
            i <= s@.len(),
            trim_dollars(s@) == trim_dollars(s@.skip(i as int)),
        decreases s@.len() - i,
    {
        assert(s@.skip(i as int).drop_first() =~= s@.skip(i + 1));
        i = i + 1;
    }
    let r = vstd::slice::slice_subrange(s, i, s.len());
    assert(r@ =~= s@.skip(i as int));
    r
}

/// WAT parser state: the tokenizer, one token of lookahead, one slot for
/// a `(` pushed back before it, and the names seen so far.
pub struct Parser<'a> {
    tokenizer: Tokenizer<'a>,
    lookahead: Option<Token<'a>>,
    unget: Option<Token<'a>>,
    func_names: Vec<(&'a [u8], u32)>,
    type_names: Vec<(&'a [u8], u32)>,
    local_names: Vec<(&'a [u8], u32)>,
}

/// A measure of the input left: every token taken lowers it.
pub closed spec fn measure(p: Parser) -> int {
    2 * (p.tokenizer.src@.len() - p.tokenizer.pos) + (if p.lookahead.is_some() { 1int } else { 0int })
        + (if p.unget.is_some() { 1int } else { 0int })
}

impl<'a> Parser<'a> {
    /// The parser's internal consistency: the cursor is within the text, and
    /// a pushed-back token sits in front of a lookahead.
    pub closed spec fn wf(&self) -> bool {
        &&& self.tokenizer.pos <= self.tokenizer.src@.len()
        &&& self.tokenizer.src@.len() <= isize::MAX
        &&& (self.unget.is_some() ==> self.lookahead.is_some())
    }

    /// The source text as bytes.
    pub closed spec fn source(&self) -> Seq<u8> {
        self.tokenizer.src@
    }

    /// The current token, as seen.
    pub closed spec fn la(&self) -> Option<TokenView> {
        opt_token_view(self.lookahead)
    }
}

/// `new` was reached from `old` by parsing: still consistent, same text,
/// no more input left than before.
pub closed spec fn advanced(old: Parser, new: Parser) -> bool {
    &&& new.wf()
    &&& new.tokenizer.src == old.tokenizer.src
    &&& measure(new) <= measure(old)
}

/// `advanced`, and at least one token consumed.
pub closed spec fn consumed(old: Parser, new: Parser) -> bool {
    advanced(old, new) && measure(new) < measure(old)
}

/// The name tables did not change from `old` to `new`.
pub closed spec fn same_names(old: Parser, new: Parser) -> bool {
    &&& new.func_names == old.func_names
    &&& new.type_names == old.type_names
    &&& new.local_names == old.local_names
}

/// `new` is `old` after taking one token: the pushed-back token if there
/// is one, else the next token of the text.
pub closed spec fn stepped(old: Parser, new: Parser) -> bool {
    &&& advanced(old, new)
    &&& same_names(old, new)
    &&& new.unget.is_none()
    &&& if old.unget.is_some() {
        new.lookahead == old.unget && new.tokenizer == old.tokenizer
    } else {
        (new.la(), new.tokenizer.pos as int) == token_at(old.source(), old.tokenizer.pos as int)
    }
    &&& (old.lookahead.is_some() ==> measure(new) < measure(old))
    &&& (old.unget.is_none() && new.lookahead.is_some() ==> new.tokenizer.pos > old.tokenizer.pos)
    &&& new.tokenizer.pos >= old.tokenizer.pos
}

/// The `k`-th token of the text from `pos` on (`k` = 0 the next one).
pub open spec fn tok_from(s: Seq<u8>, pos: int, k: nat) -> Option<TokenView>
    decreases k,
{
    if k == 0 {
        token_at(s, pos).0
    } else {
        tok_from(s, token_at(s, pos).1, (k - 1) as nat)
    }
}

/// The `k`-th token the parser will see (`k` = 0 the current one): the
/// current token, a token pushed back behind it, then the text.
pub closed spec fn ahead(p: Parser, k: nat) -> Option<TokenView> {
    if k == 0 {
        p.la()
    } else if p.unget.is_some() {
        if k == 1 {
            opt_token_view(p.unget)
        } else {
            tok_from(p.source(), p.tokenizer.pos as int, (k - 2) as nat)
        }
    } else {
        tok_from(p.source(), p.tokenizer.pos as int, (k - 1) as nat)
    }
}

/// Taking a token moves every token ahead one place closer.
proof fn lemma_stepped_ahead(old: Parser, new: Parser)
    requires
        stepped(old, new),
    ensures
        forall|k: nat| #[trigger] ahead(new, k) == ahead(old, k + 1),
{
    assert forall|k: nat| #[trigger] ahead(new, k) == ahead(old, k + 1) by {
        if k > 0 && old.unget.is_none() {
            assert(tok_from(old.source(), old.tokenizer.pos as int, k) == tok_from(
                old.source(),
                token_at(old.source(), old.tokenizer.pos as int).1,
                (k - 1) as nat,
            ));
        }
    }
}

/// The value type a token names, if it is such a keyword.
pub open spec fn valtype_tok(t: Option<TokenView>) -> Option<ValType> {
    match t {
        Some(TokenView::Keyword(k)) => valtype_from_kw(k),
        _ => None,
    }
}

/// The `(offset, align)` the first `n` tokens ahead of `p` set: each
/// `offset=N` or `align=N` keyword sets its field to `N`, later ones
/// winning; both start at 0.
pub open spec fn memarg_scan(p: Parser, n: nat) -> (u32, u32)
    decreases n,
{
    if n == 0 {
        (0u32, 0u32)
    } else {
        let (o, a) = memarg_scan(p, (n - 1) as nat);
        match ahead(p, (n - 1) as nat) {
            Some(TokenView::Keyword(k)) => if k.len() >= "offset=".spec_bytes().len() && k.take(
                "offset=".spec_bytes().len() as int,
            ) == "offset=".spec_bytes() {
                (memarg_value(k, "offset=".spec_bytes().len() as int), a)
            } else if k.len() >= "align=".spec_bytes().len() && k.take("align=".spec_bytes().len() as int)
                == "align=".spec_bytes() {
                (o, memarg_value(k, "align=".spec_bytes().len() as int))
            } else {
                (o, a)
            },
            _ => (o, a),
        }
    }
}

/// A parser state whose tokens ahead are those of `p0` from the `off`-th
/// on.
pub open spec fn shifted(p: Parser, p0: Parser, off: nat) -> bool {
    forall|k: nat| #[trigger] ahead(p, k) == ahead(p0, k + off)
}

/// Shifts add up.
proof fn lemma_shifted_trans(x: Parser, y: Parser, z: Parser, i: nat, j: nat)
    requires
        shifted(x, y, i),
        shifted(y, z, j),
    ensures
        shifted(x, z, i + j),
{
    assert forall|k: nat| #[trigger] ahead(x, k) == ahead(z, k + (i + j)) by {
        assert(ahead(x, k) == ahead(y, k + i));
        assert(ahead(y, k + i) == ahead(z, (k + i) + j));
    }
}

/// Taking a token from a shifted state shifts it one further.
proof fn lemma_step_shift(p0: Parser, p1: Parser, p2: Parser, off: nat)
    requires
        shifted(p1, p0, off),
        stepped(p1, p2),
    ensures
        shifted(p2, p0, off + 1),
        ahead(p1, 0) == ahead(p0, off),
{
    lemma_stepped_ahead(p1, p2);
    assert forall|k: nat| #[trigger] ahead(p2, k) == ahead(p0, k + (off + 1)) by {
        assert(ahead(p2, k) == ahead(p1, k + 1));
        assert(ahead(p1, k + 1) == ahead(p0, (k + 1) + off));
    }
    assert(ahead(p1, 0) == ahead(p0, 0 + off));
}

/// The integer a token is, if it is one.
pub open spec fn int_tok(t: Option<TokenView>) -> Option<i32> {
    match t {
        Some(TokenView::Int(n)) => Some(n),
        _ => None,
    }
}

/// Past an optional `$name` after the current keyword: where what follows
/// starts, counted from that keyword.
pub open spec fn after_name(p: Parser) -> nat {
    match ahead(p, 1) {
        Some(TokenView::Identifier(_)) => 2,
        _ => 1,
    }
}

/// The export kind a keyword names: `func` 0, `table` 1, `memory` 2,
/// `global` 3.
pub open spec fn export_kind(t: Option<TokenView>) -> Option<u8> {
    if is_keyword(t, "func".spec_bytes()) {
        Some(0u8)
    } else if is_keyword(t, "memory".spec_bytes()) {
        Some(2u8)
    } else if is_keyword(t, "table".spec_bytes()) {
        Some(1u8)
    } else if is_keyword(t, "global".spec_bytes()) {
        Some(3u8)
    } else {
        None
    }
}

/// The index an export names with token `t`: an integer, a function name
/// (0 when unknown), or 0 when there is none.
pub open spec fn export_index_of(t: Option<TokenView>, funcs: Seq<(Seq<u8>, u32)>) -> u32 {
    match t {
        Some(TokenView::Int(n)) => n as u32,
        Some(TokenView::Identifier(id)) => match lookup_name(funcs, id) {
            Some(i) => i,
            None => 0,
        },
        _ => 0,
    }
}

/// Whether token `t` gives an export's index (and is taken).
pub open spec fn is_index_tok(t: Option<TokenView>) -> bool {
    t matches Some(TokenView::Int(_)) || t matches Some(TokenView::Identifier(_))
}

/// One if the token is `(`.
pub open spec fn lp(t: Option<TokenView>) -> int {
    if t == Some(TokenView::LParen) { 1 } else { 0 }
}

impl<'a> Parser<'a> {
    /// A parser at the start of `src`, its first token read.
    pub fn new(src: &'a str) -> (p: Self)
        requires
            src.spec_bytes().len() <= isize::MAX,
        ensures
            p.wf(),
            p.source() == src.spec_bytes(),
            p.la() == token_at(src.spec_bytes(), 0).0,
            fresh_at(p, src.spec_bytes()),
    {
        let mut t = Tokenizer::new(src);
        let la = t.next_token();
        Parser {
            tokenizer: t,
            lookahead: la,
            unget: None,
            func_names: Vec::new(),
            type_names: Vec::new(),
            local_names: Vec::new(),
        }
    }

    /// Move to the next token: the pushed-back one if any, else the next
    /// token of the text.
    fn bump(&mut self)
        requires
            old(self).wf(),
        ensures
            stepped(*old(self), *final(self)),
    {
        let u = self.unget;
        self.unget = None;
        match u {
            Some(tok) => {
                self.lookahead = Some(tok);
            },
            None => {
                self.lookahead = self.tokenizer.next_token();
            },
        }
    }

    /// Put a consumed `(` back in front of the current token.
    fn unget_lparen(&mut self)
        requires
            old(self).wf(),
            old(self).unget.is_none(),
        ensures
            final(self).wf(),
            final(self).tokenizer == old(self).tokenizer,
            measure(*final(self)) == measure(*old(self)) + 1,
            final(self).lookahead == Some(Token::LParen),
            final(self).func_names == old(self).func_names,
            final(self).type_names == old(self).type_names,
            final(self).local_names == old(self).local_names,
    {
        self.unget = self.lookahead;
        self.lookahead = Some(Token::LParen);
    }
}

impl<'a> Parser<'a> {
    /// Take a `(`.
    fn expect_lparen(&mut self) -> (r: Result<(), ParseError>)
        requires
            old(self).wf(),
        ensures
            old(self).la() == Some(TokenView::LParen) ==> r is Ok && stepped(*old(self), *final(self)),
            old(self).la() != Some(TokenView::LParen) ==> r == Err::<(), ParseError>(ParseError::ExpectedLParen)
                && *final(self) == *old(self),
    {
        match self.lookahead {
            Some(Token::LParen) => {
                self.bump();
                Ok(())
            },
            _ => Err(ParseError::ExpectedLParen),
        }
    }

    /// Take a `)`.
    fn expect_rparen(&mut self) -> (r: Result<(), ParseError>)
        requires
            old(self).wf(),
        ensures
            old(self).la() == Some(TokenView::RParen) ==> r is Ok && stepped(*old(self), *final(self)),
            old(self).la() != Some(TokenView::RParen) ==> r == Err::<(), ParseError>(ParseError::ExpectedRParen)
                && *final(self) == *old(self),
    {
        match self.lookahead {
            Some(Token::RParen) => {
                self.bump();
                Ok(())
            },
            _ => Err(ParseError::ExpectedRParen),
        }
    }

    /// Take the keyword `kw`.
    fn expect_keyword(&mut self, kw: &str) -> (r: Result<(), ParseError>)
        requires
            old(self).wf(),
        ensures
            is_keyword(old(self).la(), kw.spec_bytes()) ==> r is Ok && stepped(*old(self), *final(self)),
            !is_keyword(old(self).la(), kw.spec_bytes()) ==> r == Err::<(), ParseError>(
                ParseError::ExpectedKeyword,
            ) && *final(self) == *old(self),
    {
        match self.lookahead {
            Some(Token::Keyword(k)) => {
                if is_kw(k, kw) {
                    self.bump();
                    Ok(())
                } else {
                    Err(ParseError::ExpectedKeyword)
                }
            },
            _ => Err(ParseError::ExpectedKeyword),
        }
    }

    /// Whether the current token is the keyword `kw`.
    fn at_keyword(&self, kw: &str) -> (r: bool)
        ensures
            r == is_keyword(self.la(), kw.spec_bytes()),
    {
        match self.lookahead {
            Some(Token::Keyword(k)) => is_kw(k, kw),
            _ => false,
        }
    }

    /// Whether the current token is `(`.
    fn at_lparen(&self) -> (r: bool)
        ensures
            r == (self.la() == Some(TokenView::LParen)),
    {
        match self.lookahead {
            Some(Token::LParen) => true,
            _ => false,
        }
    }

    /// Take a keyword if the current token is one.
    fn try_keyword(&mut self) -> (r: Option<&'a [u8]>)
        requires
            old(self).wf(),
        ensures
            match old(self).la() {
                Some(TokenView::Keyword(k)) => r is Some && r.unwrap()@ == k && stepped(
                    *old(self),
                    *final(self),
                ),
                _ => r is None && *final(self) == *old(self),
            },
    {
        match self.lookahead {
            Some(Token::Keyword(k)) => {
                self.bump();
                Some(k)
            },
            _ => None,
        }
    }

    /// Take a `$` identifier if the current token is one.
    fn try_identifier(&mut self) -> (r: Option<&'a [u8]>)
        requires
            old(self).wf(),
        ensures
            match old(self).la() {
                Some(TokenView::Identifier(k)) => r is Some && r.unwrap()@ == k && stepped(
                    *old(self),
                    *final(self),
                ),
                _ => r is None && *final(self) == *old(self),
            },
    {
        match self.lookahead {
            Some(Token::Identifier(k)) => {
                self.bump();
                Some(k)
            },
            _ => None,
        }
    }

    /// Take a string literal and decode its escapes.
    fn expect_string(&mut self) -> (r: Result<Vec<u8>, ParseError>)
        requires
            old(self).wf(),
        ensures
            match old(self).la() {
                Some(TokenView::StringLiteral(t)) => r is Ok && r.unwrap()@ == unescape_from(t, 0)
                    && stepped(*old(self), *final(self)),
                _ => r == Err::<Vec<u8>, ParseError>(ParseError::ExpectedString) && *final(self) == *old(self),
            },
    {
        match self.lookahead {
            Some(Token::StringLiteral(t)) => {
                let bytes = unescape_wat_string(t);
                self.bump();
                Ok(bytes)
            },
            _ => Err(ParseError::ExpectedString),
        }
    }

    /// Skip the rest of a list whose `(` was taken: up to and including
    /// the `)` that balances it.
    fn skip_rest_of_list(&mut self) -> (r: Result<(), ParseError>)
        requires
            old(self).wf(),
        ensures
            advanced(*old(self), *final(self)),
            same_names(*old(self), *final(self)),
            r is Ok ==> measure(*final(self)) < measure(*old(self)),
            r is Err ==> r == Err::<(), ParseError>(ParseError::UnexpectedEof),
    {
        let mut depth: usize = 1;
        let ghost start = *self;
        while depth > 0
            invariant
                advanced(start, *self),
                same_names(start, *self),
                start == *old(self),
                depth == 0 ==> measure(*self) < measure(start),
                depth + lp(self.la()) + lp(opt_token_view(self.unget)) <= self.tokenizer.pos
                    - start.tokenizer.pos + 1 + lp(start.la()) + lp(opt_token_view(start.unget)),
                self.tokenizer.pos >= start.tokenizer.pos,
            decreases measure(*self),
        {
            match self.lookahead {
                Some(Token::LParen) => {
                    depth = depth + 1;
                    self.bump();
                },
                Some(Token::RParen) => {
                    depth = depth - 1;
                    self.bump();
                },
                Some(_) => {
                    self.bump();
                },
                None => {
                    return Err(ParseError::UnexpectedEof);
                },
            }
        }
        Ok(())
    }
}

/// A function type as two sequences of value types.
pub open spec fn ft_view(t: FuncType) -> (Seq<ValType>, Seq<ValType>) {
    (t.params@, t.results@)
}

/// The function types of a table.
pub open spec fn types_view(v: Seq<FuncType>) -> Seq<(Seq<ValType>, Seq<ValType>)> {
    v.map_values(|t: FuncType| ft_view(t))
}

/// The position of the first entry equal to `t` (the length if none).
pub open spec fn first_index_of(v: Seq<(Seq<ValType>, Seq<ValType>)>, t: (Seq<ValType>, Seq<ValType>)) -> int
    decreases v.len(),
{
    if v.len() == 0 {
        0
    } else if v[0] == t {
        0
    } else {
        1 + first_index_of(v.drop_first(), t)
    }
}

/// `first_index_of` is the length only where no entry matches, and
/// otherwise names a matching entry.
pub proof fn lemma_first_index_of(v: Seq<(Seq<ValType>, Seq<ValType>)>, t: (Seq<ValType>, Seq<ValType>))
    ensures
        0 <= first_index_of(v, t) <= v.len(),
        first_index_of(v, t) < v.len() ==> v[first_index_of(v, t)] == t,
        first_index_of(v, t) == v.len() ==> !v.contains(t),
    decreases v.len(),
{
    if v.len() > 0 && v[0] != t {
        lemma_first_index_of(v.drop_first(), t);
        if v.contains(t) {
            let i = choose|i: int| 0 <= i < v.len() && v[i] == t;
            assert(v.drop_first()[i - 1] == t);
        }
    }
}

/// Element-wise equality of two lists of value types.
fn valtypes_eq(a: &Vec<ValType>, b: &Vec<ValType>) -> (r: bool)
    ensures
        r == (a@ == b@),
{
    if a.len() != b.len() {
        return false;
    }
    let mut i: usize = 0;
    while i < a.len()
        invariant
            i <= a@.len(),
            a@.len() == b@.len(),
            forall|j: int| 0 <= j < i ==> a@[j] == b@[j],
        decreases a@.len() - i,
    {
        if a[i] != b[i] {
            return false;
        }
        i = i + 1;
    }
    assert(a@ =~= b@);
    true
}

/// The index of `ft` in `types`, appending it if absent.
fn intern_type(types: &mut Vec<FuncType>, ft: FuncType) -> (r: u32)
    ensures
        ({
            let i = first_index_of(types_view(old(types)@), ft_view(ft));
            &&& i < old(types)@.len() ==> final(types)@ == old(types)@ && r == i as u32
            &&& i == old(types)@.len() ==> final(types)@ == old(types)@.push(ft) && r == i as u32
        }),
        final(types)@.len() >= old(types)@.len(),
        final(types)@.take(old(types)@.len() as int) == old(types)@,
{
    proof {
        lemma_first_index_of(types_view(types@), ft_view(ft));
    }
    let ghost tv = types_view(types@);
    let mut i: usize = 0;
    assert(tv.skip(0) =~= tv);
    while i < types.len()
        invariant
            i <= types@.len(),
            types@ == old(types)@,
            tv == types_view(types@),
            first_index_of(tv, ft_view(ft)) == i + first_index_of(tv.skip(i as int), ft_view(ft)),
        decreases types@.len() - i,
    {
        assert(tv.skip(i as int).drop_first() =~= tv.skip(i + 1));
        if valtypes_eq(&types[i].params, &ft.params) && valtypes_eq(&types[i].results, &ft.results) {
            return i as u32;
        }
        i = i + 1;
    }
    let idx = types.len() as u32;
    let ghost before = types@;
    types.push(ft);
    assert(types@.take(before.len() as int) =~= before);
    idx
}

impl<'a> Parser<'a> {
    /// The index a `$name` type reference stands for: the type defined with
    /// that name, else the number after the `$`.
    fn resolve_type_name(&self, id: &[u8]) -> (r: u32)
        ensures
            r == type_name_index(names_view(self.type_names@), id@),
    {
        match find_name(&self.type_names, id) {
            Some(i) => i,
            None => parse_i32(trim_dollars_exec(id)) as u32,
        }
    }

    /// A label operand: an integer, or an identifier (read as 0).
    fn parse_label_idx(&mut self) -> (r: u32)
        requires
            old(self).wf(),
        ensures
            match old(self).la() {
                Some(TokenView::Int(n)) => r == n as u32 && stepped(*old(self), *final(self)),
                Some(TokenView::Identifier(_)) => r == 0 && stepped(*old(self), *final(self)),
                _ => r == 0 && *final(self) == *old(self),
            },
    {
        match self.lookahead {
            Some(Token::Int(n)) => {
                self.bump();
                n as u32
            },
            Some(Token::Identifier(_)) => {
                self.bump();
                0
            },
            _ => 0,
        }
    }

    /// A local operand: an integer, or a `$name` of a parameter or local
    /// (else the number after the `$`).
    fn parse_local_or_func_idx(&mut self) -> (r: u32)
        requires
            old(self).wf(),
        ensures
            match old(self).la() {
                Some(TokenView::Int(n)) => r == n as u32 && stepped(*old(self), *final(self)),
                Some(TokenView::Identifier(id)) => r == type_name_index(names_view(old(self).local_names@), id)
                    && stepped(*old(self), *final(self)),
                _ => r == 0 && *final(self) == *old(self),
            },
    {
        match self.lookahead {
            Some(Token::Int(n)) => {
                self.bump();
                n as u32
            },
            Some(Token::Identifier(id)) => {
                self.bump();
                match find_name(&self.local_names, id) {
                    Some(i) => i,
                    None => parse_i32(trim_dollars_exec(id)) as u32,
                }
            },
            _ => 0,
        }
    }

    /// A function operand: an integer, or the `$name` of a function seen so
    /// far (else 0).
    fn parse_func_idx(&mut self) -> (r: u32)
        requires
            old(self).wf(),
        ensures
            match old(self).la() {
                Some(TokenView::Int(n)) => r == n as u32 && stepped(*old(self), *final(self)),
                Some(TokenView::Identifier(id)) => r == match lookup_name(names_view(old(self).func_names@), id) {
                    Some(i) => i,
                    None => 0u32,
                } && stepped(*old(self), *final(self)),
                _ => r == 0 && *final(self) == *old(self),
            },
    {
        match self.lookahead {
            Some(Token::Int(n)) => {
                self.bump();
                n as u32
            },
            Some(Token::Identifier(id)) => {
                self.bump();
                match find_name(&self.func_names, id) {
                    Some(i) => i,
                    None => 0,
                }
            },
            _ => 0,
        }
    }
}

/// The index a `$name` reference stands for in a name table: its entry,
/// else the number written after the `$`.
pub open spec fn type_name_index(tbl: Seq<(Seq<u8>, u32)>, id: Seq<u8>) -> u32 {
    match lookup_name(tbl, id) {
        Some(i) => i,
        None => int_value(trim_dollars(id)) as u32,
    }
}

/// Whether `k` starts with the bytes of `lit`.
fn starts_with_kw(k: &[u8], lit: &str) -> (r: bool)
    ensures
        r == (k@.len() >= lit.spec_bytes().len() && k@.take(lit.spec_bytes().len() as int)
            == lit.spec_bytes()),
{
    let l = lit.as_bytes();
    if k.len() < l.len() {
        return false;
    }
    let head = vstd::slice::slice_subrange(k, 0, l.len());
    assert(head@ =~= k@.take(l@.len() as int));
    bytes_eq(head, l)
}

/// The value of the digits after a memory-argument prefix of `n` bytes.
pub open spec fn memarg_value(k: Seq<u8>, n: int) -> u32 {
    int_value(k.skip(n)) as u32
}

impl<'a> Parser<'a> {
    /// An optional `(result T)` block type: the type's byte, or `0x40`
    /// (no result). Any other list is left in place.
    fn parse_block_type(&mut self) -> (r: Result<u8, ParseError>)
        requires
            old(self).wf(),
        ensures
            advanced(*old(self), *final(self)),
            same_names(*old(self), *final(self)),
            old(self).la() != Some(TokenView::LParen) ==> r == Ok::<u8, ParseError>(0x40) && *final(self)
                == *old(self),
            r == block_type_of(*old(self)),
    {
        let ghost p0 = *self;
        proof {
            assert forall|k: nat| #[trigger] ahead(p0, k) == ahead(p0, k + 0) by {}
        }
        if self.at_lparen() {
            self.bump();
            proof {
                lemma_step_shift(p0, p0, *self, 0);
                assert(ahead(*self, 0) == ahead(p0, 0 + 1));
                assert(ahead(*self, 0) == self.la());
            }
            if self.at_keyword("result") {
                let ghost p1 = *self;
                self.bump();
                proof {
                    lemma_step_shift(p0, p1, *self, 1);
                    assert(ahead(*self, 0) == ahead(p0, 0 + 2));
                    assert(ahead(*self, 0) == self.la());
                }
                let ghost p2 = *self;
                let bt: u8 = match self.lookahead {
                    Some(Token::Keyword(kw)) => match ValType::from_kw_bytes(kw) {
                        Some(v) => v.byte(),
                        None => 0x40,
                    },
                    _ => 0x40,
                };
                self.bump();
                proof {
                    lemma_step_shift(p0, p2, *self, 2);
                    assert(ahead(*self, 0) == ahead(p0, 0 + 3));
                    assert(ahead(*self, 0) == self.la());
                }
                self.expect_rparen()?;
                return Ok(bt);
            } else {
                self.unget_lparen();
            }
        }
        Ok(0x40)
    }

    /// Optional `offset=N` and `align=N` keywords: `(offset, align)`,
    /// each 0 when absent.
    fn parse_memarg(&mut self) -> (r: (u32, u32))
        requires
            old(self).wf(),
        ensures
            advanced(*old(self), *final(self)),
            same_names(*old(self), *final(self)),
            !is_memarg_kw(old(self).la()) ==> r == (0u32, 0u32) && *final(self) == *old(self),
            exists|n: nat|
                {
                    &&& forall|i: nat| i < n ==> #[trigger] is_memarg_kw(ahead(*old(self), i))
                    &&& !is_memarg_kw(ahead(*old(self), n))
                    &&& r == memarg_scan(*old(self), n)
                    &&& forall|k: nat| #[trigger] ahead(*final(self), k) == ahead(*old(self), k + n)
                },
            r == memarg_result(*old(self)),
            shifted(*final(self), *old(self), memarg_len(*old(self))),
    {
        let mut offset: u32 = 0;
        let mut align: u32 = 0;
        let ghost start = *self;
        let ghost mut cnt: nat = 0;
        loop
            invariant
                advanced(start, *self),
                same_names(start, *self),
                start == *old(self),
                !is_memarg_kw(start.la()) ==> *self == start && offset == 0 && align == 0,
                forall|i: nat| i < cnt ==> #[trigger] is_memarg_kw(ahead(start, i)),
                (offset, align) == memarg_scan(start, cnt),
                forall|k: nat| #[trigger] ahead(*self, k) == ahead(start, k + cnt),
                cnt == 0 ==> *self == start,
            ensures
                advanced(start, *self),
                same_names(start, *self),
                !is_memarg_kw(start.la()) ==> *self == start && offset == 0 && align == 0,
                forall|i: nat| i < cnt ==> #[trigger] is_memarg_kw(ahead(start, i)),
                !is_memarg_kw(ahead(start, cnt)),
                (offset, align) == memarg_scan(start, cnt),
                forall|k: nat| #[trigger] ahead(*self, k) == ahead(start, k + cnt),
            decreases measure(*self),
        {
            assert(ahead(*self, 0) == ahead(start, 0 + cnt));
            assert(ahead(*self, 0) == self.la());
            let ghost p1 = *self;
            match self.lookahead {
                Some(Token::Keyword(kw)) => {
                    if starts_with_kw(kw, "offset=") {
                        let n = "offset=".as_bytes().len();
                        let digits = vstd::slice::slice_subrange(kw, n, kw.len());
                        offset = parse_i32(digits) as u32;
                        assert(digits@ =~= kw@.skip(n as int));
                        self.bump();
                        proof {
                            lemma_stepped_ahead(p1, *self);
                            assert forall|k: nat| #[trigger] ahead(*self, k) == ahead(start, k + (cnt + 1)) by {
                                assert(ahead(*self, k) == ahead(p1, k + 1));
                                assert(ahead(p1, k + 1) == ahead(start, (k + 1) + cnt));
                            }
                            cnt = cnt + 1;
                        }
                    } else if starts_with_kw(kw, "align=") {
                        let n = "align=".as_bytes().len();
                        let digits = vstd::slice::slice_subrange(kw, n, kw.len());
                        align = parse_i32(digits) as u32;
                        assert(digits@ =~= kw@.skip(n as int));
                        self.bump();
                        proof {
                            lemma_stepped_ahead(p1, *self);
                            assert forall|k: nat| #[trigger] ahead(*self, k) == ahead(start, k + (cnt + 1)) by {
                                assert(ahead(*self, k) == ahead(p1, k + 1));
                                assert(ahead(p1, k + 1) == ahead(start, (k + 1) + cnt));
                            }
                            cnt = cnt + 1;
                        }
                    } else {
                        break;
                    }
                },
                _ => {
                    break;
                },
            }
        }
        proof {
            lemma_memarg_len(start, cnt);
        }
        (offset, align)
    }
}

/// Whether a token is an `offset=` or `align=` keyword.
pub open spec fn is_memarg_kw(t: Option<TokenView>) -> bool {
    match t {
        Some(TokenView::Keyword(k)) => (k.len() >= "offset=".spec_bytes().len() && k.take(
            "offset=".spec_bytes().len() as int,
        ) == "offset=".spec_bytes()) || (k.len() >= "align=".spec_bytes().len() && k.take(
            "align=".spec_bytes().len() as int,
        ) == "align=".spec_bytes()),
        _ => false,
    }
}

/// The instruction a keyword without operands names.
#[verifier::opaque]
pub open spec fn kw_simple(kw: Seq<u8>) -> Option<Instr> {
    if kw == "unreachable".spec_bytes() {
        Some(Instr::Unreachable)
    } else if kw == "nop".spec_bytes() {
        Some(Instr::Nop)
    } else if kw == "return".spec_bytes() {
        Some(Instr::Return)
    } else if kw == "drop".spec_bytes() {
        Some(Instr::Drop)
    } else if kw == "select".spec_bytes() {
        Some(Instr::Select)
    } else if kw == "else".spec_bytes() {
        Some(Instr::Else)
    } else if kw == "end".spec_bytes() {
        Some(Instr::End)
    } else if kw == "i32.add".spec_bytes() {
        Some(Instr::I32Add)
    } else if kw == "i32.sub".spec_bytes() {
        Some(Instr::I32Sub)
    } else if kw == "i32.mul".spec_bytes() {
        Some(Instr::I32Mul)
    } else if kw == "i32.div_s".spec_bytes() {
        Some(Instr::I32DivS)
    } else if kw == "i32.div_u".spec_bytes() {
        Some(Instr::I32DivU)
    } else if kw == "i32.rem_s".spec_bytes() {
        Some(Instr::I32RemS)
    } else if kw == "i32.rem_u".spec_bytes() {
        Some(Instr::I32RemU)
    } else if kw == "i32.and".spec_bytes() {
        Some(Instr::I32And)
    } else if kw == "i32.or".spec_bytes() {
        Some(Instr::I32Or)
    } else if kw == "i32.xor".spec_bytes() {
        Some(Instr::I32Xor)
    } else if kw == "i32.shl".spec_bytes() {
        Some(Instr::I32Shl)
    } else if kw == "i32.shr_s".spec_bytes() {
        Some(Instr::I32ShrS)
    } else if kw == "i32.shr_u".spec_bytes() {
        Some(Instr::I32ShrU)
    } else if kw == "i32.eqz".spec_bytes() {
        Some(Instr::I32Eqz)
    } else if kw == "i32.eq".spec_bytes() {
        Some(Instr::I32Eq)
    } else if kw == "i32.ne".spec_bytes() {
        Some(Instr::I32Ne)
    } else if kw == "i32.lt_s".spec_bytes() {
        Some(Instr::I32LtS)
    } else if kw == "i32.lt_u".spec_bytes() {
        Some(Instr::I32LtU)
    } else if kw == "i32.gt_s".spec_bytes() {
        Some(Instr::I32GtS)
    } else if kw == "i32.gt_u".spec_bytes() {
        Some(Instr::I32GtU)
    } else if kw == "i32.le_s".spec_bytes() {
        Some(Instr::I32LeS)
    } else if kw == "i32.le_u".spec_bytes() {
        Some(Instr::I32LeU)
    } else if kw == "i32.ge_s".spec_bytes() {
        Some(Instr::I32GeS)
    } else if kw == "i32.ge_u".spec_bytes() {
        Some(Instr::I32GeU)
    } else if kw == "i64.add".spec_bytes() {
        Some(Instr::I64Add)
    } else if kw == "i64.sub".spec_bytes() {
        Some(Instr::I64Sub)
    } else if kw == "i64.mul".spec_bytes() {
        Some(Instr::I64Mul)
    } else if kw == "i64.and".spec_bytes() {
        Some(Instr::I64And)
    } else if kw == "i64.or".spec_bytes() {
        Some(Instr::I64Or)
    } else if kw == "i64.xor".spec_bytes() {
        Some(Instr::I64Xor)
    } else if kw == "i64.eqz".spec_bytes() {
        Some(Instr::I64Eqz)
    } else if kw == "i64.eq".spec_bytes() {
        Some(Instr::I64Eq)
    } else if kw == "i64.ne".spec_bytes() {
        Some(Instr::I64Ne)
    } else if kw == "f32.add".spec_bytes() {
        Some(Instr::F32Add)
    } else if kw == "f32.sub".spec_bytes() {
        Some(Instr::F32Sub)
    } else if kw == "f32.mul".spec_bytes() {
        Some(Instr::F32Mul)
    } else if kw == "f32.div".spec_bytes() {
        Some(Instr::F32Div)
    } else if kw == "f64.add".spec_bytes() {
        Some(Instr::F64Add)
    } else if kw == "f64.sub".spec_bytes() {
        Some(Instr::F64Sub)
    } else if kw == "f64.mul".spec_bytes() {
        Some(Instr::F64Mul)
    } else if kw == "f64.div".spec_bytes() {
        Some(Instr::F64Div)
    } else {
        None
    }
}

/// The instruction a keyword without operands names (see `kw_simple`).
fn simple_instr(kw: &[u8]) -> (r: Option<Instr>)
    ensures
        r == kw_simple(kw@),
{
    reveal(kw_simple);
    if is_kw(kw, "unreachable") {
        Some(Instr::Unreachable)
    } else if is_kw(kw, "nop") {
        Some(Instr::Nop)
    } else if is_kw(kw, "return") {
        Some(Instr::Return)
    } else if is_kw(kw, "drop") {
        Some(Instr::Drop)
    } else if is_kw(kw, "select") {
        Some(Instr::Select)
    } else if is_kw(kw, "else") {
        Some(Instr::Else)
    } else if is_kw(kw, "end") {
        Some(Instr::End)
    } else if is_kw(kw, "i32.add") {
        Some(Instr::I32Add)
    } else if is_kw(kw, "i32.sub") {
        Some(Instr::I32Sub)
    } else if is_kw(kw, "i32.mul") {
        Some(Instr::I32Mul)
    } else if is_kw(kw, "i32.div_s") {
        Some(Instr::I32DivS)
    } else if is_kw(kw, "i32.div_u") {
        Some(Instr::I32DivU)
    } else if is_kw(kw, "i32.rem_s") {
        Some(Instr::I32RemS)
    } else if is_kw(kw, "i32.rem_u") {
        Some(Instr::I32RemU)
    } else if is_kw(kw, "i32.and") {
        Some(Instr::I32And)
    } else if is_kw(kw, "i32.or") {
        Some(Instr::I32Or)
    } else if is_kw(kw, "i32.xor") {
        Some(Instr::I32Xor)
    } else if is_kw(kw, "i32.shl") {
        Some(Instr::I32Shl)
    } else if is_kw(kw, "i32.shr_s") {
        Some(Instr::I32ShrS)
    } else if is_kw(kw, "i32.shr_u") {
        Some(Instr::I32ShrU)
    } else if is_kw(kw, "i32.eqz") {
        Some(Instr::I32Eqz)
    } else if is_kw(kw, "i32.eq") {
        Some(Instr::I32Eq)
    } else if is_kw(kw, "i32.ne") {
        Some(Instr::I32Ne)
    } else if is_kw(kw, "i32.lt_s") {
        Some(Instr::I32LtS)
    } else if is_kw(kw, "i32.lt_u") {
        Some(Instr::I32LtU)
    } else if is_kw(kw, "i32.gt_s") {
        Some(Instr::I32GtS)
    } else if is_kw(kw, "i32.gt_u") {
        Some(Instr::I32GtU)
    } else if is_kw(kw, "i32.le_s") {
        Some(Instr::I32LeS)
    } else if is_kw(kw, "i32.le_u") {
        Some(Instr::I32LeU)
    } else if is_kw(kw, "i32.ge_s") {
        Some(Instr::I32GeS)
    } else if is_kw(kw, "i32.ge_u") {
        Some(Instr::I32GeU)
    } else if is_kw(kw, "i64.add") {
        Some(Instr::I64Add)
    } else if is_kw(kw, "i64.sub") {
        Some(Instr::I64Sub)
    } else if is_kw(kw, "i64.mul") {
        Some(Instr::I64Mul)
    } else if is_kw(kw, "i64.and") {
        Some(Instr::I64And)
    } else if is_kw(kw, "i64.or") {
        Some(Instr::I64Or)
    } else if is_kw(kw, "i64.xor") {
        Some(Instr::I64Xor)
    } else if is_kw(kw, "i64.eqz") {
        Some(Instr::I64Eqz)
    } else if is_kw(kw, "i64.eq") {
        Some(Instr::I64Eq)
    } else if is_kw(kw, "i64.ne") {
        Some(Instr::I64Ne)
    } else if is_kw(kw, "f32.add") {
        Some(Instr::F32Add)
    } else if is_kw(kw, "f32.sub") {
        Some(Instr::F32Sub)
    } else if is_kw(kw, "f32.mul") {
        Some(Instr::F32Mul)
    } else if is_kw(kw, "f32.div") {
        Some(Instr::F32Div)
    } else if is_kw(kw, "f64.add") {
        Some(Instr::F64Add)
    } else if is_kw(kw, "f64.sub") {
        Some(Instr::F64Sub)
    } else if is_kw(kw, "f64.mul") {
        Some(Instr::F64Mul)
    } else if is_kw(kw, "f64.div") {
        Some(Instr::F64Div)
    } else {
        None
    }
}

/// The integer operand a constant takes from the current token (0 when
/// there is none).
pub open spec fn int_operand(t: Option<TokenView>) -> i32 {
    match t {
        Some(TokenView::Int(n)) => n,
        _ => 0,
    }
}

/// Whether the parser took the current token when it is an integer, and
/// otherwise stayed where it was.
pub closed spec fn took_int(old: Parser, new: Parser) -> bool {
    match old.la() {
        Some(TokenView::Int(_)) => stepped(old, new),
        _ => new == old,
    }
}

/// Whether the parser took the current token when it is an integer or a
/// `$name`, and otherwise stayed where it was.
pub closed spec fn took_operand(old: Parser, new: Parser) -> bool {
    match old.la() {
        Some(TokenView::Int(_)) => stepped(old, new),
        Some(TokenView::Identifier(_)) => stepped(old, new),
        _ => new == old,
    }
}

/// The float literal the current token gives a `f32.const`/`f64.const`:
/// a float's text, an integer, or none.
pub closed spec fn float_lit<'b>(p: Parser<'b>) -> Option<FloatLit<'b>> {
    match p.lookahead {
        Some(Token::Float(t)) => Some(FloatLit::Text(t)),
        Some(Token::Int(n)) => Some(FloatLit::Int(n)),
        _ => None,
    }
}

/// Whether `r` is the constant instruction keyword `kw` makes at `p`: an
/// integer operand for `i32.const`/`i64.const` (0 when there is none); for
/// `f32.const`/`f64.const` the bits `conv` gives for the literal (0 when
/// there is none); `None` for other keywords.
pub closed spec fn const_result<'b, C: Fn(FloatLit<'b>) -> (u32, u64)>(
    kw: Seq<u8>,
    p: Parser<'b>,
    conv: C,
    r: Option<Instr>,
) -> bool {
    if kw == "i32.const".spec_bytes() {
        r == Some(Instr::I32Const(int_operand(p.la())))
    } else if kw == "i64.const".spec_bytes() {
        r == Some(Instr::I64Const(int_operand(p.la())))
    } else if kw == "f32.const".spec_bytes() {
        match float_lit(p) {
            Some(l) => exists|o: (u32, u64)| #[trigger] call_ensures(conv, (l,), o) && r == Some(Instr::F32Const(o.0)),
            None => r == Some(Instr::F32Const(0)),
        }
    } else if kw == "f64.const".spec_bytes() {
        match float_lit(p) {
            Some(l) => exists|o: (u32, u64)| #[trigger] call_ensures(conv, (l,), o) && r == Some(Instr::F64Const(o.1)),
            None => r == Some(Instr::F64Const(0)),
        }
    } else {
        r is None
    }
}

/// The function index a `call` operand names: an integer, or the index
/// bound to a `$name` (0 when unbound or absent).
pub closed spec fn func_operand(p: Parser) -> u32 {
    match p.la() {
        Some(TokenView::Int(n)) => n as u32,
        Some(TokenView::Identifier(id)) => match lookup_name(names_view(p.func_names@), id) {
            Some(i) => i,
            None => 0u32,
        },
        _ => 0,
    }
}

/// The label depth a `br`/`br_if` operand names (0 for a `$name` or none).
pub open spec fn label_operand(p: Parser) -> u32 {
    match p.la() {
        Some(TokenView::Int(n)) => n as u32,
        _ => 0,
    }
}

/// The instruction an index keyword makes at `p`; `None` for others.
pub open spec fn index_result(kw: Seq<u8>, p: Parser) -> Option<Instr> {
    if kw == "local.get".spec_bytes() || kw == "get_local".spec_bytes() {
        Some(Instr::LocalGet(local_operand(p)))
    } else if kw == "local.set".spec_bytes() || kw == "set_local".spec_bytes() {
        Some(Instr::LocalSet(local_operand(p)))
    } else if kw == "local.tee".spec_bytes() || kw == "tee_local".spec_bytes() {
        Some(Instr::LocalTee(local_operand(p)))
    } else if kw == "call".spec_bytes() {
        Some(Instr::Call(func_operand(p)))
    } else if kw == "br".spec_bytes() {
        Some(Instr::Br(label_operand(p)))
    } else if kw == "br_if".spec_bytes() {
        Some(Instr::BrIf(label_operand(p)))
    } else {
        None
    }
}

/// The number of `offset=`/`align=` keywords ahead of `p`.
pub open spec fn memarg_len(p: Parser) -> nat {
    choose|n: nat|
        {
            &&& forall|i: nat| i < n ==> #[trigger] is_memarg_kw(ahead(p, i))
            &&& !is_memarg_kw(ahead(p, n))
        }
}

/// A run of `offset=`/`align=` keywords ends at one place only: where
/// `memarg_len` says.
proof fn lemma_memarg_len(p: Parser, n: nat)
    requires
        forall|i: nat| i < n ==> #[trigger] is_memarg_kw(ahead(p, i)),
        !is_memarg_kw(ahead(p, n)),
    ensures
        memarg_len(p) == n,
{
    let m = memarg_len(p);
    assert(exists|k: nat|
        {
            &&& forall|i: nat| i < k ==> #[trigger] is_memarg_kw(ahead(p, i))
            &&& !is_memarg_kw(ahead(p, k))
        }) by {
        assert(forall|i: nat| i < n ==> #[trigger] is_memarg_kw(ahead(p, i)));
    }
    if m < n {
        assert(is_memarg_kw(ahead(p, m)));
    } else if n < m {
        assert(is_memarg_kw(ahead(p, n)));
    }
}

/// The `(offset, align)` the keywords ahead of `p` set.
pub open spec fn memarg_result(p: Parser) -> (u32, u32) {
    memarg_scan(p, memarg_len(p))
}

/// The instruction a memory keyword makes at `p`; `None` for others.
pub open spec fn memory_result(kw: Seq<u8>, p: Parser) -> Option<Instr> {
    let (o, a) = memarg_result(p);
    if kw == "i32.load".spec_bytes() {
        Some(Instr::I32Load { offset: o, align: a })
    } else if kw == "i32.store".spec_bytes() {
        Some(Instr::I32Store { offset: o, align: a })
    } else if kw == "i32.load8_s".spec_bytes() {
        Some(Instr::I32Load8S { offset: o, align: a })
    } else if kw == "i32.load8_u".spec_bytes() {
        Some(Instr::I32Load8U { offset: o, align: a })
    } else if kw == "i32.store8".spec_bytes() {
        Some(Instr::I32Store8 { offset: o, align: a })
    } else {
        None
    }
}

/// The block type at `p`: `(result t)` gives `t`'s byte (0x40 for a
/// token that names no value type), with its `)` required; anything else,
/// an empty block type (0x40).
pub open spec fn block_type_of(p: Parser) -> Result<u8, ParseError> {
    if p.la() == Some(TokenView::LParen) && is_keyword(ahead(p, 1), "result".spec_bytes()) {
        if ahead(p, 3) == Some(TokenView::RParen) {
            Ok(
                match valtype_tok(ahead(p, 2)) {
                    Some(v) => valtype_byte(v),
                    None => 0x40u8,
                },
            )
        } else {
            Err(ParseError::ExpectedRParen)
        }
    } else {
        Ok(0x40)
    }
}

/// What a block keyword makes at `p`.
pub open spec fn block_result(kw: Seq<u8>, p: Parser) -> Result<Option<Instr>, ParseError> {
    match block_type_of(p) {
        Err(e) => Err(e),
        Ok(b) => Ok(
            if kw == "if".spec_bytes() {
                Some(Instr::If { block_ty: b })
            } else if kw == "loop".spec_bytes() {
                Some(Instr::Loop { block_ty: b })
            } else {
                Some(Instr::Block { block_ty: b })
            },
        ),
    }
}

/// Whether a keyword names an operator the assembler knows.
pub open spec fn known_op(kw: Seq<u8>) -> bool {
    kw_simple(kw) is Some || is_const_kw(kw) || is_index_kw(kw) || is_memory_kw(kw) || is_block_kw(kw)
}

impl<'a> Parser<'a> {
    /// A constant instruction (`i32.const`, `i64.const`, `f32.const`,
    /// `f64.const`) with its literal; float literals are turned into bits by
    /// `conv`. `None` for other keywords.
    fn const_instr<C: Fn(FloatLit<'a>) -> (u32, u64)>(&mut self, kw: &[u8], conv: &C) -> (r: Option<Instr>)
        requires
            old(self).wf(),
            forall|l: FloatLit<'a>| call_requires(*conv, (l,)),
        ensures
            advanced(*old(self), *final(self)),
            same_names(*old(self), *final(self)),
            kw@ == "i32.const".spec_bytes() ==> r == Some(Instr::I32Const(int_operand(old(self).la())))
                && took_int(*old(self), *final(self)),
            kw@ != "i32.const".spec_bytes() && kw@ == "i64.const".spec_bytes() ==> r == Some(
                Instr::I64Const(int_operand(old(self).la())),
            ) && took_int(*old(self), *final(self)),
            kw@ != "i32.const".spec_bytes() && kw@ != "i64.const".spec_bytes() && kw@
                == "f32.const".spec_bytes() ==> r matches Some(Instr::F32Const(_)),
            kw@ != "i32.const".spec_bytes() && kw@ != "i64.const".spec_bytes() && kw@
                != "f32.const".spec_bytes() && kw@ == "f64.const".spec_bytes() ==> r matches Some(
                Instr::F64Const(_),
            ),
            !is_const_kw(kw@) ==> r is None && *final(self) == *old(self),
            const_result(kw@, *old(self), *conv, r),
    {
        if is_kw(kw, "i32.const") {
            let n: i32 = match self.lookahead {
                Some(Token::Int(n)) => {
                    self.bump();
                    n
                },
                _ => 0,
            };
            Some(Instr::I32Const(n))
        } else if is_kw(kw, "i64.const") {
            let n: i32 = match self.lookahead {
                Some(Token::Int(n)) => {
                    self.bump();
                    n
                },
                _ => 0,
            };
            Some(Instr::I64Const(n))
        } else if is_kw(kw, "f32.const") {
            let bits: u32 = match self.lookahead {
                Some(Token::Float(t)) => {
                    self.bump();
                    conv(FloatLit::Text(t)).0
                },
                Some(Token::Int(n)) => {
                    self.bump();
                    conv(FloatLit::Int(n)).0
                },
                _ => 0,
            };
            Some(Instr::F32Const(bits))
        } else if is_kw(kw, "f64.const") {
            let bits: u64 = match self.lookahead {
                Some(Token::Float(t)) => {
                    self.bump();
                    conv(FloatLit::Text(t)).1
                },
                Some(Token::Int(n)) => {
                    self.bump();
                    conv(FloatLit::Int(n)).1
                },
                _ => 0,
            };
            Some(Instr::F64Const(bits))
        } else {
            None
        }
    }

    /// An instruction with an index operand (locals, `call`, `br`, `br_if`);
    /// `None` for other keywords.
    fn index_instr(&mut self, kw: &[u8]) -> (r: Option<Instr>)
        requires
            old(self).wf(),
        ensures
            advanced(*old(self), *final(self)),
            same_names(*old(self), *final(self)),
            (kw@ == "local.get".spec_bytes() || kw@ == "get_local".spec_bytes()) ==> r == Some(
                Instr::LocalGet(local_operand(*old(self))),
            ),
            !(kw@ == "local.get".spec_bytes() || kw@ == "get_local".spec_bytes()) && (kw@
                == "local.set".spec_bytes() || kw@ == "set_local".spec_bytes()) ==> r == Some(
                Instr::LocalSet(local_operand(*old(self))),
            ),
            !(kw@ == "local.get".spec_bytes() || kw@ == "get_local".spec_bytes()) && !(kw@
                == "local.set".spec_bytes() || kw@ == "set_local".spec_bytes()) && (kw@
                == "local.tee".spec_bytes() || kw@ == "tee_local".spec_bytes()) ==> r == Some(
                Instr::LocalTee(local_operand(*old(self))),
            ),
            !is_index_kw(kw@) ==> r is None && *final(self) == *old(self),
            is_index_kw(kw@) ==> r is Some,
            r == index_result(kw@, *old(self)),
            is_index_kw(kw@) ==> took_operand(*old(self), *final(self)),
    {
        if is_kw(kw, "local.get") || is_kw(kw, "get_local") {
            Some(Instr::LocalGet(self.parse_local_or_func_idx()))
        } else if is_kw(kw, "local.set") || is_kw(kw, "set_local") {
            Some(Instr::LocalSet(self.parse_local_or_func_idx()))
        } else if is_kw(kw, "local.tee") || is_kw(kw, "tee_local") {
            Some(Instr::LocalTee(self.parse_local_or_func_idx()))
        } else if is_kw(kw, "call") {
            Some(Instr::Call(self.parse_func_idx()))
        } else if is_kw(kw, "br") {
            Some(Instr::Br(self.parse_label_idx()))
        } else if is_kw(kw, "br_if") {
            Some(Instr::BrIf(self.parse_label_idx()))
        } else {
            None
        }
    }

    /// A memory instruction with its `offset=`/`align=` operands; `None`
    /// for other keywords.
    fn memory_instr(&mut self, kw: &[u8]) -> (r: Option<Instr>)
        requires
            old(self).wf(),
        ensures
            advanced(*old(self), *final(self)),
            same_names(*old(self), *final(self)),
            !is_memory_kw(kw@) ==> r is None && *final(self) == *old(self),
            is_memory_kw(kw@) ==> r is Some,
            r == memory_result(kw@, *old(self)),
    {
        if is_kw(kw, "i32.load") {
            let (o, a) = self.parse_memarg();
            Some(Instr::I32Load { offset: o, align: a })
        } else if is_kw(kw, "i32.store") {
            let (o, a) = self.parse_memarg();
            Some(Instr::I32Store { offset: o, align: a })
        } else if is_kw(kw, "i32.load8_s") {
            let (o, a) = self.parse_memarg();
            Some(Instr::I32Load8S { offset: o, align: a })
        } else if is_kw(kw, "i32.load8_u") {
            let (o, a) = self.parse_memarg();
            Some(Instr::I32Load8U { offset: o, align: a })
        } else if is_kw(kw, "i32.store8") {
            let (o, a) = self.parse_memarg();
            Some(Instr::I32Store8 { offset: o, align: a })
        } else {
            None
        }
    }

    /// The instruction that keyword `kw` names, its operands taken from
    /// the tokens that follow; `None` for an unknown keyword.
    fn build_instr<C: Fn(FloatLit<'a>) -> (u32, u64)>(&mut self, kw: &[u8], conv: &C) -> (r: Result<
        Option<Instr>,
        ParseError,
    >)
        requires
            old(self).wf(),
            forall|l: FloatLit<'a>| call_requires(*conv, (l,)),
        ensures
            advanced(*old(self), *final(self)),
            same_names(*old(self), *final(self)),
            !known_op(kw@) ==> r == Ok::<Option<Instr>, ParseError>(None) && *final(self) == *old(self),
            known_op(kw@) && r is Ok ==> r.unwrap() is Some,
            !is_const_kw(kw@) && !is_index_kw(kw@) && !is_memory_kw(kw@) && !is_block_kw(kw@) ==> r
                == Ok::<Option<Instr>, ParseError>(kw_simple(kw@)) && *final(self) == *old(self),
            is_const_kw(kw@) ==> r is Ok && const_result(kw@, *old(self), *conv, r.unwrap()),
            !is_const_kw(kw@) && is_index_kw(kw@) ==> r == Ok::<Option<Instr>, ParseError>(
                index_result(kw@, *old(self)),
            ),
            !is_const_kw(kw@) && !is_index_kw(kw@) && is_memory_kw(kw@) ==> r == Ok::<Option<Instr>, ParseError>(
                memory_result(kw@, *old(self)),
            ),
            !is_const_kw(kw@) && !is_index_kw(kw@) && !is_memory_kw(kw@) && is_block_kw(kw@) ==> r
                == block_result(kw@, *old(self)),
            kw@ == "i32.const".spec_bytes() || kw@ == "i64.const".spec_bytes() ==> took_int(*old(self), *final(self)),
            !is_const_kw(kw@) && is_index_kw(kw@) ==> took_operand(*old(self), *final(self)),
    {
        if is_const_kw_exec(kw) {
            return Ok(self.const_instr(kw, conv));
        }
        if is_index_kw_exec(kw) {
            return Ok(self.index_instr(kw));
        }
        if is_memory_kw_exec(kw) {
            return Ok(self.memory_instr(kw));
        }
        if is_kw(kw, "if") {
            Ok(Some(Instr::If { block_ty: self.parse_block_type()? }))
        } else if is_kw(kw, "loop") {
            Ok(Some(Instr::Loop { block_ty: self.parse_block_type()? }))
        } else if is_kw(kw, "block") {
            Ok(Some(Instr::Block { block_ty: self.parse_block_type()? }))
        } else {
            Ok(simple_instr(kw))
        }
    }
}

/// The local index a `local.*` operand names (see `parse_local_or_func_idx`).
pub closed spec fn local_operand(p: Parser) -> u32 {
    match p.la() {
        Some(TokenView::Int(n)) => n as u32,
        Some(TokenView::Identifier(id)) => type_name_index(names_view(p.local_names@), id),
        _ => 0,
    }
}

/// The constant keywords.
pub open spec fn is_const_kw(kw: Seq<u8>) -> bool {
    kw == "i32.const".spec_bytes() || kw == "i64.const".spec_bytes() || kw == "f32.const".spec_bytes()
        || kw == "f64.const".spec_bytes()
}

/// The keywords with an index operand.
pub open spec fn is_index_kw(kw: Seq<u8>) -> bool {
    ||| kw == "local.get".spec_bytes() || kw == "get_local".spec_bytes()
    ||| kw == "local.set".spec_bytes() || kw == "set_local".spec_bytes()
    ||| kw == "local.tee".spec_bytes() || kw == "tee_local".spec_bytes()
    ||| kw == "call".spec_bytes() || kw == "br".spec_bytes() || kw == "br_if".spec_bytes()
}

/// The memory-access keywords.
pub open spec fn is_memory_kw(kw: Seq<u8>) -> bool {
    ||| kw == "i32.load".spec_bytes() || kw == "i32.store".spec_bytes()
    ||| kw == "i32.load8_s".spec_bytes() || kw == "i32.load8_u".spec_bytes()
    ||| kw == "i32.store8".spec_bytes()
}

/// The block keywords.
pub open spec fn is_block_kw(kw: Seq<u8>) -> bool {
    kw == "if".spec_bytes() || kw == "loop".spec_bytes() || kw == "block".spec_bytes()
}

fn is_const_kw_exec(kw: &[u8]) -> (r: bool)
    ensures
        r == is_const_kw(kw@),
{
    is_kw(kw, "i32.const") || is_kw(kw, "i64.const") || is_kw(kw, "f32.const") || is_kw(kw, "f64.const")
}

fn is_index_kw_exec(kw: &[u8]) -> (r: bool)
    ensures
        r == is_index_kw(kw@),
{
    is_kw(kw, "local.get") || is_kw(kw, "get_local") || is_kw(kw, "local.set") || is_kw(kw, "set_local")
        || is_kw(kw, "local.tee") || is_kw(kw, "tee_local") || is_kw(kw, "call") || is_kw(kw, "br")
        || is_kw(kw, "br_if")
}

fn is_memory_kw_exec(kw: &[u8]) -> (r: bool)
    ensures
        r == is_memory_kw(kw@),
{
    is_kw(kw, "i32.load") || is_kw(kw, "i32.store") || is_kw(kw, "i32.load8_s") || is_kw(kw, "i32.load8_u")
        || is_kw(kw, "i32.store8")
}

/// Whether an instruction opens an `if`.
pub open spec fn is_if(i: Instr) -> bool {
    i matches Instr::If { .. }
}

/// Whether a list of instructions ends with `end`.
pub open spec fn ends_with_end(v: Seq<Instr>) -> bool {
    v.len() > 0 && v.last() == Instr::End
}

/// The integer an operand token gives (0 for anything else).
pub open spec fn int_index(t: Option<TokenView>) -> u32 {
    match t {
        Some(TokenView::Int(n)) => n as u32,
        _ => 0,
    }
}

/// Tokens an optional integer operand takes.
pub open spec fn int_skip(t: Option<TokenView>) -> nat {
    if t matches Some(TokenView::Int(_)) {
        1
    } else {
        0
    }
}

/// The instruction the keyword at the `u`-th token ahead of `p` makes, with
/// the position after it, for keywords whose operands are plain tokens: an
/// instruction without operands (or an unknown keyword, which is skipped),
/// `i32.const`/`i64.const` with an optional integer, and the local, `call`
/// and branch instructions with an optional integer index. `None` for
/// float constants, `$name` indices, memory and block instructions, and
/// for anything but a keyword.
pub open spec fn flat_instr(p: Parser, u: nat) -> Option<(nat, Option<Instr>)> {
    match ahead(p, u) {
        Some(TokenView::Keyword(k)) => {
            let t = ahead(p, u + 1);
            if is_const_kw(k) {
                if k == "i32.const".spec_bytes() {
                    Some((u + 1 + int_skip(t), Some(Instr::I32Const(int_operand(t)))))
                } else if k == "i64.const".spec_bytes() {
                    Some((u + 1 + int_skip(t), Some(Instr::I64Const(int_operand(t)))))
                } else {
                    None
                }
            } else if is_index_kw(k) {
                if t matches Some(TokenView::Identifier(_)) {
                    None
                } else {
                    let v = int_index(t);
                    Some(
                        (
                            u + 1 + int_skip(t),
                            Some(
                                if k == "local.get".spec_bytes() || k == "get_local".spec_bytes() {
                                    Instr::LocalGet(v)
                                } else if k == "local.set".spec_bytes() || k == "set_local".spec_bytes() {
                                    Instr::LocalSet(v)
                                } else if k == "local.tee".spec_bytes() || k == "tee_local".spec_bytes() {
                                    Instr::LocalTee(v)
                                } else if k == "call".spec_bytes() {
                                    Instr::Call(v)
                                } else if k == "br".spec_bytes() {
                                    Instr::Br(v)
                                } else {
                                    Instr::BrIf(v)
                                },
                            ),
                        ),
                    )
                }
            } else if is_memory_kw(k) || is_block_kw(k) {
                None
            } else {
                Some((u + 1, kw_simple(k)))
            }
        },
        _ => None,
    }
}

/// The first `n` instructions of the `flat_instr` kind from the `u0`-th
/// token ahead of `p`: the position after them and what they make, in
/// order.
pub open spec fn flat_run(p: Parser, u0: nat, n: nat) -> Option<(nat, Seq<Instr>)>
    decreases n,
{
    if n == 0 {
        Some((u0, Seq::empty()))
    } else {
        match flat_run(p, u0, (n - 1) as nat) {
            None => None,
            Some((u, is)) => match flat_instr(p, u) {
                None => None,
                Some((u2, oi)) => Some((u2, is + opt_seq(oi))),
            },
        }
    }
}

/// `n` such instructions from the `u0`-th token, then a `)` or the end of
/// the text.
pub open spec fn flat_form(p: Parser, u0: nat, n: nat) -> bool {
    &&& flat_run(p, u0, n) is Some
    &&& (ahead(p, flat_run(p, u0, n).unwrap().0) == Some(TokenView::RParen) || ahead(
        p,
        flat_run(p, u0, n).unwrap().0,
    ) is None)
}

/// The first `k` of `n` such instructions are followed by another.
proof fn lemma_flat_prefix(p: Parser, u0: nat, n: nat, k: nat)
    requires
        flat_run(p, u0, n) is Some,
        k <= n,
    ensures
        flat_run(p, u0, k) is Some,
        k < n ==> flat_instr(p, flat_run(p, u0, k).unwrap().0) is Some,
    decreases n,
{
    if k < n {
        lemma_flat_prefix(p, u0, (n - 1) as nat, k);
    }
}

/// A run of such instructions ends in one place only.
proof fn lemma_flat_unique(p: Parser, u0: nat)
    ensures
        forall|n1: nat, n2: nat| #[trigger] flat_form(p, u0, n1) && #[trigger] flat_form(p, u0, n2) ==> n1 == n2,
{
    assert forall|n1: nat, n2: nat| #[trigger] flat_form(p, u0, n1) && #[trigger] flat_form(p, u0, n2) implies n1
        == n2 by {
        if n1 < n2 {
            lemma_flat_prefix(p, u0, n2, n1);
        } else if n2 < n1 {
            lemma_flat_prefix(p, u0, n1, n2);
        }
    }
}

/// When the token after the first `f` such instructions starts none and is
/// no `)` nor the end, no count of them is followed by a `)` or the end.
proof fn lemma_no_flat(p: Parser, u0: nat, f: nat)
    requires
        flat_run(p, u0, f) is Some,
        flat_instr(p, flat_run(p, u0, f).unwrap().0) is None,
        !(ahead(p, flat_run(p, u0, f).unwrap().0) == Some(TokenView::RParen) || ahead(
            p,
            flat_run(p, u0, f).unwrap().0,
        ) is None),
    ensures
        forall|n: nat| !#[trigger] flat_form(p, u0, n),
{
    assert forall|n: nat| !#[trigger] flat_form(p, u0, n) by {
        if flat_form(p, u0, n) {
            if n < f {
                lemma_flat_prefix(p, u0, f, n);
            } else if n > f {
                lemma_flat_prefix(p, u0, n, f);
            }
        }
    }
}

/// The instruction at the `u`-th token ahead of `p` is the one at the
/// front of a state `u` tokens on.
proof fn lemma_flat_at(p: Parser, q: Parser, u: nat)
    requires
        shifted(q, p, u),
    ensures
        flat_instr(q, 0) == match flat_instr(p, u) {
            Some((x, oi)) => Some(((x - u) as nat, oi)),
            None => None::<(nat, Option<Instr>)>,
        },
        flat_instr(p, u) matches Some((x, _)) ==> x >= u + 1,
{
    assert(ahead(q, 0) == ahead(p, 0 + u));
    assert(ahead(q, 1) == ahead(p, 1 + u));
}

/// Runs seen `off` tokens on are runs of `p` that much further.
proof fn lemma_flat_shift(p: Parser, q: Parser, off: nat, n: nat)
    requires
        shifted(q, p, off),
    ensures
        flat_run(q, 0, n) == match flat_run(p, off, n) {
            Some((x, is)) => Some(((x - off) as nat, is)),
            None => None::<(nat, Seq<Instr>)>,
        },
        flat_run(p, off, n) matches Some((x, _)) ==> x >= off,
        flat_form(q, 0, n) == flat_form(p, off, n),
    decreases n,
{
    if n > 0 {
        lemma_flat_shift(p, q, off, (n - 1) as nat);
        match flat_run(p, off, (n - 1) as nat) {
            Some((x, is)) => {
                let y = (x - off) as nat;
                assert(ahead(q, y) == ahead(p, y + off));
                assert(ahead(q, y + 1) == ahead(p, (y + 1) + off));
            },
            None => {},
        }
    }
    match flat_run(p, off, n) {
        Some((x, is)) => {
            let y = (x - off) as nat;
            assert(ahead(q, y) == ahead(p, y + off));
        },
        None => {},
    }
}

/// Whether a token is a keyword that is an instruction without operands,
/// or no instruction at all (such a keyword is skipped).
pub open spec fn plain_kw_tok(t: Option<TokenView>) -> bool {
    match t {
        Some(TokenView::Keyword(k)) => !is_const_kw(k) && !is_index_kw(k) && !is_memory_kw(k) && !is_block_kw(k),
        _ => false,
    }
}

/// The `n` tokens ahead of `p` are such keywords, and a `)` or the end of
/// the text follows them.
pub open spec fn plain_run(p: Parser, n: nat) -> bool {
    &&& forall|i: nat| i < n ==> #[trigger] plain_kw_tok(ahead(p, i))
    &&& (ahead(p, n) == Some(TokenView::RParen) || ahead(p, n) is None)
}

/// The instructions the first `n` tokens ahead of `p` name, in order.
pub open spec fn plain_instrs(p: Parser, n: nat) -> Seq<Instr>
    decreases n,
{
    if n == 0 {
        Seq::empty()
    } else {
        plain_instrs(p, (n - 1) as nat) + tok_instr(ahead(p, (n - 1) as nat))
    }
}

/// The instruction a keyword token names, as a sequence of none or one.
pub open spec fn tok_instr(t: Option<TokenView>) -> Seq<Instr> {
    match t {
        Some(TokenView::Keyword(k)) => opt_seq(kw_simple(k)),
        _ => Seq::empty(),
    }
}

/// The tokens ahead of `p` from the `j`-th on are `n` such keywords, and a
/// `)` or the end of the text follows them.
pub open spec fn plain_run_from(p: Parser, j: nat, n: nat) -> bool {
    &&& forall|i: nat| i < n ==> #[trigger] plain_kw_tok(ahead(p, j + i))
    &&& (ahead(p, j + n) == Some(TokenView::RParen) || ahead(p, j + n) is None)
}

/// The instructions the `n` tokens ahead of `p` from the `j`-th on name.
pub open spec fn plain_instrs_from(p: Parser, j: nat, n: nat) -> Seq<Instr>
    decreases n,
{
    if n == 0 {
        Seq::empty()
    } else {
        plain_instrs_from(p, j, (n - 1) as nat) + tok_instr(ahead(p, j + (n - 1) as nat))
    }
}

/// Runs seen from a state `j` tokens on are runs from the `j`-th token.
proof fn lemma_plain_from(p0: Parser, q: Parser, j: nat, n: nat)
    requires
        shifted(q, p0, j),
    ensures
        plain_run_from(p0, j, n) ==> plain_run(q, n),
        plain_instrs(q, n) == plain_instrs_from(p0, j, n),
    decreases n,
{
    if n > 0 {
        lemma_plain_from(p0, q, j, (n - 1) as nat);
        assert(ahead(q, (n - 1) as nat) == ahead(p0, (n - 1) as nat + j));
    }
    if plain_run_from(p0, j, n) {
        assert forall|i: nat| i < n implies #[trigger] plain_kw_tok(ahead(q, i)) by {
            assert(ahead(q, i) == ahead(p0, i + j));
            assert(plain_kw_tok(ahead(p0, j + i)));
        }
        assert(ahead(q, n) == ahead(p0, n + j));
    }
}

/// The instruction an option holds, as a sequence of none or one.
pub open spec fn opt_seq(o: Option<Instr>) -> Seq<Instr> {
    match o {
        Some(i) => seq![i],
        None => Seq::empty(),
    }
}

/// What a folded instruction gives when its operator is such a keyword
/// with no operand lists: that instruction, if it is one, once its `)`
/// follows; else the `)` is missing.
#[verifier::opaque]
pub open spec fn folded_plain(p: Parser, r: Result<Vec<Instr>, ParseError>, fin: Parser) -> bool {
    plain_kw_tok(p.la()) && ahead(p, 1) != Some(TokenView::LParen) ==> if ahead(p, 1) == Some(
        TokenView::RParen,
    ) {
        r is Ok && r.unwrap()@ == opt_seq(kw_simple(p.la().unwrap()->Keyword_0)) && shifted(fin, p, 2)
    } else {
        r == Err::<Vec<Instr>, ParseError>(ParseError::ExpectedRParen)
    }
}

/// A run of such keywords ends at one place only.
proof fn lemma_plain_run_unique(p: Parser)
    ensures
        forall|n1: nat, n2: nat| #[trigger] plain_run(p, n1) && #[trigger] plain_run(p, n2) ==> n1 == n2,
{
    assert forall|n1: nat, n2: nat| #[trigger] plain_run(p, n1) && #[trigger] plain_run(p, n2) implies n1 == n2 by {
        if n1 < n2 {
            assert(plain_kw_tok(ahead(p, n1)));
        } else if n2 < n1 {
            assert(plain_kw_tok(ahead(p, n2)));
        }
    }
}

impl<'a> Parser<'a> {
    /// Instructions, plain or folded, up to a `)` or the end of the text
    /// (which is left in place). Stray tokens are skipped.
    fn parse_instrs<C: Fn(FloatLit<'a>) -> (u32, u64)>(&mut self, conv: &C) -> (r: Result<
        Vec<Instr>,
        ParseError,
    >)
        requires
            old(self).wf(),
            forall|l: FloatLit<'a>| call_requires(*conv, (l,)),
        ensures
            advanced(*old(self), *final(self)),
            same_names(*old(self), *final(self)),
            r is Ok ==> final(self).la() == Some(TokenView::RParen) || final(self).la() is None,
            forall|n: nat| #[trigger]
                plain_run(*old(self), n) ==> r is Ok && r.unwrap()@ == plain_instrs(*old(self), n) && shifted(
                    *final(self),
                    *old(self),
                    n,
                ),
            forall|n: nat| #[trigger]
                flat_form(*old(self), 0, n) ==> r is Ok && r.unwrap()@ == flat_run(*old(self), 0, n).unwrap().1
                    && shifted(*final(self), *old(self), flat_run(*old(self), 0, n).unwrap().0),
        decreases measure(*old(self)), 2int,
    {
        let mut instrs: Vec<Instr> = Vec::new();
        let ghost start = *self;
        let ghost mut n: nat = 0;
        let ghost mut on_run: bool = true;
        let ghost mut fc: nat = 0;
        let ghost mut fon: bool = true;
        let ghost mut fpos: nat = 0;
        proof {
            assert forall|k: nat| #[trigger] ahead(start, k) == ahead(start, k + 0) by {}
        }
        loop
            invariant
                advanced(start, *self),
                same_names(start, *self),
                start == *old(self),
                forall|l: FloatLit<'a>| call_requires(*conv, (l,)),
                on_run ==> shifted(*self, start, n) && instrs@ == plain_instrs(start, n) && forall|i: nat|
                    i < n ==> #[trigger] plain_kw_tok(ahead(start, i)),
                !on_run ==> forall|m: nat| !#[trigger] plain_run(start, m),
                fon ==> flat_run(start, 0, fc) == Some((fpos, instrs@)) && shifted(*self, start, fpos),
                !fon ==> forall|m: nat| !#[trigger] flat_form(start, 0, m),
            ensures
                advanced(start, *self),
                same_names(start, *self),
                self.la() == Some(TokenView::RParen) || self.la() is None,
                on_run ==> shifted(*self, start, n) && instrs@ == plain_instrs(start, n) && plain_run(start, n),
                !on_run ==> forall|m: nat| !#[trigger] plain_run(start, m),
                fon ==> flat_run(start, 0, fc) == Some((fpos, instrs@)) && shifted(*self, start, fpos)
                    && flat_form(start, 0, fc),
                !fon ==> forall|m: nat| !#[trigger] flat_form(start, 0, m),
            decreases measure(*self),
        {
            proof {
                if fon {
                    assert(ahead(*self, 0) == ahead(start, 0 + fpos));
                    assert(ahead(*self, 0) == self.la());
                    if flat_instr(start, fpos) is None && !(self.la() == Some(TokenView::RParen) || self.la() is None) {
                        lemma_no_flat(start, 0, fc);
                        fon = false;
                    }
                }
            }
            proof {
                if on_run {
                    assert(ahead(*self, 0) == ahead(start, 0 + n));
                }
                assert(ahead(*self, 0) == self.la());
            }
            let ghost here = *self;
            let ghost plain = plain_kw_tok(self.la());
            proof {
                if on_run && !plain && !(self.la() == Some(TokenView::RParen) || self.la() is None) {
                    assert forall|m: nat| !#[trigger] plain_run(start, m) by {
                        if plain_run(start, m) {
                            if m < n {
                                assert(plain_kw_tok(ahead(start, m)));
                            } else if m > n {
                                assert(plain_kw_tok(ahead(start, n)));
                            }
                        }
                    }
                    on_run = false;
                }
            }
            match self.lookahead {
                None => {
                    break;
                },
                Some(Token::RParen) => {
                    break;
                },
                Some(Token::LParen) => {
                    self.bump();
                    let mut folded = self.parse_folded_instr(conv)?;
                    instrs.append(&mut folded);
                },
                Some(Token::Keyword(_)) => {
                    let ghost before = instrs@;
                    match self.parse_plain_instr(conv)? {
                        Some(instr) => {
                            instrs.push(instr);
                        },
                        None => {},
                    }
                    proof {
                        if on_run {
                            lemma_step_shift(start, here, *self, n);
                            reveal_with_fuel(plain_instrs, 2);
                            assert(instrs@ =~= plain_instrs(start, n + 1));
                            n = n + 1;
                        }
                        if fon {
                            let (nx, oi) = flat_instr(start, fpos).unwrap();
                            lemma_flat_at(start, here, fpos);
                            lemma_shifted_trans(*self, here, start, (nx - fpos) as nat, fpos);
                            assert(instrs@ =~= before + opt_seq(oi));
                            assert(flat_run(start, 0, fc + 1) == Some((nx, instrs@)));
                            fc = fc + 1;
                            fpos = nx;
                        }
                    }
                },
                _ => {
                    self.bump();
                },
            }
        }
        proof {
            lemma_plain_run_unique(start);
            lemma_flat_unique(start, 0);
        }
        Ok(instrs)
    }

    /// A plain instruction: a keyword and its operands.
    fn parse_plain_instr<C: Fn(FloatLit<'a>) -> (u32, u64)>(&mut self, conv: &C) -> (r: Result<
        Option<Instr>,
        ParseError,
    >)
        requires
            old(self).wf(),
            forall|l: FloatLit<'a>| call_requires(*conv, (l,)),
        ensures
            advanced(*old(self), *final(self)),
            same_names(*old(self), *final(self)),
            old(self).la() matches Some(TokenView::Keyword(_)) ==> measure(*final(self)) < measure(
                *old(self),
            ),
            !(old(self).la() matches Some(TokenView::Keyword(_))) ==> r == Ok::<Option<Instr>, ParseError>(
                None,
            ) && *final(self) == *old(self),
            plain_kw_tok(old(self).la()) ==> r == Ok::<Option<Instr>, ParseError>(
                kw_simple(old(self).la().unwrap()->Keyword_0),
            ) && stepped(*old(self), *final(self)),
            flat_instr(*old(self), 0) matches Some((nx, oi)) ==> r == Ok::<Option<Instr>, ParseError>(oi)
                && shifted(*final(self), *old(self), nx),
    {
        let ghost p0 = *self;
        proof {
            assert forall|k: nat| #[trigger] ahead(p0, k) == ahead(p0, k + 0) by {}
            assert(ahead(p0, 0) == p0.la());
        }
        let kw = match self.lookahead {
            Some(Token::Keyword(k)) => {
                self.bump();
                k
            },
            _ => {
                return Ok(None);
            },
        };
        let ghost p1 = *self;
        proof {
            lemma_step_shift(p0, p0, p1, 0);
            assert(ahead(p1, 0) == p1.la());
            assert(ahead(p1, 0) == ahead(p0, 0 + 1));
        }
        let r = self.build_instr(kw, conv);
        proof {
            if flat_instr(p0, 0) is Some {
                let t = ahead(p0, 1);
                if t matches Some(TokenView::Int(_)) {
                    if is_const_kw(kw@) || is_index_kw(kw@) {
                        lemma_step_shift(p0, p1, *self, 1);
                    }
                }
                if !(t matches Some(TokenView::Int(_))) || !(is_const_kw(kw@) || is_index_kw(kw@)) {
                    assert(*self == p1);
                }
            }
        }
        r
    }

    /// A folded instruction, its `(` already taken, through its `)`: the
    /// operand expressions first, then the operator.
    fn parse_folded_instr<C: Fn(FloatLit<'a>) -> (u32, u64)>(&mut self, conv: &C) -> (r: Result<
        Vec<Instr>,
        ParseError,
    >)
        requires
            old(self).wf(),
            forall|l: FloatLit<'a>| call_requires(*conv, (l,)),
        ensures
            advanced(*old(self), *final(self)),
            same_names(*old(self), *final(self)),
            r is Ok ==> measure(*final(self)) < measure(*old(self)),
            folded_plain(*old(self), r, *final(self)),
        decreases measure(*old(self)), 1int,
    {
        let ghost p0 = *self;
        proof {
            assert forall|k: nat| #[trigger] ahead(p0, k) == ahead(p0, k + 0) by {}
        }
        if self.at_keyword("if") {
            proof {
                reveal(folded_plain);
            }
            return self.parse_folded_if(conv);
        }
        if self.at_keyword("block") || self.at_keyword("loop") {
            proof {
                reveal(folded_plain);
            }
            return self.parse_folded_block_or_loop(conv);
        }
        let kw = match self.lookahead {
            Some(Token::Keyword(k)) => {
                self.bump();
                k
            },
            _ => {
                proof {
                    reveal(folded_plain);
                }
                self.skip_rest_of_list()?;
                return Ok(Vec::new());
            },
        };
        let ghost p1 = *self;
        proof {
            reveal(folded_plain);
        }
        let op = self.build_instr(kw, conv)?;
        let mut out: Vec<Instr> = Vec::new();
        let ghost mid = *self;
        proof {
            if plain_kw_tok(p0.la()) {
                lemma_step_shift(p0, p0, p1, 0);
                assert(shifted(mid, p0, 1));
                assert(ahead(mid, 0) == ahead(p0, 0 + 1));
                assert(ahead(mid, 0) == mid.la());
            }
            reveal(folded_plain);
        }
        assert(mid.la() == Some(TokenView::LParen) ==> forall|rr: Result<Vec<Instr>, ParseError>, ff: Parser|
            #[trigger] folded_plain(p0, rr, ff));
        loop
            invariant
                advanced(mid, *self),
                same_names(mid, *self),
                forall|l: FloatLit<'a>| call_requires(*conv, (l,)),
                measure(mid) < measure(*old(self)),
                advanced(*old(self), mid),
                same_names(*old(self), mid),
                mid.la() != Some(TokenView::LParen) ==> *self == mid && out@.len() == 0,
                p0 == *old(self),
                mid.la() == Some(TokenView::LParen) ==> forall|rr: Result<Vec<Instr>, ParseError>, ff: Parser|
                    #[trigger] folded_plain(p0, rr, ff),
            decreases measure(*self),
        {
            match self.lookahead {
                Some(Token::LParen) => {
                    self.bump();
                    let mut sub = self.parse_folded_instr(conv)?;
                    out.append(&mut sub);
                },
                _ => {
                    break;
                },
            }
        }
        let ghost q = *self;
        self.expect_rparen()?;
        proof {
            if plain_kw_tok(p0.la()) && ahead(p0, 1) == Some(TokenView::RParen) {
                lemma_step_shift(p0, q, *self, 1);
            }
        }
        match op {
            Some(i) => {
                out.push(i);
            },
            None => {},
        }
        proof {
            reveal(folded_plain);
            if plain_kw_tok(p0.la()) && ahead(p0, 1) == Some(TokenView::RParen) {
                assert(out@ =~= opt_seq(kw_simple(p0.la().unwrap()->Keyword_0)));
            }
        }
        Ok(out)
    }

    /// A folded `if`, its `(` taken: optional label and block type, the
    /// condition expressions, `(then ...)`, an optional `(else ...)`, and
    /// the closing `)`. Yields the condition, `if`, the then-branch, `else`
    /// and the else-branch when that is not empty, and `end`.
    fn parse_folded_if<C: Fn(FloatLit<'a>) -> (u32, u64)>(&mut self, conv: &C) -> (r: Result<
        Vec<Instr>,
        ParseError,
    >)
        requires
            old(self).wf(),
            is_keyword(old(self).la(), "if".spec_bytes()),
            forall|l: FloatLit<'a>| call_requires(*conv, (l,)),
        ensures
            advanced(*old(self), *final(self)),
            same_names(*old(self), *final(self)),
            measure(*final(self)) < measure(*old(self)),
            r is Ok ==> ends_with_end(r.unwrap()@),
            r is Ok ==> exists|i: int| 0 <= i < r.unwrap()@.len() && #[trigger] is_if(r.unwrap()@[i]),
        decreases measure(*old(self)), 0int,
    {
        self.bump();
        self.try_identifier();
        let bt = self.parse_block_type()?;
        let mut cond: Vec<Instr> = Vec::new();
        let mut then_instrs: Vec<Instr> = Vec::new();
        let mut else_instrs: Vec<Instr> = Vec::new();
        let ghost mid = *self;
        loop
            invariant
                advanced(mid, *self),
                same_names(mid, *self),
                forall|l: FloatLit<'a>| call_requires(*conv, (l,)),
                measure(mid) < measure(*old(self)),
                advanced(*old(self), mid),
                same_names(*old(self), mid),
            decreases measure(*self),
        {
            match self.lookahead {
                Some(Token::LParen) => {
                    self.bump();
                    if self.at_keyword("then") {
                        self.bump();
                        then_instrs = self.parse_instrs(conv)?;
                        self.expect_rparen()?;
                        break;
                    } else {
                        let mut sub = self.parse_folded_instr(conv)?;
                        cond.append(&mut sub);
                    }
                },
                _ => {
                    break;
                },
            }
        }
        if self.at_lparen() {
            self.bump();
            if self.at_keyword("else") {
                self.bump();
                else_instrs = self.parse_instrs(conv)?;
                self.expect_rparen()?;
            } else {
                self.skip_rest_of_list()?;
            }
        }
        self.expect_rparen()?;
        let mut out = cond;
        let ghost at = out@.len();
        out.push(Instr::If { block_ty: bt });
        out.append(&mut then_instrs);
        if else_instrs.len() > 0 {
            out.push(Instr::Else);
            out.append(&mut else_instrs);
        }
        out.push(Instr::End);
        assert(is_if(out@[at as int]));
        assert(0 <= at < out@.len());
        let r: Result<Vec<Instr>, ParseError> = Ok(out);
        assert(is_if(r.unwrap()@[at as int]));
        r
    }

    /// A folded `block` or `loop`, its `(` taken: optional label and block
    /// type, the body, and the closing `)`. Yields the opener, the body and
    /// `end`.
    fn parse_folded_block_or_loop<C: Fn(FloatLit<'a>) -> (u32, u64)>(&mut self, conv: &C) -> (r: Result<
        Vec<Instr>,
        ParseError,
    >)
        requires
            old(self).wf(),
            is_keyword(old(self).la(), "block".spec_bytes()) || is_keyword(old(self).la(), "loop".spec_bytes()),
            forall|l: FloatLit<'a>| call_requires(*conv, (l,)),
        ensures
            advanced(*old(self), *final(self)),
            same_names(*old(self), *final(self)),
            measure(*final(self)) < measure(*old(self)),
            r is Ok ==> ends_with_end(r.unwrap()@) && r.unwrap()@.len() >= 2,
            r is Ok && is_keyword(old(self).la(), "loop".spec_bytes()) ==> r.unwrap()@[0] matches Instr::Loop { .. },
            r is Ok && !is_keyword(old(self).la(), "loop".spec_bytes()) ==> r.unwrap()@[0] matches Instr::Block { .. },
        decreases measure(*old(self)), 0int,
    {
        let is_loop = self.at_keyword("loop");
        self.bump();
        self.try_identifier();
        let bt = self.parse_block_type()?;
        let body = self.parse_instrs(conv)?;
        self.expect_rparen()?;
        let mut out: Vec<Instr> = Vec::new();
        if is_loop {
            out.push(Instr::Loop { block_ty: bt });
        } else {
            out.push(Instr::Block { block_ty: bt });
        }
        let mut body = body;
        out.append(&mut body);
        out.push(Instr::End);
        Ok(out)
    }
}

/// The `n` tokens ahead of `p` from the `j`-th on are value types, and
/// the one after them is not.
pub open spec fn valtype_run(p: Parser, j: nat, n: nat) -> bool {
    &&& forall|i: nat| i < n ==> #[trigger] valtype_tok(ahead(p, j + i)) is Some
    &&& valtype_tok(ahead(p, j + n)) is None
}

/// The value types the `n` tokens ahead of `p` from the `j`-th on name.
pub open spec fn run_types(p: Parser, j: nat, n: nat) -> Seq<ValType> {
    Seq::new(n, |i: int| valtype_tok(ahead(p, j + i as nat)).unwrap())
}

/// A run of value types ends at one place only.
proof fn lemma_valtype_run_unique(p: Parser)
    ensures
        forall|j: nat, n1: nat, n2: nat|
            #[trigger] valtype_run(p, j, n1) && #[trigger] valtype_run(p, j, n2) ==> n1 == n2,
{
    assert forall|j: nat, n1: nat, n2: nat|
        #[trigger] valtype_run(p, j, n1) && #[trigger] valtype_run(p, j, n2) implies n1 == n2 by {
        if n1 < n2 {
            assert(valtype_tok(ahead(p, j + n1)) is Some);
        } else if n2 < n1 {
            assert(valtype_tok(ahead(p, j + n2)) is Some);
        }
    }
}

/// What `parse_valtypes` did from a state `j` tokens past `p0`, told of
/// `p0`.
proof fn lemma_valtype_run_shift(p0: Parser, mid: Parser, j: nat, o: Seq<ValType>, out: Seq<ValType>, fin: Parser) -> (n: nat)
    requires
        shifted(mid, p0, j),
        exists|n: nat|
            {
                &&& forall|i: nat| i < n ==> #[trigger] valtype_tok(ahead(mid, i)) is Some
                &&& valtype_tok(ahead(mid, n)) is None
                &&& out == o + Seq::new(n, |i: int| valtype_tok(ahead(mid, i as nat)).unwrap())
                &&& forall|k: nat| #[trigger] ahead(fin, k) == ahead(mid, k + n)
            },
    ensures
        valtype_run(p0, j, n),
        out == o + run_types(p0, j, n),
        ahead(fin, 0) == ahead(p0, j + n),
        shifted(fin, p0, j + n),
{
    let n = choose|n: nat|
        {
            &&& forall|i: nat| i < n ==> #[trigger] valtype_tok(ahead(mid, i)) is Some
            &&& valtype_tok(ahead(mid, n)) is None
            &&& out == o + Seq::new(n, |i: int| valtype_tok(ahead(mid, i as nat)).unwrap())
            &&& forall|k: nat| #[trigger] ahead(fin, k) == ahead(mid, k + n)
        };
    assert forall|i: nat| i < n implies #[trigger] valtype_tok(ahead(p0, j + i)) is Some by {
        assert(ahead(mid, i) == ahead(p0, i + j));
        assert(valtype_tok(ahead(mid, i)) is Some);
    }
    assert(ahead(mid, n) == ahead(p0, n + j));
    assert(Seq::new(n, |i: int| valtype_tok(ahead(mid, i as nat)).unwrap()) =~= run_types(p0, j, n)) by {
        assert forall|i: int| 0 <= i < n implies #[trigger] valtype_tok(ahead(mid, i as nat)).unwrap() == valtype_tok(
            ahead(p0, j + i as nat),
        ).unwrap() by {
            assert(ahead(mid, i as nat) == ahead(p0, i as nat + j));
        }
    }
    assert forall|k: nat| #[trigger] ahead(fin, k) == ahead(p0, k + (j + n)) by {
        assert(ahead(fin, k) == ahead(mid, k + n));
        assert(ahead(mid, k + n) == ahead(p0, (k + n) + j));
    }
    assert(ahead(fin, 0) == ahead(p0, 0 + (j + n)));
    assert(valtype_run(p0, j, n));
    n
}

/// Where a data segment's header continues, `data` being the current
/// token: after its memory index, if it has one.
pub open spec fn data_start(p: Parser) -> nat {
    if ahead(p, 1) matches Some(TokenView::Int(_)) {
        2
    } else {
        1
    }
}

/// The memory a data segment names; 0 when it names none.
pub open spec fn data_mem(p: Parser) -> u32 {
    match ahead(p, 1) {
        Some(TokenView::Int(n)) => n as u32,
        _ => 0,
    }
}

/// Where the `i32.const` of a data segment's offset list stands: past
/// `(offset (` when the list is so wrapped.
pub open spec fn data_const_at(p: Parser) -> nat {
    if is_keyword(ahead(p, data_start(p) + 1), "offset".spec_bytes()) {
        data_start(p) + 3
    } else {
        data_start(p) + 1
    }
}

/// Where the `)` of a data segment's offset list is expected.
pub open spec fn data_close_at(p: Parser) -> nat {
    if ahead(p, data_const_at(p) + 1) matches Some(TokenView::Int(_)) {
        data_const_at(p) + 2
    } else {
        data_const_at(p) + 1
    }
}

/// The error a data segment's offset list ends in, if it does.
pub open spec fn data_head_err(p: Parser) -> Option<ParseError> {
    if ahead(p, data_start(p)) != Some(TokenView::LParen) {
        None
    } else if !is_keyword(ahead(p, data_const_at(p)), "i32.const".spec_bytes()) {
        Some(ParseError::ExpectedKeyword)
    } else if ahead(p, data_close_at(p)) != Some(TokenView::RParen) {
        Some(ParseError::ExpectedRParen)
    } else {
        None
    }
}

/// Where a data segment's strings start.
pub open spec fn data_body(p: Parser) -> nat {
    if ahead(p, data_start(p)) != Some(TokenView::LParen) {
        data_start(p)
    } else {
        data_close_at(p) + 1
    }
}

/// A data segment's offset: the integer of its `i32.const`, 0 when it has
/// none or no offset list.
pub open spec fn data_offset(p: Parser) -> i32 {
    if ahead(p, data_start(p)) != Some(TokenView::LParen) {
        0
    } else {
        match ahead(p, data_const_at(p) + 1) {
            Some(TokenView::Int(n)) => n,
            _ => 0,
        }
    }
}

/// The `n` tokens ahead of `p` from the `j`-th on are string literals, and
/// the one after them is not.
pub open spec fn string_run(p: Parser, j: nat, n: nat) -> bool {
    &&& forall|k: nat| k < n ==> #[trigger] is_str_tok(ahead(p, j + k))
    &&& !is_str_tok(ahead(p, j + n))
}

/// Whether a token is a string literal.
pub open spec fn is_str_tok(t: Option<TokenView>) -> bool {
    t matches Some(TokenView::StringLiteral(_))
}

/// The bytes of the `n` string literals ahead of `p` from the `j`-th on,
/// one after the other.
pub open spec fn run_bytes(p: Parser, j: nat, n: nat) -> Seq<u8>
    decreases n,
{
    if n == 0 {
        Seq::empty()
    } else {
        run_bytes(p, j, (n - 1) as nat) + unescape_from(ahead(p, j + (n - 1) as nat).unwrap()->StringLiteral_0, 0)
    }
}

/// A run of string literals ends at one place only.
proof fn lemma_string_run_unique(p: Parser, j: nat)
    ensures
        forall|n1: nat, n2: nat| #[trigger] string_run(p, j, n1) && #[trigger] string_run(p, j, n2) ==> n1 == n2,
{
    assert forall|n1: nat, n2: nat| #[trigger] string_run(p, j, n1) && #[trigger] string_run(p, j, n2) implies n1
        == n2 by {
        if n1 < n2 {
            assert(is_str_tok(ahead(p, j + n1)));
        } else if n2 < n1 {
            assert(is_str_tok(ahead(p, j + n2)));
        }
    }
}

/// Where the tokens after the `k`-th one and its `$name`, if it has one,
/// start.
pub open spec fn after_name_at(p: Parser, k: nat) -> nat {
    match ahead(p, k + 1) {
        Some(TokenView::Identifier(_)) => k + 2,
        _ => k + 1,
    }
}

/// Runs of value types seen `off` tokens on are runs of `p0` that much
/// further.
proof fn lemma_shift_runs(p0: Parser, p1: Parser, off: nat)
    requires
        shifted(p1, p0, off),
    ensures
        after_name(p1) + off == after_name_at(p0, off),
        after_name_at(p1, 1) + off == after_name_at(p0, off + 1),
        forall|a: nat, n: nat| #[trigger] valtype_run(p1, a, n) == valtype_run(p0, a + off, n),
        forall|a: nat, n: nat| #[trigger] run_types(p1, a, n) == run_types(p0, a + off, n),
{
    assert(ahead(p1, 1) == ahead(p0, 1 + off));
    assert(ahead(p1, 2) == ahead(p0, 2 + off));
    assert forall|a: nat, n: nat| #[trigger] valtype_run(p1, a, n) == valtype_run(p0, a + off, n) by {
        assert(ahead(p1, a + n) == ahead(p0, (a + n) + off));
        if valtype_run(p1, a, n) {
            assert forall|i: nat| i < n implies #[trigger] valtype_tok(ahead(p0, (a + off) + i)) is Some by {
                assert(ahead(p1, a + i) == ahead(p0, (a + i) + off));
                assert(valtype_tok(ahead(p1, a + i)) is Some);
            }
        }
        if valtype_run(p0, a + off, n) {
            assert forall|i: nat| i < n implies #[trigger] valtype_tok(ahead(p1, a + i)) is Some by {
                assert(ahead(p1, a + i) == ahead(p0, (a + i) + off));
                assert(valtype_tok(ahead(p0, (a + off) + i)) is Some);
            }
        }
    }
    assert forall|a: nat, n: nat| #[trigger] run_types(p1, a, n) == run_types(p0, a + off, n) by {
        assert forall|i: int| 0 <= i < n implies #[trigger] run_types(p1, a, n)[i] == run_types(p0, a + off, n)[i] by {
            assert(ahead(p1, a + i as nat) == ahead(p0, (a + i as nat) + off));
        }
        assert(run_types(p1, a, n) =~= run_types(p0, a + off, n));
    }
}

/// What a `(type (func (param|result ...)))` definition with one group
/// whose value types `ps`, `rs` end at the `e`-th token gives: without
/// that group's `)` an error; with it and the closing `)`s of `func` and
/// `type` following, the signature appended.
pub open spec fn type_def_group(
    p: Parser,
    before: Seq<FuncType>,
    after: Seq<FuncType>,
    r: Result<(), ParseError>,
    e: nat,
    ps: Seq<ValType>,
    rs: Seq<ValType>,
) -> bool {
    if ahead(p, e) != Some(TokenView::RParen) {
        r == Err::<(), ParseError>(ParseError::ExpectedRParen) && after == before
    } else if ahead(p, e + 1) == Some(TokenView::LParen) {
        true
    } else if ahead(p, e + 1) != Some(TokenView::RParen) {
        r == Err::<(), ParseError>(ParseError::ExpectedRParen) && after == before
    } else {
        &&& types_view(after) == types_view(before).push((ps, rs))
        &&& (r is Ok <==> ahead(p, e + 2) == Some(TokenView::RParen))
    }
}

/// A parser at the start of text `b`: its current token is the first one.
pub closed spec fn fresh_at(p: Parser, b: Seq<u8>) -> bool {
    &&& p.source() == b
    &&& p.la() == token_at(b, 0).0
    &&& p.unget.is_none()
    &&& p.tokenizer.pos as int == token_at(b, 0).1
}

/// The tokens ahead of a fresh parser are the text's, from the start.
proof fn lemma_new_ahead(p: Parser, b: Seq<u8>)
    requires
        fresh_at(p, b),
    ensures
        forall|k: nat| #[trigger] ahead(p, k) == tok_from(b, 0, k),
{
    assert forall|k: nat| #[trigger] ahead(p, k) == tok_from(b, 0, k) by {
        if k > 0 {
            assert(tok_from(b, 0, k) == tok_from(b, token_at(b, 0).1, (k - 1) as nat));
        }
    }
}

/// A module with nothing in it.
pub open spec fn empty_module(m: Module) -> bool {
    &&& m.types@.len() == 0
    &&& m.imports@.len() == 0
    &&& m.funcs@.len() == 0
    &&& m.memories@.len() == 0
    &&& m.exports@.len() == 0
    &&& m.data@.len() == 0
}

/// `r` is the index of signature `sig` in the type table `after`, which
/// is `before` with `sig` appended when `before` did not hold it.
pub open spec fn interned(
    before: Seq<FuncType>,
    after: Seq<FuncType>,
    r: Result<u32, ParseError>,
    sig: (Seq<ValType>, Seq<ValType>),
) -> bool {
    let i = first_index_of(types_view(before), sig);
    &&& r == Ok::<u32, ParseError>(i as u32)
    &&& types_view(after) == if i < before.len() {
        types_view(before)
    } else {
        types_view(before).push(sig)
    }
}

impl<'a> Parser<'a> {
    /// Value-type keywords, appended to `out` while they last.
    fn parse_valtypes(&mut self, out: &mut Vec<ValType>)
        requires
            old(self).wf(),
        ensures
            advanced(*old(self), *final(self)),
            same_names(*old(self), *final(self)),
            final(out)@.len() >= old(out)@.len(),
            final(out)@.take(old(out)@.len() as int) == old(out)@,
            exists|n: nat|
                {
                    &&& forall|i: nat| i < n ==> #[trigger] valtype_tok(ahead(*old(self), i)) is Some
                    &&& valtype_tok(ahead(*old(self), n)) is None
                    &&& final(out)@ == old(out)@ + Seq::new(
                        n,
                        |i: int| valtype_tok(ahead(*old(self), i as nat)).unwrap(),
                    )
                    &&& forall|k: nat| #[trigger] ahead(*final(self), k) == ahead(*old(self), k + n)
                },
    {
        let ghost start = *self;
        let ghost o = out@;
        let ghost mut n: nat = 0;
        loop
            invariant
                advanced(start, *self),
                same_names(start, *self),
                start == *old(self),
                out@.len() >= o.len(),
                out@.take(o.len() as int) == o,
                o == old(out)@,
                forall|i: nat| i < n ==> #[trigger] valtype_tok(ahead(start, i)) is Some,
                out@ == o + Seq::new(n, |i: int| valtype_tok(ahead(start, i as nat)).unwrap()),
                forall|k: nat| #[trigger] ahead(*self, k) == ahead(start, k + n),
            ensures
                advanced(start, *self),
                same_names(start, *self),
                out@.len() >= o.len(),
                out@.take(o.len() as int) == o,
                forall|i: nat| i < n ==> #[trigger] valtype_tok(ahead(start, i)) is Some,
                valtype_tok(ahead(start, n)) is None,
                out@ == o + Seq::new(n, |i: int| valtype_tok(ahead(start, i as nat)).unwrap()),
                forall|k: nat| #[trigger] ahead(*self, k) == ahead(start, k + n),
            decreases measure(*self),
        {
            assert(ahead(*self, 0) == ahead(start, 0 + n));
            assert(ahead(*self, 0) == self.la());
            match self.lookahead {
                Some(Token::Keyword(kw)) => match ValType::from_kw_bytes(kw) {
                    Some(vt) => {
                        let ghost before = out@;
                        let ghost p1 = *self;
                        out.push(vt);
                        assert(out@.take(o.len() as int) =~= before.take(o.len() as int));
                        self.bump();
                        proof {
                            lemma_stepped_ahead(p1, *self);
                            assert forall|k: nat| #[trigger] ahead(*self, k) == ahead(start, k + (n + 1)) by {
                                assert(ahead(*self, k) == ahead(p1, k + 1));
                                assert(ahead(p1, k + 1) == ahead(start, (k + 1) + n));
                            }
                            assert(out@ =~= o + Seq::new(
                                (n + 1) as nat,
                                |i: int| valtype_tok(ahead(start, i as nat)).unwrap(),
                            ));
                            n = n + 1;
                        }
                    },
                    None => {
                        break;
                    },
                },
                _ => {
                    break;
                },
            }
        }
    }

    /// One `param` or `result` group, its `(` taken, through its `)`; any
    /// other list is skipped.
    fn parse_param_or_result_group(&mut self, params: &mut Vec<ValType>, results: &mut Vec<ValType>) -> (r:
        Result<(), ParseError>)
        requires
            old(self).wf(),
        ensures
            advanced(*old(self), *final(self)),
            same_names(*old(self), *final(self)),
            r is Ok ==> measure(*final(self)) < measure(*old(self)),
            is_keyword(old(self).la(), "param".spec_bytes()) ==> {
                &&& final(results)@ == old(results)@
                &&& exists|n: nat|
                    {
                        &&& valtype_run(*old(self), after_name(*old(self)), n)
                        &&& final(params)@ == old(params)@ + run_types(*old(self), after_name(*old(self)), n)
                        &&& (r is Ok <==> ahead(*old(self), after_name(*old(self)) + n) == Some(
                            TokenView::RParen,
                        ))
                        &&& r is Ok ==> shifted(*final(self), *old(self), after_name(*old(self)) + n + 1)
                        &&& r is Err ==> r == Err::<(), ParseError>(ParseError::ExpectedRParen)
                    }
            },
            !is_keyword(old(self).la(), "param".spec_bytes()) && is_keyword(
                old(self).la(),
                "result".spec_bytes(),
            ) ==> {
                &&& final(params)@ == old(params)@
                &&& exists|n: nat|
                    {
                        &&& valtype_run(*old(self), 1, n)
                        &&& final(results)@ == old(results)@ + run_types(*old(self), 1, n)
                        &&& (r is Ok <==> ahead(*old(self), 1 + n) == Some(TokenView::RParen))
                        &&& r is Ok ==> shifted(*final(self), *old(self), 1 + n + 1)
                        &&& r is Err ==> r == Err::<(), ParseError>(ParseError::ExpectedRParen)
                    }
            },
            !is_keyword(old(self).la(), "param".spec_bytes()) && !is_keyword(
                old(self).la(),
                "result".spec_bytes(),
            ) ==> final(params)@ == old(params)@ && final(results)@ == old(results)@ && (r is Ok || r
                == Err::<(), ParseError>(ParseError::UnexpectedEof)),
    {
        let ghost p0 = *self;
        proof {
            assert forall|k: nat| #[trigger] ahead(p0, k) == ahead(p0, k + 0) by {}
        }
        if self.at_keyword("param") {
            self.bump();
            proof {
                lemma_step_shift(p0, p0, *self, 0);
            }
            let ghost p1 = *self;
            let nm = self.try_identifier();
            let ghost j: nat = if nm.is_some() { 2 } else { 1 };
            proof {
                assert(ahead(p1, 0) == ahead(p0, 0 + 1));
                assert(ahead(p1, 0) == p1.la());
                assert(nm.is_some() <==> ahead(p0, 1) matches Some(TokenView::Identifier(_)));
                if nm.is_some() {
                    lemma_step_shift(p0, p1, *self, 1);
                }
                assert(shifted(*self, p0, j));
            }
            let ghost mid = *self;
            let ghost op = params@;
            self.parse_valtypes(params);
            let ghost mut n: nat = 0;
            proof {
                n = lemma_valtype_run_shift(p0, mid, j, op, params@, *self);
            }
            let ghost q = *self;
            let r = self.expect_rparen();
            proof {
                if r is Ok {
                    lemma_step_shift(p0, q, *self, j + n);
                }
            }
            assert(valtype_run(p0, j, n) && params@ == op + run_types(p0, j, n) && (r is Ok <==> ahead(
                p0,
                j + n,
            ) == Some(TokenView::RParen)));
            assert(j == after_name(p0));
            r
        } else if self.at_keyword("result") {
            self.bump();
            proof {
                lemma_step_shift(p0, p0, *self, 0);
            }
            let ghost mid = *self;
            let ghost op = results@;
            self.parse_valtypes(results);
            let ghost mut n: nat = 0;
            proof {
                n = lemma_valtype_run_shift(p0, mid, 1, op, results@, *self);
            }
            let ghost q = *self;
            let r = self.expect_rparen();
            proof {
                if r is Ok {
                    lemma_step_shift(p0, q, *self, 1 + n);
                }
            }
            assert(valtype_run(p0, 1, n) && results@ == op + run_types(p0, 1, n) && (r is Ok <==> ahead(
                p0,
                1 + n,
            ) == Some(TokenView::RParen)));
            r
        } else {
            self.skip_rest_of_list()
        }
    }

    /// `(param ...)` and `(result ...)` lists up to the first token that is
    /// not `(`; other lists are skipped.
    fn parse_func_type_fields(&mut self) -> (r: Result<FuncType, ParseError>)
        requires
            old(self).wf(),
        ensures
            advanced(*old(self), *final(self)),
            same_names(*old(self), *final(self)),
            r is Ok ==> final(self).la() != Some(TokenView::LParen),
            old(self).la() != Some(TokenView::LParen) ==> r is Ok && r.unwrap().params@.len() == 0
                && r.unwrap().results@.len() == 0 && *final(self) == *old(self),
            forall|n: nat|
                old(self).la() == Some(TokenView::LParen) && is_keyword(ahead(*old(self), 1), "param".spec_bytes())
                    && #[trigger] valtype_run(*old(self), after_name_at(*old(self), 1), n) ==> if ahead(
                    *old(self),
                    after_name_at(*old(self), 1) + n,
                ) != Some(TokenView::RParen) {
                    r == Err::<FuncType, ParseError>(ParseError::ExpectedRParen)
                } else if ahead(*old(self), after_name_at(*old(self), 1) + n + 1) != Some(TokenView::LParen) {
                    r is Ok && r.unwrap().params@ == run_types(*old(self), after_name_at(*old(self), 1), n)
                        && r.unwrap().results@.len() == 0 && shifted(
                        *final(self),
                        *old(self),
                        after_name_at(*old(self), 1) + n + 1,
                    )
                } else {
                    true
                },
            forall|n: nat|
                old(self).la() == Some(TokenView::LParen) && !is_keyword(ahead(*old(self), 1), "param".spec_bytes())
                    && is_keyword(ahead(*old(self), 1), "result".spec_bytes()) && #[trigger] valtype_run(
                    *old(self),
                    2,
                    n,
                ) ==> if ahead(*old(self), 2 + n) != Some(TokenView::RParen) {
                    r == Err::<FuncType, ParseError>(ParseError::ExpectedRParen)
                } else if ahead(*old(self), 2 + n + 1) != Some(TokenView::LParen) {
                    r is Ok && r.unwrap().params@.len() == 0 && r.unwrap().results@ == run_types(*old(self), 2, n)
                        && shifted(*final(self), *old(self), 2 + n + 1)
                } else {
                    true
                },
    {
        if !self.at_lparen() {
            return Ok(FuncType { params: Vec::new(), results: Vec::new() });
        }
        let ghost p0 = *self;
        proof {
            assert forall|k: nat| #[trigger] ahead(p0, k) == ahead(p0, k + 0) by {}
        }
        self.bump();
        let ghost p1 = *self;
        proof {
            lemma_step_shift(p0, p0, p1, 0);
            assert(p1.la() == ahead(p1, 0));
            assert(ahead(p1, 0) == ahead(p0, 0 + 1));
            lemma_shift_runs(p0, p1, 1);
        }
        let r = self.finish_inline_func_type_after_lparen();
        proof {
            let a = after_name(p1);
            assert forall|n: nat|
                is_keyword(ahead(p0, 1), "param".spec_bytes()) && #[trigger] valtype_run(p0, after_name_at(p0, 1), n)
                    implies (if ahead(p0, after_name_at(p0, 1) + n) != Some(TokenView::RParen) {
                    r == Err::<FuncType, ParseError>(ParseError::ExpectedRParen)
                } else if ahead(p0, after_name_at(p0, 1) + n + 1) != Some(TokenView::LParen) {
                    r is Ok && r.unwrap().params@ == run_types(p0, after_name_at(p0, 1), n) && r.unwrap().results@.len()
                        == 0 && shifted(*self, p0, after_name_at(p0, 1) + n + 1)
                } else {
                    true
                }) by {
                assert(valtype_run(p1, a, n) == valtype_run(p0, a + 1, n));
                assert(run_types(p1, a, n) == run_types(p0, a + 1, n));
                assert(ahead(p1, a + n) == ahead(p0, (a + n) + 1));
                assert(ahead(p1, a + n + 1) == ahead(p0, (a + n + 1) + 1));
                if r is Ok && ahead(p1, a + n) == Some(TokenView::RParen) && ahead(p1, a + n + 1) != Some(
                    TokenView::LParen,
                ) {
                    lemma_shifted_trans(*self, p1, p0, a + n + 1, 1);
                }
            }
            assert forall|n: nat|
                !is_keyword(ahead(p0, 1), "param".spec_bytes()) && is_keyword(ahead(p0, 1), "result".spec_bytes())
                    && #[trigger] valtype_run(p0, 2, n) implies (if ahead(p0, 2 + n) != Some(TokenView::RParen) {
                    r == Err::<FuncType, ParseError>(ParseError::ExpectedRParen)
                } else if ahead(p0, 2 + n + 1) != Some(TokenView::LParen) {
                    r is Ok && r.unwrap().params@.len() == 0 && r.unwrap().results@ == run_types(p0, 2, n) && shifted(
                        *self,
                        p0,
                        2 + n + 1,
                    )
                } else {
                    true
                }) by {
                assert(valtype_run(p1, 1, n) == valtype_run(p0, 1 + 1, n));
                assert(run_types(p1, 1, n) == run_types(p0, 1 + 1, n));
                assert(ahead(p1, 1 + n) == ahead(p0, (1 + n) + 1));
                assert(ahead(p1, 1 + n + 1) == ahead(p0, (1 + n + 1) + 1));
                if r is Ok && ahead(p1, 1 + n) == Some(TokenView::RParen) && ahead(p1, 1 + n + 1) != Some(
                    TokenView::LParen,
                ) {
                    lemma_shifted_trans(*self, p1, p0, 1 + n + 1, 1);
                }
            }
        }
        r
    }

    /// A function type given inline, the `(` of its first group taken.
    fn finish_inline_func_type_after_lparen(&mut self) -> (r: Result<FuncType, ParseError>)
        requires
            old(self).wf(),
        ensures
            advanced(*old(self), *final(self)),
            same_names(*old(self), *final(self)),
            r is Ok ==> final(self).la() != Some(TokenView::LParen),
            forall|n: nat|
                is_keyword(old(self).la(), "param".spec_bytes()) && #[trigger] valtype_run(
                    *old(self),
                    after_name(*old(self)),
                    n,
                ) ==> if ahead(*old(self), after_name(*old(self)) + n) != Some(TokenView::RParen) {
                    r == Err::<FuncType, ParseError>(ParseError::ExpectedRParen)
                } else if ahead(*old(self), after_name(*old(self)) + n + 1) != Some(TokenView::LParen) {
                    r is Ok && r.unwrap().params@ == run_types(*old(self), after_name(*old(self)), n)
                        && r.unwrap().results@.len() == 0 && shifted(
                        *final(self),
                        *old(self),
                        after_name(*old(self)) + n + 1,
                    )
                } else {
                    true
                },
            forall|n: nat|
                !is_keyword(old(self).la(), "param".spec_bytes()) && is_keyword(
                    old(self).la(),
                    "result".spec_bytes(),
                ) && #[trigger] valtype_run(*old(self), 1, n) ==> if ahead(*old(self), 1 + n) != Some(
                    TokenView::RParen,
                ) {
                    r == Err::<FuncType, ParseError>(ParseError::ExpectedRParen)
                } else if ahead(*old(self), 1 + n + 1) != Some(TokenView::LParen) {
                    r is Ok && r.unwrap().params@.len() == 0 && r.unwrap().results@ == run_types(
                        *old(self),
                        1,
                        n,
                    ) && shifted(*final(self), *old(self), 1 + n + 1)
                } else {
                    true
                },
    {
        let mut params: Vec<ValType> = Vec::new();
        let mut results: Vec<ValType> = Vec::new();
        let ghost p0 = *self;
        let first = self.parse_param_or_result_group(&mut params, &mut results);
        proof {
            lemma_valtype_run_unique(p0);
        }
        match first {
            Ok(()) => {},
            Err(e) => {
                return Err(e);
            },
        }
        let ghost start = *self;
        let ghost pa = params@;
        let ghost ra = results@;
        proof {
            assert(start.la() == ahead(start, 0));
        }
        while self.at_lparen()
            invariant
                advanced(start, *self),
                same_names(start, *self),
                advanced(*old(self), start),
                same_names(*old(self), start),
                start.la() != Some(TokenView::LParen) ==> *self == start && params@ == pa && results@ == ra,
                start.la() == Some(TokenView::LParen) ==> forall|n: nat|
                    is_keyword(old(self).la(), "param".spec_bytes()) && #[trigger] valtype_run(
                        *old(self),
                        after_name(*old(self)),
                        n,
                    ) ==> ahead(*old(self), after_name(*old(self)) + n) == Some(TokenView::RParen) && ahead(
                        *old(self),
                        after_name(*old(self)) + n + 1,
                    ) == Some(TokenView::LParen),
                start.la() == Some(TokenView::LParen) ==> forall|n: nat|
                    !is_keyword(old(self).la(), "param".spec_bytes()) && is_keyword(
                        old(self).la(),
                        "result".spec_bytes(),
                    ) && #[trigger] valtype_run(*old(self), 1, n) ==> ahead(*old(self), 1 + n) == Some(
                        TokenView::RParen,
                    ) && ahead(*old(self), 1 + n + 1) == Some(TokenView::LParen),
            decreases measure(*self),
        {
            self.bump();
            self.parse_param_or_result_group(&mut params, &mut results)?;
        }
        proof {
            assert(start.la() == ahead(start, 0));
        }
        Ok(FuncType { params, results })
    }

    /// The index a `(type ...)` use names, `type` being the current token:
    /// a `$name` or an integer, then `)`.
    fn parse_type_index(&mut self) -> (r: Result<u32, ParseError>)
        requires
            old(self).wf(),
        ensures
            advanced(*old(self), *final(self)),
            same_names(*old(self), *final(self)),
            match ahead(*old(self), 1) {
                Some(TokenView::Int(n)) => if ahead(*old(self), 2) == Some(TokenView::RParen) {
                    r == Ok::<u32, ParseError>(n as u32)
                } else {
                    r == Err::<u32, ParseError>(ParseError::ExpectedRParen)
                },
                Some(TokenView::Identifier(id)) => if ahead(*old(self), 2) == Some(TokenView::RParen) {
                    r == Ok::<u32, ParseError>(type_name_index(names_view(old(self).type_names@), id))
                } else {
                    r == Err::<u32, ParseError>(ParseError::ExpectedRParen)
                },
                _ => r == Err::<u32, ParseError>(ParseError::ExpectedTypeIndex),
            },
            r is Ok ==> shifted(*final(self), *old(self), 3),
    {
        let ghost p0 = *self;
        proof {
            assert forall|k: nat| #[trigger] ahead(p0, k) == ahead(p0, k + 0) by {}
        }
        self.bump();
        proof {
            lemma_stepped_ahead(p0, *self);
            assert(ahead(*self, 0) == ahead(p0, 1));
        }
        let ghost p1 = *self;
        let idx = match self.lookahead {
            Some(Token::Identifier(id)) => {
                self.bump();
                proof {
                    lemma_stepped_ahead(p1, *self);
                    assert(ahead(*self, 0) == ahead(p1, 1));
                }
                self.resolve_type_name(id)
            },
            Some(Token::Int(n)) => {
                self.bump();
                proof {
                    lemma_stepped_ahead(p1, *self);
                    assert(ahead(*self, 0) == ahead(p1, 1));
                }
                n as u32
            },
            _ => {
                return Err(ParseError::ExpectedTypeIndex);
            },
        };
        let ghost p2 = *self;
        proof {
            lemma_step_shift(p0, p0, p1, 0);
            assert(shifted(p2, p0, 2)) by {
                assert forall|k: nat| #[trigger] ahead(p2, k) == ahead(p0, k + 2) by {
                    assert(ahead(p2, k) == ahead(p1, k + 1));
                    assert(ahead(p1, k + 1) == ahead(p0, (k + 1) + 1));
                }
            }
        }
        self.expect_rparen()?;
        proof {
            lemma_step_shift(p0, p2, *self, 2);
        }
        Ok(idx)
    }

    /// A type use, its `(` taken: `(type N)` (with any inline fields after
    /// it ignored), or an inline signature, interned.
    fn finish_type_use_after_lparen(&mut self, module: &mut Module) -> (r: Result<u32, ParseError>)
        requires
            old(self).wf(),
        ensures
            advanced(*old(self), *final(self)),
            same_names(*old(self), *final(self)),
            final(module).imports == old(module).imports,
            final(module).funcs == old(module).funcs,
            final(module).memories == old(module).memories,
            final(module).exports == old(module).exports,
            final(module).data == old(module).data,
            final(module).types@.len() >= old(module).types@.len(),
            is_keyword(old(self).la(), "type".spec_bytes()) ==> {
                &&& final(module).types == old(module).types
                &&& match ahead(*old(self), 1) {
                    Some(TokenView::Int(n)) => r is Ok ==> r == Ok::<u32, ParseError>(n as u32),
                    Some(TokenView::Identifier(id)) => r is Ok ==> r == Ok::<u32, ParseError>(
                        type_name_index(names_view(old(self).type_names@), id),
                    ),
                    _ => r == Err::<u32, ParseError>(ParseError::ExpectedTypeIndex),
                }
                &&& (int_tok(ahead(*old(self), 1)) is Some || ahead(*old(self), 1) matches Some(TokenView::Identifier(_)))
                    && ahead(*old(self), 2) == Some(TokenView::RParen) && ahead(*old(self), 3) != Some(TokenView::LParen)
                    ==> r is Ok
            },
            forall|n: nat|
                !is_keyword(old(self).la(), "type".spec_bytes()) && is_keyword(old(self).la(), "param".spec_bytes())
                    && #[trigger] valtype_run(*old(self), after_name(*old(self)), n) ==> if ahead(
                    *old(self),
                    after_name(*old(self)) + n,
                ) != Some(TokenView::RParen) {
                    r == Err::<u32, ParseError>(ParseError::ExpectedRParen)
                } else if ahead(*old(self), after_name(*old(self)) + n + 1) != Some(TokenView::LParen) {
                    interned(
                        old(module).types@,
                        final(module).types@,
                        r,
                        (run_types(*old(self), after_name(*old(self)), n), Seq::<ValType>::empty()),
                    )
                } else {
                    true
                },
            forall|n: nat|
                !is_keyword(old(self).la(), "type".spec_bytes()) && !is_keyword(
                    old(self).la(),
                    "param".spec_bytes(),
                ) && is_keyword(old(self).la(), "result".spec_bytes()) && #[trigger] valtype_run(*old(self), 1, n)
                    ==> if ahead(*old(self), 1 + n) != Some(TokenView::RParen) {
                    r == Err::<u32, ParseError>(ParseError::ExpectedRParen)
                } else if ahead(*old(self), 1 + n + 1) != Some(TokenView::LParen) {
                    interned(
                        old(module).types@,
                        final(module).types@,
                        r,
                        (Seq::<ValType>::empty(), run_types(*old(self), 1, n)),
                    )
                } else {
                    true
                },
    {
        if self.at_keyword("type") {
            let ghost p0 = *self;
            let idx = self.parse_type_index()?;
            proof {
                assert(ahead(*self, 0) == ahead(p0, 0 + 3));
            }
            let _ft = self.parse_func_type_fields()?;
            return Ok(idx);
        }
        let ft = self.finish_inline_func_type_after_lparen()?;
        let ghost ftv = ft_view(ft);
        let ghost t0 = module.types@;
        let idx = intern_type(&mut module.types, ft);
        proof {
            lemma_first_index_of(types_view(t0), ftv);
            assert(ftv.0 == ft.params@ && ftv.1 == ft.results@);
            if ft.results@.len() == 0 {
                assert(ft.results@ =~= Seq::<ValType>::empty());
            }
            if ft.params@.len() == 0 {
                assert(ft.params@ =~= Seq::<ValType>::empty());
            }
            let i = first_index_of(types_view(t0), ftv);
            if i == t0.len() {
                assert(types_view(module.types@) =~= types_view(t0).push(ftv));
            }
            assert(interned(t0, module.types@, Ok::<u32, ParseError>(idx), ftv));
        }
        Ok(idx)
    }

    /// A type use: `(type N)`, an inline signature, or nothing (the empty
    /// signature); inline signatures are interned.
    fn parse_type_use(&mut self, module: &mut Module) -> (r: Result<u32, ParseError>)
        requires
            old(self).wf(),
        ensures
            advanced(*old(self), *final(self)),
            same_names(*old(self), *final(self)),
            final(module).imports == old(module).imports,
            final(module).funcs == old(module).funcs,
            final(module).memories == old(module).memories,
            final(module).exports == old(module).exports,
            final(module).data == old(module).data,
            final(module).types@.len() >= old(module).types@.len(),
            old(self).la() != Some(TokenView::LParen) ==> {
                let i = first_index_of(types_view(old(module).types@), (Seq::<ValType>::empty(), Seq::<ValType>::empty()));
                &&& r == Ok::<u32, ParseError>(i as u32)
                &&& *final(self) == *old(self)
                &&& i < old(module).types@.len() ==> final(module).types@ == old(module).types@
                &&& i == old(module).types@.len() ==> final(module).types@.len() == old(module).types@.len() + 1
                    && ft_view(final(module).types@.last()) == (Seq::<ValType>::empty(), Seq::<ValType>::empty())
            },
            old(self).la() == Some(TokenView::LParen) && is_keyword(ahead(*old(self), 1), "type".spec_bytes()) ==> {
                &&& final(module).types == old(module).types
                &&& match ahead(*old(self), 2) {
                    Some(TokenView::Int(n)) => r is Ok ==> r == Ok::<u32, ParseError>(n as u32),
                    Some(TokenView::Identifier(id)) => r is Ok ==> r == Ok::<u32, ParseError>(
                        type_name_index(names_view(old(self).type_names@), id),
                    ),
                    _ => r == Err::<u32, ParseError>(ParseError::ExpectedTypeIndex),
                }
                &&& (int_tok(ahead(*old(self), 2)) is Some || ahead(*old(self), 2) matches Some(TokenView::Identifier(_)))
                    && ahead(*old(self), 3) == Some(TokenView::RParen) && ahead(*old(self), 4) != Some(TokenView::LParen)
                    ==> r is Ok
            },
            forall|n: nat|
                old(self).la() == Some(TokenView::LParen) && !is_keyword(ahead(*old(self), 1), "type".spec_bytes())
                    && is_keyword(ahead(*old(self), 1), "param".spec_bytes()) && #[trigger] valtype_run(
                    *old(self),
                    after_name_at(*old(self), 1),
                    n,
                ) ==> if ahead(*old(self), after_name_at(*old(self), 1) + n) != Some(TokenView::RParen) {
                    r == Err::<u32, ParseError>(ParseError::ExpectedRParen)
                } else if ahead(*old(self), after_name_at(*old(self), 1) + n + 1) != Some(TokenView::LParen) {
                    interned(
                        old(module).types@,
                        final(module).types@,
                        r,
                        (run_types(*old(self), after_name_at(*old(self), 1), n), Seq::<ValType>::empty()),
                    )
                } else {
                    true
                },
            forall|n: nat|
                old(self).la() == Some(TokenView::LParen) && !is_keyword(ahead(*old(self), 1), "type".spec_bytes())
                    && !is_keyword(ahead(*old(self), 1), "param".spec_bytes()) && is_keyword(
                    ahead(*old(self), 1),
                    "result".spec_bytes(),
                ) && #[trigger] valtype_run(*old(self), 2, n) ==> if ahead(*old(self), 2 + n) != Some(
                    TokenView::RParen,
                ) {
                    r == Err::<u32, ParseError>(ParseError::ExpectedRParen)
                } else if ahead(*old(self), 2 + n + 1) != Some(TokenView::LParen) {
                    interned(
                        old(module).types@,
                        final(module).types@,
                        r,
                        (Seq::<ValType>::empty(), run_types(*old(self), 2, n)),
                    )
                } else {
                    true
                },
    {
        if self.at_lparen() {
            let ghost p0 = *self;
            proof {
                assert forall|k: nat| #[trigger] ahead(p0, k) == ahead(p0, k + 0) by {}
            }
            self.bump();
            let ghost p1 = *self;
            proof {
                lemma_step_shift(p0, p0, p1, 0);
                assert(p1.la() == ahead(p1, 0));
                assert(ahead(p1, 0) == ahead(p0, 0 + 1));
                lemma_shift_runs(p0, p1, 1);
            }
            let r = self.finish_type_use_after_lparen(module);
            proof {
                assert(ahead(p1, 1) == ahead(p0, 1 + 1));
                assert(ahead(p1, 2) == ahead(p0, 2 + 1));
                assert(ahead(p1, 3) == ahead(p0, 3 + 1));
                let a = after_name(p1);
                assert forall|n: nat|
                    !is_keyword(ahead(p0, 1), "type".spec_bytes()) && is_keyword(ahead(p0, 1), "param".spec_bytes())
                        && #[trigger] valtype_run(p0, after_name_at(p0, 1), n) implies (if ahead(
                        p0,
                        after_name_at(p0, 1) + n,
                    ) != Some(TokenView::RParen) {
                        r == Err::<u32, ParseError>(ParseError::ExpectedRParen)
                    } else if ahead(p0, after_name_at(p0, 1) + n + 1) != Some(TokenView::LParen) {
                        interned(
                            old(module).types@,
                            module.types@,
                            r,
                            (run_types(p0, after_name_at(p0, 1), n), Seq::<ValType>::empty()),
                        )
                    } else {
                        true
                    }) by {
                    assert(valtype_run(p1, a, n) == valtype_run(p0, a + 1, n));
                    assert(run_types(p1, a, n) == run_types(p0, a + 1, n));
                    assert(ahead(p1, a + n) == ahead(p0, (a + n) + 1));
                    assert(ahead(p1, a + n + 1) == ahead(p0, (a + n + 1) + 1));
                }
                assert forall|n: nat|
                    !is_keyword(ahead(p0, 1), "type".spec_bytes()) && !is_keyword(ahead(p0, 1), "param".spec_bytes())
                        && is_keyword(ahead(p0, 1), "result".spec_bytes()) && #[trigger] valtype_run(p0, 2, n)
                        implies (if ahead(p0, 2 + n) != Some(TokenView::RParen) {
                        r == Err::<u32, ParseError>(ParseError::ExpectedRParen)
                    } else if ahead(p0, 2 + n + 1) != Some(TokenView::LParen) {
                        interned(old(module).types@, module.types@, r, (Seq::<ValType>::empty(), run_types(p0, 2, n)))
                    } else {
                        true
                    }) by {
                    assert(valtype_run(p1, 1, n) == valtype_run(p0, 1 + 1, n));
                    assert(run_types(p1, 1, n) == run_types(p0, 1 + 1, n));
                    assert(ahead(p1, 1 + n) == ahead(p0, (1 + n) + 1));
                    assert(ahead(p1, 1 + n + 1) == ahead(p0, (1 + n + 1) + 1));
                }
            }
            return r;
        }
        let ft = FuncType { params: Vec::new(), results: Vec::new() };
        assert(ft_view(ft) == (Seq::<ValType>::empty(), Seq::<ValType>::empty()));
        proof {
            lemma_first_index_of(types_view(module.types@), ft_view(ft));
            assert(types_view(module.types@).len() == module.types@.len());
        }
        Ok(intern_type(&mut module.types, ft))
    }

    /// `(type $name? (func ...))`, its `(` taken: the type is appended.
    fn parse_type_def(&mut self, module: &mut Module) -> (r: Result<(), ParseError>)
        requires
            old(self).wf(),
        ensures
            advanced(*old(self), *final(self)),
            final(self).func_names == old(self).func_names,
            final(self).local_names == old(self).local_names,
            final(module).imports == old(module).imports,
            final(module).funcs == old(module).funcs,
            final(module).memories == old(module).memories,
            final(module).exports == old(module).exports,
            final(module).data == old(module).data,
            r is Ok ==> final(module).types@.len() == old(module).types@.len() + 1,
            r is Ok ==> final(module).types@.take(old(module).types@.len() as int) == old(module).types@,
            ({
                let k = after_name(*old(self));
                &&& ahead(*old(self), k) != Some(TokenView::LParen) ==> r == Err::<(), ParseError>(
                    ParseError::ExpectedLParen,
                ) && final(module).types == old(module).types
                &&& ahead(*old(self), k) == Some(TokenView::LParen) && !is_keyword(
                    ahead(*old(self), k + 1),
                    "func".spec_bytes(),
                ) ==> r == Err::<(), ParseError>(ParseError::ExpectedKeyword) && final(module).types
                    == old(module).types
                &&& ahead(*old(self), k) == Some(TokenView::LParen) && is_keyword(
                    ahead(*old(self), k + 1),
                    "func".spec_bytes(),
                ) && ahead(*old(self), k + 2) == Some(TokenView::RParen) ==> {
                    &&& final(module).types@.len() == old(module).types@.len() + 1
                    &&& final(module).types@.last().params@.len() == 0
                    &&& final(module).types@.last().results@.len() == 0
                    &&& (r is Ok <==> ahead(*old(self), k + 3) == Some(TokenView::RParen))
                    &&& match ahead(*old(self), 1) {
                        Some(TokenView::Identifier(id)) => names_view(final(self).type_names@) == names_view(
                            old(self).type_names@,
                        ).push((id, old(module).types@.len() as u32)),
                        _ => final(self).type_names == old(self).type_names,
                    }
                }
            }),
            forall|n: nat|
                ahead(*old(self), after_name(*old(self))) == Some(TokenView::LParen) && is_keyword(
                    ahead(*old(self), after_name(*old(self)) + 1),
                    "func".spec_bytes(),
                ) && ahead(*old(self), after_name(*old(self)) + 2) == Some(TokenView::LParen) && is_keyword(
                    ahead(*old(self), after_name(*old(self)) + 3),
                    "param".spec_bytes(),
                ) && #[trigger] valtype_run(*old(self), after_name_at(*old(self), after_name(*old(self)) + 3), n)
                    ==> type_def_group(
                    *old(self),
                    old(module).types@,
                    final(module).types@,
                    r,
                    after_name_at(*old(self), after_name(*old(self)) + 3) + n,
                    run_types(*old(self), after_name_at(*old(self), after_name(*old(self)) + 3), n),
                    Seq::<ValType>::empty(),
                ),
            forall|n: nat|
                ahead(*old(self), after_name(*old(self))) == Some(TokenView::LParen) && is_keyword(
                    ahead(*old(self), after_name(*old(self)) + 1),
                    "func".spec_bytes(),
                ) && ahead(*old(self), after_name(*old(self)) + 2) == Some(TokenView::LParen) && !is_keyword(
                    ahead(*old(self), after_name(*old(self)) + 3),
                    "param".spec_bytes(),
                ) && is_keyword(ahead(*old(self), after_name(*old(self)) + 3), "result".spec_bytes())
                    && #[trigger] valtype_run(*old(self), after_name(*old(self)) + 4, n) ==> type_def_group(
                    *old(self),
                    old(module).types@,
                    final(module).types@,
                    r,
                    after_name(*old(self)) + 4 + n,
                    Seq::<ValType>::empty(),
                    run_types(*old(self), after_name(*old(self)) + 4, n),
                ),
    {
        let ghost p0 = *self;
        proof {
            assert forall|k: nat| #[trigger] ahead(p0, k) == ahead(p0, k + 0) by {}
        }
        self.bump();
        proof {
            lemma_step_shift(p0, p0, *self, 0);
        }
        let ghost p1 = *self;
        let name = self.try_identifier();
        let ghost off: nat = if name.is_some() { 2 } else { 1 };
        proof {
            if name.is_some() {
                lemma_step_shift(p0, p1, *self, 1);
            }
            assert(ahead(p1, 0) == ahead(p0, 0 + 1));
            assert(off == after_name(p0));
            assert(shifted(*self, p0, off));
            assert(ahead(*self, 0) == ahead(p0, 0 + off));
        }
        let ghost q0 = *self;
        self.expect_lparen()?;
        proof {
            lemma_step_shift(p0, q0, *self, off);
            assert(ahead(*self, 0) == ahead(p0, 0 + (off + 1)));
        }
        let ghost q1 = *self;
        self.expect_keyword("func")?;
        proof {
            lemma_step_shift(p0, q1, *self, off + 1);
            assert(ahead(*self, 0) == ahead(p0, 0 + (off + 2)));
        }
        let ghost qf = *self;
        let ghost t0 = module.types@;
        let ft_r = self.parse_func_type_fields();
        let ghost qa = *self;
        let ghost c: nat = off + 2;
        let ghost pa: nat = after_name_at(p0, c + 1);
        proof {
            lemma_shift_runs(p0, qf, c);
            assert(ahead(qf, 0) == ahead(p0, 0 + c));
            assert(ahead(qf, 0) == qf.la());
            assert(ahead(qf, 1) == ahead(p0, 1 + c));
            let a = after_name_at(qf, 1);
            assert(a + c == pa);
            assert forall|n: nat|
                ahead(p0, c) == Some(TokenView::LParen) && is_keyword(ahead(p0, c + 1), "param".spec_bytes())
                    && #[trigger] valtype_run(p0, pa, n) implies (if ahead(p0, pa + n) != Some(TokenView::RParen) {
                    ft_r == Err::<FuncType, ParseError>(ParseError::ExpectedRParen)
                } else if ahead(p0, pa + n + 1) != Some(TokenView::LParen) {
                    ft_r is Ok && ft_r.unwrap().params@ == run_types(p0, pa, n) && ft_r.unwrap().results@.len() == 0
                        && shifted(qa, p0, pa + n + 1)
                } else {
                    true
                }) by {
                assert(valtype_run(qf, a, n) == valtype_run(p0, a + c, n));
                assert(run_types(qf, a, n) == run_types(p0, a + c, n));
                assert(ahead(qf, a + n) == ahead(p0, (a + n) + c));
                assert(ahead(qf, a + n + 1) == ahead(p0, (a + n + 1) + c));
                if ft_r is Ok && ahead(qf, a + n) == Some(TokenView::RParen) && ahead(qf, a + n + 1) != Some(
                    TokenView::LParen,
                ) {
                    lemma_shifted_trans(qa, qf, p0, a + n + 1, c);
                }
            }
            assert forall|n: nat|
                ahead(p0, c) == Some(TokenView::LParen) && !is_keyword(ahead(p0, c + 1), "param".spec_bytes())
                    && is_keyword(ahead(p0, c + 1), "result".spec_bytes()) && #[trigger] valtype_run(p0, c + 2, n)
                    implies (if ahead(p0, c + 2 + n) != Some(TokenView::RParen) {
                    ft_r == Err::<FuncType, ParseError>(ParseError::ExpectedRParen)
                } else if ahead(p0, c + 2 + n + 1) != Some(TokenView::LParen) {
                    ft_r is Ok && ft_r.unwrap().params@.len() == 0 && ft_r.unwrap().results@ == run_types(p0, c + 2, n)
                        && shifted(qa, p0, c + 2 + n + 1)
                } else {
                    true
                }) by {
                assert(valtype_run(qf, 2, n) == valtype_run(p0, 2 + c, n));
                assert(run_types(qf, 2, n) == run_types(p0, 2 + c, n));
                assert(ahead(qf, 2 + n) == ahead(p0, (2 + n) + c));
                assert(ahead(qf, 2 + n + 1) == ahead(p0, (2 + n + 1) + c));
                if ft_r is Ok && ahead(qf, 2 + n) == Some(TokenView::RParen) && ahead(qf, 2 + n + 1) != Some(
                    TokenView::LParen,
                ) {
                    lemma_shifted_trans(qa, qf, p0, 2 + n + 1, c);
                }
            }
        }
        let ft = ft_r?;
        let ghost ftv = ft_view(ft);
        let ghost q2 = *self;
        let rp = self.expect_rparen();
        proof {
            if ahead(p0, off + 2) == Some(TokenView::RParen) {
                lemma_step_shift(p0, q2, *self, off + 2);
                assert(ahead(*self, 0) == ahead(p0, 0 + (off + 3)));
            }
            assert(q2.la() == ahead(q2, 0));
        }
        rp?;
        let ghost q3 = *self;
        let idx = module.types.len() as u32;
        let ghost before = module.types@;
        module.types.push(ft);
        assert(module.types@.take(before.len() as int) =~= before);
        assert(types_view(module.types@) =~= types_view(before).push(ftv));
        match name {
            Some(n) => {
                self.type_names.push((n, idx));
            },
            None => {},
        }
        let ghost q4 = *self;
        let r = self.expect_rparen();
        proof {
            assert(q4.lookahead == q3.lookahead && q4.unget == q3.unget && q4.tokenizer == q3.tokenizer);
            assert(ahead(q4, 0) == ahead(q3, 0));
            assert(q4.la() == ahead(q4, 0));
            assert forall|n: nat|
                ahead(p0, c) == Some(TokenView::LParen) && is_keyword(ahead(p0, c + 1), "param".spec_bytes())
                    && #[trigger] valtype_run(p0, pa, n) implies ahead(p0, pa + n + 1) == Some(TokenView::LParen) || (
                ftv == (run_types(p0, pa, n), Seq::<ValType>::empty()) && ahead(p0, pa + n + 1) == Some(
                    TokenView::RParen,
                ) && ahead(q3, 0) == ahead(p0, pa + n + 2)) by {
                if ahead(p0, pa + n + 1) != Some(TokenView::LParen) {
                    assert(ftv.1 =~= Seq::<ValType>::empty());
                    assert(ahead(q2, 0) == ahead(p0, 0 + (pa + n + 1)));
                    lemma_step_shift(p0, q2, q3, pa + n + 1);
                    assert(ahead(q3, 0) == ahead(p0, 0 + (pa + n + 2)));
                }
            }
            assert forall|n: nat|
                ahead(p0, c) == Some(TokenView::LParen) && !is_keyword(ahead(p0, c + 1), "param".spec_bytes())
                    && is_keyword(ahead(p0, c + 1), "result".spec_bytes()) && #[trigger] valtype_run(p0, c + 2, n)
                    implies ahead(p0, c + 2 + n + 1) == Some(TokenView::LParen) || (ftv == (
                Seq::<ValType>::empty(),
                run_types(p0, c + 2, n),
            ) && ahead(p0, c + 2 + n + 1) == Some(TokenView::RParen) && ahead(q3, 0) == ahead(p0, c + 2 + n + 2)) by {
                if ahead(p0, c + 2 + n + 1) != Some(TokenView::LParen) {
                    assert(ftv.0 =~= Seq::<ValType>::empty());
                    assert(ahead(q2, 0) == ahead(p0, 0 + (c + 2 + n + 1)));
                    lemma_step_shift(p0, q2, q3, c + 2 + n + 1);
                    assert(ahead(q3, 0) == ahead(p0, 0 + (c + 2 + n + 2)));
                }
            }
        }
        r
    }

    /// `(import "mod" "name" (func $name? <type use>))`, its `(` taken: the
    /// import is appended, and its name bound to its function index.
    /// Imports of other kinds are skipped.
    fn parse_import(&mut self, module: &mut Module) -> (r: Result<(), ParseError>)
        requires
            old(self).wf(),
        ensures
            advanced(*old(self), *final(self)),
            final(self).type_names == old(self).type_names,
            final(self).local_names == old(self).local_names,
            final(module).funcs == old(module).funcs,
            final(module).memories == old(module).memories,
            final(module).exports == old(module).exports,
            final(module).data == old(module).data,
            final(module).imports@.len() <= old(module).imports@.len() + 1,
            final(module).imports@.take(old(module).imports@.len() as int) == old(module).imports@,
            !(ahead(*old(self), 1) matches Some(TokenView::StringLiteral(_))) ==> r == Err::<(), ParseError>(
                ParseError::ExpectedString,
            ),
            ahead(*old(self), 1) matches Some(TokenView::StringLiteral(_)) && !(ahead(*old(self), 2) matches Some(
                TokenView::StringLiteral(_),
            )) ==> r == Err::<(), ParseError>(ParseError::ExpectedString),
            ahead(*old(self), 1) matches Some(TokenView::StringLiteral(_)) && ahead(*old(self), 2) matches Some(
                TokenView::StringLiteral(_),
            ) && ahead(*old(self), 3) != Some(TokenView::LParen) ==> r == Err::<(), ParseError>(
                ParseError::ExpectedLParen,
            ),
            ahead(*old(self), 1) matches Some(TokenView::StringLiteral(_)) && ahead(*old(self), 2) matches Some(
                TokenView::StringLiteral(_),
            ) && ahead(*old(self), 3) == Some(TokenView::LParen) && is_keyword(
                ahead(*old(self), 4),
                "func".spec_bytes(),
            ) ==> {
                let j: nat = if ahead(*old(self), 5) matches Some(TokenView::Identifier(_)) { 6 } else { 5 };
                let m = ahead(*old(self), 1).unwrap()->StringLiteral_0;
                let n = ahead(*old(self), 2).unwrap()->StringLiteral_0;
                &&& (r is Ok || ahead(*old(self), j) != Some(TokenView::LParen)) ==> {
                    &&& final(module).imports@.len() == old(module).imports@.len() + 1
                    &&& final(module).imports@.last().module@ == unescape_from(m, 0)
                    &&& final(module).imports@.last().name@ == unescape_from(n, 0)
                }
                &&& ahead(*old(self), j) != Some(TokenView::LParen) ==> {
                    &&& final(module).imports@.last().type_idx == first_index_of(
                        types_view(old(module).types@),
                        (Seq::<ValType>::empty(), Seq::<ValType>::empty()),
                    ) as u32
                    &&& (r is Ok <==> ahead(*old(self), j) == Some(TokenView::RParen) && ahead(*old(self), j + 1)
                        == Some(TokenView::RParen))
                }
                &&& match ahead(*old(self), 5) {
                    Some(TokenView::Identifier(id)) => names_view(final(self).func_names@) == names_view(
                        old(self).func_names@,
                    ).push((id, old(module).imports@.len() as u32)),
                    _ => final(self).func_names == old(self).func_names,
                }
            },
    {
        let ghost p0 = *self;
        proof {
            assert forall|k: nat| #[trigger] ahead(p0, k) == ahead(p0, k + 0) by {}
        }
        self.bump();
        proof {
            lemma_step_shift(p0, p0, *self, 0);
        }
        let ghost p1 = *self;
        proof {
            assert(ahead(p1, 0) == ahead(p0, 0 + 1));
        }
        let mod_bytes = self.expect_string()?;
        proof {
            lemma_step_shift(p0, p1, *self, 1);
            assert(ahead(*self, 0) == ahead(p0, 0 + 2));
        }
        let ghost p2 = *self;
        let name_bytes = self.expect_string()?;
        proof {
            lemma_step_shift(p0, p2, *self, 2);
            assert(ahead(*self, 0) == ahead(p0, 0 + 3));
        }
        let ghost p3 = *self;
        self.expect_lparen()?;
        proof {
            lemma_step_shift(p0, p3, *self, 3);
            assert(ahead(*self, 0) == ahead(p0, 0 + 4));
        }
        if !self.at_keyword("func") {
            return self.skip_rest_of_list();
        }
        let ghost p4 = *self;
        self.bump();
        proof {
            lemma_step_shift(p0, p4, *self, 4);
            assert(ahead(*self, 0) == ahead(p0, 0 + 5));
        }
        let ghost p5 = *self;
        let fidx = module.imports.len() as u32;
        let nm = self.try_identifier();
        let ghost j: nat = if nm.is_some() { 6 } else { 5 };
        proof {
            if nm.is_some() {
                lemma_step_shift(p0, p5, *self, 5);
            }
            assert(shifted(*self, p0, j));
            assert(ahead(*self, 0) == ahead(p0, 0 + j));
        }
        let ghost pre = *self;
        match nm {
            Some(n) => {
                self.func_names.push((n, fidx));
                proof {
                    assert(names_view(self.func_names@) =~= names_view(old(self).func_names@).push((n@, fidx)));
                }
            },
            None => {},
        }
        let ghost q0 = *self;
        proof {
            assert(q0.lookahead == pre.lookahead && q0.unget == pre.unget && q0.tokenizer == pre.tokenizer);
            assert forall|k: nat| #[trigger] ahead(q0, k) == ahead(pre, k) by {}
            assert(shifted(q0, p0, j)) by {
                assert forall|k: nat| #[trigger] ahead(q0, k) == ahead(p0, k + j) by {
                    assert(ahead(q0, k) == ahead(pre, k));
                }
            }
        }
        let type_idx = self.parse_type_use(module)?;
        let ghost q1 = *self;
        let ghost before = module.imports@;
        module.imports.push(Import { module: mod_bytes, name: name_bytes, type_idx });
        assert(module.imports@.take(before.len() as int) =~= before);
        self.expect_rparen()?;
        proof {
            if ahead(p0, j) != Some(TokenView::LParen) {
                assert(q1 == q0);
                lemma_step_shift(p0, q1, *self, j);
                assert(ahead(*self, 0) == ahead(p0, 0 + (j + 1)));
            }
        }
        self.expect_rparen()
    }
}

/// The number of functions a module defines or imports.
pub open spec fn func_count(m: Module) -> int {
    (m.imports@.len() + m.funcs@.len()) as int
}

/// The length of the run of value types from the `a`-th token ahead of
/// `p`.
pub open spec fn vrun_len(p: Parser, a: nat) -> nat {
    choose|m: nat| valtype_run(p, a, m)
}

/// What the fields of a function seen so far give: where the next token
/// is, the parameter and result types, the export names, the local types,
/// the signature interned when the first locals came (params and results
/// up to then, unless a type use came first), and the last type use.
pub struct FieldsView {
    pub next: nat,
    pub params: Seq<ValType>,
    pub results: Seq<ValType>,
    pub exports: Seq<Seq<u8>>,
    pub locals: Seq<ValType>,
    pub sig: Option<(Seq<ValType>, Seq<ValType>)>,
    pub type_use: Option<u32>,
}

/// What one field adds.
pub struct FieldStep {
    pub next: nat,
    pub params: Seq<ValType>,
    pub results: Seq<ValType>,
    pub exports: Seq<Seq<u8>>,
    pub locals: Seq<ValType>,
    pub is_local: bool,
    pub type_use: Option<u32>,
}

/// A `(param ...)`/`(local ...)` group's types, the group's keyword at the
/// `u + 1`-th token: one type after a `$name`, else the run of types; with
/// the position after the group's `)`.
pub open spec fn group_types(p: Parser, u: nat) -> Option<(nat, Seq<ValType>)> {
    match ahead(p, u + 2) {
        Some(TokenView::Identifier(_)) => match valtype_tok(ahead(p, u + 3)) {
            Some(vt) => if ahead(p, u + 4) == Some(TokenView::RParen) {
                Some((u + 5, seq![vt]))
            } else {
                None
            },
            None => if ahead(p, u + 3) == Some(TokenView::RParen) {
                Some((u + 4, Seq::<ValType>::empty()))
            } else {
                None
            },
        },
        _ => {
            let m = vrun_len(p, u + 2);
            if ahead(p, u + 2 + m) == Some(TokenView::RParen) {
                Some((u + 3 + m, run_types(p, u + 2, m)))
            } else {
                None
            }
        },
    }
}

/// One field of a function at the `u`-th token ahead of `p`, when it is a
/// well-formed `(export "name")`, `(param ...)`, `(result ...)` or
/// `(local ...)`: the position after it and what it adds. `None` for any
/// other field (an inline import, a type use, an instruction) and for a
/// malformed one.
pub open spec fn plain_field(p: Parser, u: nat) -> Option<FieldStep> {
    let k = ahead(p, u + 1);
    let none = Seq::<ValType>::empty();
    if ahead(p, u) != Some(TokenView::LParen) {
        None
    } else if is_keyword(k, "export".spec_bytes()) {
        match ahead(p, u + 2) {
            Some(TokenView::StringLiteral(t)) => if ahead(p, u + 3) == Some(TokenView::RParen) {
                Some(
                    FieldStep {
                        next: u + 4,
                        params: none,
                        results: none,
                        exports: seq![unescape_from(t, 0)],
                        locals: none,
                        is_local: false,
                        type_use: None,
                    },
                )
            } else {
                None
            },
            _ => None,
        }
    } else if is_keyword(k, "import".spec_bytes()) {
        None
    } else if is_keyword(k, "type".spec_bytes()) {
        match ahead(p, u + 2) {
            Some(TokenView::Int(n)) => if ahead(p, u + 3) == Some(TokenView::RParen) {
                Some(
                    FieldStep {
                        next: u + 4,
                        params: none,
                        results: none,
                        exports: Seq::empty(),
                        locals: none,
                        is_local: false,
                        type_use: Some(n as u32),
                    },
                )
            } else {
                None
            },
            _ => None,
        }
    } else if is_keyword(k, "param".spec_bytes()) {
        match group_types(p, u) {
            Some((nx, ts)) => Some(
                FieldStep { next: nx, params: ts, results: none, exports: Seq::empty(), locals: none, is_local: false, type_use: None },
            ),
            None => None,
        }
    } else if is_keyword(k, "result".spec_bytes()) {
        let m = vrun_len(p, u + 2);
        if ahead(p, u + 2 + m) == Some(TokenView::RParen) {
            Some(
                FieldStep {
                    next: u + 3 + m,
                    params: none,
                    results: run_types(p, u + 2, m),
                    exports: Seq::empty(),
                    locals: none,
                    is_local: false,
                        type_use: None,
                },
            )
        } else {
            None
        }
    } else if is_keyword(k, "local".spec_bytes()) {
        match group_types(p, u) {
            Some((nx, ts)) => Some(
                FieldStep { next: nx, params: none, results: none, exports: Seq::empty(), locals: ts, is_local: true, type_use: None },
            ),
            None => None,
        }
    } else {
        None
    }
}

/// The first `n` fields of a function from the `u0`-th token ahead of
/// `p`, when each is one `plain_field` takes.
pub open spec fn plain_fields(p: Parser, u0: nat, n: nat) -> Option<FieldsView>
    decreases n,
{
    if n == 0 {
        Some(
            FieldsView {
                next: u0,
                params: Seq::empty(),
                results: Seq::empty(),
                exports: Seq::empty(),
                locals: Seq::empty(),
                sig: None,
                type_use: None,
            },
        )
    } else {
        match plain_fields(p, u0, (n - 1) as nat) {
            None => None,
            Some(fv) => match plain_field(p, fv.next) {
                None => None,
                Some(st) => Some(
                    FieldsView {
                        next: st.next,
                        params: fv.params + st.params,
                        results: fv.results + st.results,
                        exports: fv.exports + st.exports,
                        locals: fv.locals + st.locals,
                        sig: if st.is_local && fv.sig is None && fv.type_use is None {
                            Some((fv.params, fv.results))
                        } else {
                            fv.sig
                        },
                        type_use: if st.type_use is Some { st.type_use } else { fv.type_use },
                    },
                ),
            },
        }
    }
}

/// The signature a function of these fields gets: the one interned at its
/// first locals, else its parameters and results.
pub open spec fn fields_sig(fv: FieldsView) -> (Seq<ValType>, Seq<ValType>) {
    match fv.sig {
        Some(s) => s,
        None => (fv.params, fv.results),
    }
}

/// The type table (as signatures) `t` with `sig` interned.
pub open spec fn intern_seq(t: Seq<(Seq<ValType>, Seq<ValType>)>, sig: (Seq<ValType>, Seq<ValType>)) -> Seq<(Seq<ValType>, Seq<ValType>)> {
    if first_index_of(t, sig) < t.len() {
        t
    } else {
        t.push(sig)
    }
}

/// The type table `t` after a function of these fields: its signature
/// interned, unless it names its type by a type use and has no locals
/// before it.
pub open spec fn view_types(t: Seq<(Seq<ValType>, Seq<ValType>)>, fv: FieldsView) -> Seq<(Seq<ValType>, Seq<ValType>)> {
    if fv.sig is None && fv.type_use is Some {
        t
    } else {
        intern_seq(t, fields_sig(fv))
    }
}

/// The type index of a function of these fields: its last type use, else
/// its signature's index in `t`.
pub open spec fn view_type_idx(t: Seq<(Seq<ValType>, Seq<ValType>)>, fv: FieldsView) -> u32 {
    match fv.type_use {
        Some(x) => x,
        None => first_index_of(t, fields_sig(fv)) as u32,
    }
}

/// The type table `t` with `sig` interned.
pub open spec fn interned_view(t: Seq<FuncType>, sig: (Seq<ValType>, Seq<ValType>)) -> Seq<(Seq<ValType>, Seq<ValType>)> {
    if first_index_of(types_view(t), sig) < t.len() {
        types_view(t)
    } else {
        types_view(t).push(sig)
    }
}

/// A function (`func` the current token of `p`) whose `n` fields are all
/// `plain_field`s and whose body is a run of `m` instructions of the
/// `flat_instr` kind, then its `)` or the end of the text.
pub open spec fn func_plain_form(p: Parser, n: nat, m: nat) -> bool {
    &&& plain_fields(p, after_name(p), n) is Some
    &&& ahead(p, plain_fields(p, after_name(p), n).unwrap().next) != Some(TokenView::LParen)
    &&& flat_form(p, plain_fields(p, after_name(p), n).unwrap().next, m)
}

/// The exports `after` holds: those of `before`, then one per name of
/// `names`, each a function export of index `fidx`.
pub open spec fn exports_added(before: Seq<Export>, after: Seq<Export>, names: Seq<Seq<u8>>, fidx: u32) -> bool {
    &&& after.len() == before.len() + names.len()
    &&& after.take(before.len() as int) == before
    &&& forall|i: int|
        0 <= i < names.len() ==> (#[trigger] after[before.len() + i]).name@ == names[i] && after[before.len()
            + i].kind == 0 && after[before.len() + i].index == fidx
}

/// Fields that make a function's first `k` of `n` are followed by a field
/// (`(`, and one `plain_field` takes).
proof fn lemma_fields_prefix(p: Parser, u0: nat, n: nat, k: nat)
    requires
        plain_fields(p, u0, n) is Some,
        k <= n,
    ensures
        plain_fields(p, u0, k) is Some,
        k < n ==> ahead(p, plain_fields(p, u0, k).unwrap().next) == Some(TokenView::LParen) && plain_field(
            p,
            plain_fields(p, u0, k).unwrap().next,
        ) is Some,
    decreases n,
{
    if k < n {
        lemma_fields_prefix(p, u0, (n - 1) as nat, k);
    }
}

/// When the field at the end of the first `f` is not one `plain_field`
/// takes, no count of fields gives a function of `func_plain_form`.
/// The bytes a string token stands for (empty for any other token).
pub open spec fn str_tok(t: Option<TokenView>) -> Seq<u8> {
    match t {
        Some(TokenView::StringLiteral(s)) => unescape_from(s, 0),
        _ => Seq::empty(),
    }
}

/// A function (`func` the current token of `p`) whose first `n` fields are
/// `plain_field`s without `local`s, followed by an inline
/// `(import "module" "name")`: it is an import of that signature.
pub open spec fn func_import_form(p: Parser, n: nat) -> bool {
    &&& plain_fields(p, after_name(p), n) is Some
    &&& plain_fields(p, after_name(p), n).unwrap().sig is None
    &&& ({
        let x = plain_fields(p, after_name(p), n).unwrap().next;
        &&& ahead(p, x) == Some(TokenView::LParen)
        &&& is_keyword(ahead(p, x + 1), "import".spec_bytes())
        &&& ahead(p, x + 2) matches Some(TokenView::StringLiteral(_))
        &&& ahead(p, x + 3) matches Some(TokenView::StringLiteral(_))
        &&& ahead(p, x + 4) == Some(TokenView::RParen)
    })
}

/// The keywords `import` and `export` differ.
proof fn lemma_import_ne_export()
    ensures
        "import".spec_bytes() != "export".spec_bytes(),
{
    reveal_strlit("import");
    reveal_strlit("export");
    vstd::utf8::encode_utf8_decode_utf8("import"@);
    vstd::utf8::encode_utf8_decode_utf8("export"@);
    assert("import"@[0] != "export"@[0]);
}

/// An inline import is no field `plain_field` takes.
proof fn lemma_import_not_plain(p: Parser, u: nat)
    requires
        is_keyword(ahead(p, u + 1), "import".spec_bytes()),
    ensures
        plain_field(p, u) is None,
{
    lemma_import_ne_export();
}

/// Fields before an inline import number at most the import form's count.
proof fn lemma_import_count(p: Parser, f: nat, n: nat)
    requires
        plain_fields(p, after_name(p), f) is Some,
        func_import_form(p, n),
    ensures
        f <= n,
{
    if n < f {
        lemma_fields_prefix(p, after_name(p), f, n);
        lemma_import_not_plain(p, plain_fields(p, after_name(p), n).unwrap().next);
    }
}

/// No inline import follows the first `f` fields when what comes next is
/// not a `(`, or is neither an import nor a field `plain_field` takes.
proof fn lemma_no_import(p: Parser, f: nat)
    requires
        plain_fields(p, after_name(p), f) is Some,
        ({
            let x = plain_fields(p, after_name(p), f).unwrap().next;
            ahead(p, x) != Some(TokenView::LParen) || (plain_field(p, x) is None && !is_keyword(
                ahead(p, x + 1),
                "import".spec_bytes(),
            ))
        }),
    ensures
        forall|n: nat| !#[trigger] func_import_form(p, n),
{
    assert forall|n: nat| !#[trigger] func_import_form(p, n) by {
        if func_import_form(p, n) {
            lemma_import_count(p, f, n);
            if n > f {
                lemma_fields_prefix(p, after_name(p), n, f);
            }
        }
    }
}

proof fn lemma_no_form(p: Parser, f: nat)
    requires
        plain_fields(p, after_name(p), f) is Some,
        ahead(p, plain_fields(p, after_name(p), f).unwrap().next) == Some(TokenView::LParen),
        plain_field(p, plain_fields(p, after_name(p), f).unwrap().next) is None,
    ensures
        forall|n: nat, m: nat| !#[trigger] func_plain_form(p, n, m),
{
    assert forall|n: nat, m: nat| !#[trigger] func_plain_form(p, n, m) by {
        if func_plain_form(p, n, m) {
            if n < f {
                lemma_fields_prefix(p, after_name(p), f, n);
            } else if n > f {
                lemma_fields_prefix(p, after_name(p), n, f);
            }
        }
    }
}

impl<'a> Parser<'a> {
    /// Value types after a `param` or `local` keyword: one, bound to the
    /// name, when a `$name` comes first, else all of them. Each gets the
    /// next local index.
    fn parse_local_group(&mut self, out: &mut Vec<ValType>, next_local: &mut u32)
        requires
            old(self).wf(),
        ensures
            advanced(*old(self), *final(self)),
            final(self).func_names == old(self).func_names,
            final(self).type_names == old(self).type_names,
            final(out)@.len() >= old(out)@.len(),
            match old(self).la() {
                Some(TokenView::Identifier(name)) => match valtype_tok(ahead(*old(self), 1)) {
                    Some(vt) => {
                        &&& final(out)@ == old(out)@.push(vt)
                        &&& *final(next_local) == old(next_local).wrapping_add(1)
                        &&& names_view(final(self).local_names@) == names_view(old(self).local_names@).push(
                            (name, *old(next_local)),
                        )
                        &&& shifted(*final(self), *old(self), 2)
                    },
                    None => {
                        &&& final(out)@ == old(out)@
                        &&& *final(next_local) == *old(next_local)
                        &&& final(self).local_names == old(self).local_names
                        &&& shifted(*final(self), *old(self), 1)
                    },
                },
                _ => final(self).local_names == old(self).local_names && exists|n: nat|
                    #![trigger shifted(*final(self), *old(self), n)]
                    {
                        &&& forall|i: nat| i < n ==> #[trigger] valtype_tok(ahead(*old(self), i)) is Some
                        &&& valtype_tok(ahead(*old(self), n)) is None
                        &&& final(out)@ == old(out)@ + Seq::new(
                            n,
                            |i: int| valtype_tok(ahead(*old(self), i as nat)).unwrap(),
                        )
                        &&& *final(next_local) == ((*old(next_local) as int + n) % 0x1_0000_0000) as u32
                        &&& shifted(*final(self), *old(self), n)
                    },
            },
    {
        let ghost p0 = *self;
        proof {
            assert forall|k: nat| #[trigger] ahead(p0, k) == ahead(p0, k + 0) by {}
        }
        match self.try_identifier() {
            Some(name) => {
                proof {
                    lemma_step_shift(p0, p0, *self, 0);
                    assert(ahead(*self, 0) == ahead(p0, 0 + 1));
                }
                let ghost p1 = *self;
                match self.lookahead {
                    Some(Token::Keyword(kw)) => match ValType::from_kw_bytes(kw) {
                        Some(vt) => {
                            self.local_names.push((name, *next_local));
                            *next_local = next_local.wrapping_add(1);
                            out.push(vt);
                            let ghost p2 = *self;
                            assert(shifted(p2, p0, 1)) by {
                                assert forall|k: nat| #[trigger] ahead(p2, k) == ahead(p0, k + 1) by {
                                    assert(ahead(p2, k) == ahead(p1, k));
                                }
                            }
                            self.bump();
                            proof {
                                assert(stepped(p2, *self));
                                lemma_step_shift(p0, p2, *self, 1);
                                assert(names_view(self.local_names@) =~= names_view(old(self).local_names@).push(
                                    (name@, *old(next_local)),
                                ));
                            }
                        },
                        None => {},
                    },
                    _ => {},
                }
            },
            None => {
                let ghost start = *self;
                let ghost mut n: nat = 0;
                let ghost o = out@;
                let ghost nl_start = *old(next_local) as int;
                loop
                    invariant
                        advanced(start, *self),
                        same_names(start, *self),
                        advanced(*old(self), start),
                        start == *old(self),
                        start.func_names == old(self).func_names,
                        start.type_names == old(self).type_names,
                        out@.len() >= old(out)@.len(),
                        o == old(out)@,
                        nl_start == *old(next_local) as int,
                        forall|i: nat| i < n ==> #[trigger] valtype_tok(ahead(start, i)) is Some,
                        out@ == o + Seq::new(n, |i: int| valtype_tok(ahead(start, i as nat)).unwrap()),
                        *next_local == ((*old(next_local) as int + n) % 0x1_0000_0000) as u32,
                        shifted(*self, start, n),
                    ensures
                        advanced(start, *self),
                        same_names(start, *self),
                        out@.len() >= old(out)@.len(),
                        forall|i: nat| i < n ==> #[trigger] valtype_tok(ahead(start, i)) is Some,
                        valtype_tok(ahead(start, n)) is None,
                        out@ == o + Seq::new(n, |i: int| valtype_tok(ahead(start, i as nat)).unwrap()),
                        *next_local == ((*old(next_local) as int + n) % 0x1_0000_0000) as u32,
                        shifted(*self, start, n),
                    decreases measure(*self),
                {
                    assert(ahead(*self, 0) == ahead(start, 0 + n));
                    assert(ahead(*self, 0) == self.la());
                    let ghost q = *self;
                    match self.lookahead {
                        Some(Token::Keyword(kw)) => match ValType::from_kw_bytes(kw) {
                            Some(vt) => {
                                let ghost nl0 = *next_local;
                                *next_local = next_local.wrapping_add(1);
                                let ghost before = out@;
                                out.push(vt);
                                self.bump();
                                proof {
                                    lemma_step_shift(start, q, *self, n);
                                    assert(out@ =~= o + Seq::new(
                                        (n + 1) as nat,
                                        |i: int| valtype_tok(ahead(start, i as nat)).unwrap(),
                                    ));
                                    vstd::arithmetic::div_mod::lemma_add_mod_noop(nl_start + n, 1, 0x1_0000_0000);
                                    assert(1int % 0x1_0000_0000 == 1);
                                    assert(nl0 == (nl_start + n) % 0x1_0000_0000);
                                    n = n + 1;
                                }
                            },
                            None => {
                                break;
                            },
                        },
                        _ => {
                            break;
                        },
                    }
                }
            },
        }
    }

    /// `(func $name? ...)`, its `(` taken: inline exports, an inline import
    /// (which makes the function an import), a type use, params, results,
    /// locals and the body. The function is appended to the imports or the
    /// definitions, and its name bound to its index.
    #[verifier::rlimit(100)]
    fn parse_func_def<C: Fn(FloatLit<'a>) -> (u32, u64)>(&mut self, module: &mut Module, conv: &C) -> (r:
        Result<(), ParseError>)
        requires
            old(self).wf(),
            forall|l: FloatLit<'a>| call_requires(*conv, (l,)),
        ensures
            advanced(*old(self), *final(self)),
            final(self).type_names == old(self).type_names,
            final(module).memories == old(module).memories,
            final(module).data == old(module).data,
            final(module).exports@.len() >= old(module).exports@.len(),
            r is Ok ==> func_count(*final(module)) == func_count(*old(module)) + 1,
            forall|n: nat, m: nat| #[trigger] func_plain_form(*old(self), n, m) ==> {
                let fv = plain_fields(*old(self), after_name(*old(self)), n).unwrap();
                &&& final(module).imports == old(module).imports
                &&& exports_added(
                    old(module).exports@,
                    final(module).exports@,
                    fv.exports,
                    vstd::wrapping::u32_specs::wrapping_add(
                        old(module).imports@.len() as u32,
                        old(module).funcs@.len() as u32,
                    ),
                )
                &&& types_view(final(module).types@) == view_types(types_view(old(module).types@), fv)
                &&& final(module).funcs@.len() == old(module).funcs@.len() + 1
                &&& final(module).funcs@.take(old(module).funcs@.len() as int) == old(module).funcs@
                &&& final(module).funcs@.last().type_idx == view_type_idx(types_view(old(module).types@), fv)
                &&& final(module).funcs@.last().locals@.len() == fv.locals.len()
                &&& forall|k: int| 0 <= k < fv.locals.len() ==> #[trigger] final(module).funcs@.last().locals@[k] == (
                Local { ty: fv.locals[k] })
                &&& final(module).funcs@.last().body@ == flat_run(*old(self), fv.next, m).unwrap().1
                &&& (r is Ok <==> ahead(*old(self), flat_run(*old(self), fv.next, m).unwrap().0) == Some(
                    TokenView::RParen,
                ))
                &&& (r is Ok ==> shifted(*final(self), *old(self), flat_run(*old(self), fv.next, m).unwrap().0 + 1))
            },
            forall|n: nat| #[trigger] func_import_form(*old(self), n) ==> {
                let fv = plain_fields(*old(self), after_name(*old(self)), n).unwrap();
                let sig = (fv.params, fv.results);
                let x = fv.next;
                &&& final(module).funcs == old(module).funcs
                &&& exports_added(
                    old(module).exports@,
                    final(module).exports@,
                    fv.exports,
                    vstd::wrapping::u32_specs::wrapping_add(
                        old(module).imports@.len() as u32,
                        old(module).funcs@.len() as u32,
                    ),
                )
                &&& types_view(final(module).types@) == interned_view(old(module).types@, sig)
                &&& final(module).imports@.len() == old(module).imports@.len() + 1
                &&& final(module).imports@.take(old(module).imports@.len() as int) == old(module).imports@
                &&& final(module).imports@.last().module@ == str_tok(ahead(*old(self), x + 2))
                &&& final(module).imports@.last().name@ == str_tok(ahead(*old(self), x + 3))
                &&& final(module).imports@.last().type_idx == first_index_of(types_view(old(module).types@), sig) as u32
                &&& (r is Ok <==> ahead(*old(self), x + 5) == Some(TokenView::RParen))
            },
    {
        let ghost p0 = *self;
        proof {
            assert forall|k: nat| #[trigger] ahead(p0, k) == ahead(p0, k + 0) by {}
        }
        self.bump();
        proof {
            lemma_step_shift(p0, p0, *self, 0);
        }
        let ghost p1 = *self;
        let name = self.try_identifier();
        let ghost j: nat = after_name(p0);
        proof {
            assert(ahead(p1, 0) == ahead(p0, 0 + 1));
            assert(ahead(p1, 0) == p1.la());
            if name.is_some() {
                lemma_step_shift(p0, p1, *self, 1);
            }
            assert(shifted(*self, p0, j));
        }
        let ghost pre = *self;
        let fidx = (module.imports.len() as u32).wrapping_add(module.funcs.len() as u32);
        match name {
            Some(n) => {
                self.func_names.push((n, fidx));
            },
            None => {},
        }
        self.local_names.clear();
        let mut next_local: u32 = 0;
        let mut type_parsed = false;
        let mut type_idx: u32 = 0;
        let mut params: Vec<ValType> = Vec::new();
        let mut results: Vec<ValType> = Vec::new();
        let mut local_types: Vec<ValType> = Vec::new();
        let ghost start = *self;
        let ghost m0 = *module;
        let ghost mut f: nat = 0;
        let ghost mut on: bool = true;
        let ghost mut fv = FieldsView {
            next: j,
            params: Seq::empty(),
            results: Seq::empty(),
            exports: Seq::empty(),
            locals: Seq::empty(),
            sig: None,
            type_use: None,
        };
        proof {
            assert(start.lookahead == pre.lookahead && start.unget == pre.unget && start.tokenizer == pre.tokenizer);
            assert forall|k: nat| #[trigger] ahead(start, k) == ahead(p0, k + j) by {
                assert(ahead(start, k) == ahead(pre, k));
            }
            assert(params@ =~= fv.params && results@ =~= fv.results && local_types@ =~= fv.locals);
            assert(module.exports@.take(m0.exports@.len() as int) =~= m0.exports@);
        }
        while self.at_lparen()
            invariant
                p0 == *old(self),
                j == after_name(p0),
                advanced(start, *self),
                advanced(*old(self), start),
                self.type_names == old(self).type_names,
                start.type_names == old(self).type_names,
                forall|l: FloatLit<'a>| call_requires(*conv, (l,)),
                *old(module) == m0,
                module.memories == m0.memories,
                module.data == m0.data,
                module.imports == m0.imports,
                module.funcs == m0.funcs,
                module.exports@.len() >= m0.exports@.len(),
                fidx == vstd::wrapping::u32_specs::wrapping_add(m0.imports@.len() as u32, m0.funcs@.len() as u32),
                on ==> {
                    &&& plain_fields(p0, j, f) == Some(fv)
                    &&& shifted(*self, p0, fv.next)
                    &&& local_types@ == fv.locals
                    &&& params@ == fv.params
                    &&& results@ == fv.results
                    &&& (type_parsed <==> (fv.sig is Some || fv.type_use is Some))
                    &&& fv.sig is None ==> module.types == m0.types
                    &&& fv.sig matches Some(sg) ==> types_view(module.types@) == interned_view(m0.types@, sg)
                    &&& fv.type_use matches Some(t) ==> type_idx == t
                    &&& fv.type_use is None ==> (fv.sig matches Some(sg) ==> type_idx == first_index_of(
                        types_view(m0.types@),
                        sg,
                    ) as u32)
                    &&& exports_added(m0.exports@, module.exports@, fv.exports, fidx)
                },
                !on ==> forall|n: nat, m: nat| !#[trigger] func_plain_form(p0, n, m),
                !on ==> forall|n: nat| !#[trigger] func_import_form(p0, n),
            decreases measure(*self),
        {
            let ghost q0 = *self;
            proof {
                if on {
                    assert(ahead(q0, 0) == q0.la());
                    assert(ahead(q0, 0) == ahead(p0, 0 + fv.next));
                }
            }
            self.bump();
            let ghost q1 = *self;
            proof {
                if on {
                    lemma_step_shift(p0, q0, q1, fv.next);
                    assert(ahead(q1, 0) == q1.la());
                    assert(ahead(q1, 0) == ahead(p0, 0 + (fv.next + 1)));
                }
            }
            if self.at_keyword("export") {
                self.bump();
                let ghost q2 = *self;
                proof {
                    if on {
                        lemma_step_shift(p0, q1, q2, fv.next + 1);
                        assert(ahead(q2, 0) == q2.la());
                        assert(ahead(q2, 0) == ahead(p0, 0 + (fv.next + 2)));
                    }
                }
                let sr = self.expect_string();
                proof {
                    if on && sr is Err {
                        lemma_no_form(p0, f);
                        lemma_import_ne_export();
                        lemma_no_import(p0, f);
                    }
                }
                let export_name = sr?;
                let ghost q3 = *self;
                proof {
                    if on {
                        lemma_step_shift(p0, q2, q3, fv.next + 2);
                        assert(ahead(q3, 0) == q3.la());
                        assert(ahead(q3, 0) == ahead(p0, 0 + (fv.next + 3)));
                    }
                }
                let rr = self.expect_rparen();
                proof {
                    if on && rr is Err {
                        lemma_no_form(p0, f);
                        lemma_import_ne_export();
                        lemma_no_import(p0, f);
                    }
                }
                rr?;
                let ghost q4 = *self;
                let ghost eb = module.exports@;
                module.exports.push(Export { name: export_name, kind: 0x00, index: fidx });
                proof {
                    if on {
                        lemma_step_shift(p0, q3, q4, fv.next + 3);
                        let nfv = FieldsView {
                            next: fv.next + 4,
                            params: fv.params + Seq::<ValType>::empty(),
                            results: fv.results + Seq::<ValType>::empty(),
                            exports: fv.exports + seq![export_name@],
                            locals: fv.locals + Seq::<ValType>::empty(),
                            sig: fv.sig,
                            type_use: fv.type_use,
                        };
                        assert(plain_fields(p0, j, f + 1) == Some(nfv));
                        assert(nfv.params =~= fv.params && nfv.results =~= fv.results && nfv.locals =~= fv.locals);
                        assert(exports_added(m0.exports@, module.exports@, nfv.exports, fidx)) by {
                            assert(module.exports@.take(m0.exports@.len() as int) =~= eb.take(
                                m0.exports@.len() as int,
                            ));
                            assert forall|i: int| 0 <= i < nfv.exports.len() implies (#[trigger] module.exports@[
                                m0.exports@.len() + i]).name@ == nfv.exports[i] && module.exports@[m0.exports@.len()
                                + i].kind == 0 && module.exports@[m0.exports@.len() + i].index == fidx by {
                                if i < fv.exports.len() {
                                    assert(module.exports@[m0.exports@.len() + i] == eb[m0.exports@.len() + i]);
                                }
                            }
                        }
                        fv = nfv;
                        f = f + 1;
                    }
                }
            } else if self.at_keyword("import") {
                let ghost imp = on && func_import_form(p0, f);
                let ghost x = fv.next;
                proof {
                    if on {
                        lemma_import_not_plain(p0, fv.next);
                        lemma_no_form(p0, f);
                        assert forall|n: nat| #[trigger] func_import_form(p0, n) implies n == f by {
                            lemma_import_count(p0, f, n);
                            if n > f {
                                lemma_fields_prefix(p0, j, n, f);
                            }
                        }
                    }
                    on = false;
                }
                self.bump();
                let ghost q2 = *self;
                proof {
                    if imp {
                        lemma_step_shift(p0, q1, q2, x + 1);
                        assert(ahead(q2, 0) == q2.la());
                    }
                }
                let mod_bytes = self.expect_string()?;
                let ghost q3 = *self;
                proof {
                    if imp {
                        lemma_step_shift(p0, q2, q3, x + 2);
                        assert(ahead(q3, 0) == q3.la());
                    }
                }
                let name_bytes = self.expect_string()?;
                let ghost q4 = *self;
                proof {
                    if imp {
                        lemma_step_shift(p0, q3, q4, x + 3);
                        assert(ahead(q4, 0) == q4.la());
                    }
                }
                self.expect_rparen()?;
                let ghost q5 = *self;
                proof {
                    if imp {
                        lemma_step_shift(p0, q4, q5, x + 4);
                        assert(ahead(q5, 0) == q5.la());
                        assert(ahead(q5, 0) == ahead(p0, 0 + (x + 5)));
                    }
                }
                let ft = FuncType { params, results };
                let ghost t0 = module.types@;
                proof {
                    lemma_first_index_of(types_view(t0), ft_view(ft));
                }
                let ti = intern_type(&mut module.types, ft);
                proof {
                    if imp && first_index_of(types_view(t0), ft_view(ft)) == t0.len() {
                        assert(types_view(module.types@) =~= types_view(t0).push(ft_view(ft)));
                    }
                }
                let ghost ib = module.imports@;
                module.imports.push(Import { module: mod_bytes, name: name_bytes, type_idx: ti });
                proof {
                    assert(module.imports@.take(ib.len() as int) =~= ib);
                }
                return self.expect_rparen();
            } else if self.at_keyword("type") {
                let ghost plain_ty = on && plain_field(p0, fv.next) is Some;
                proof {
                    if on && !plain_ty {
                        lemma_no_form(p0, f);
                        lemma_no_import(p0, f);
                        on = false;
                    }
                    if plain_ty {
                        assert(ahead(q1, 1) == ahead(p0, 1 + (fv.next + 1)));
                        assert(ahead(q1, 2) == ahead(p0, 2 + (fv.next + 1)));
                    }
                }
                type_idx = self.parse_type_index()?;
                type_parsed = true;
                proof {
                    if plain_ty {
                        lemma_shifted_trans(*self, q1, p0, 3, fv.next + 1);
                        let e = plain_field(p0, fv.next).unwrap();
                        let nfv = FieldsView {
                            next: e.next,
                            params: fv.params + e.params,
                            results: fv.results + e.results,
                            exports: fv.exports + e.exports,
                            locals: fv.locals + e.locals,
                            sig: fv.sig,
                            type_use: e.type_use,
                        };
                        assert(plain_fields(p0, j, f + 1) == Some(nfv));
                        assert(nfv.next == fv.next + 4);
                        assert(params@ =~= nfv.params);
                        assert(results@ =~= nfv.results);
                        assert(nfv.exports =~= fv.exports);
                        assert(nfv.locals =~= fv.locals);
                        fv = nfv;
                        f = f + 1;
                    }
                }
            } else if self.at_keyword("param") {
                self.bump();
                let ghost q2 = *self;
                let ghost op = params@;
                let ghost nl0 = next_local;
                proof {
                    if on {
                        lemma_step_shift(p0, q1, q2, fv.next + 1);
                        assert(ahead(q2, 0) == q2.la());
                        assert(ahead(q2, 1) == ahead(p0, 1 + (fv.next + 2)));
                        assert(ahead(q2, 0) == ahead(p0, 0 + (fv.next + 2)));
                    }
                }
                self.parse_local_group(&mut params, &mut next_local);
                let ghost q3 = *self;
                let ghost adv: nat = if on {
                    match ahead(p0, fv.next + 2) {
                        Some(TokenView::Identifier(_)) => match valtype_tok(ahead(p0, fv.next + 3)) {
                            Some(_) => 2nat,
                            None => 1nat,
                        },
                        _ => vrun_len(p0, fv.next + 2),
                    }
                } else {
                    0nat
                };
                proof {
                    if on {
                        match ahead(p0, fv.next + 2) {
                            Some(TokenView::Identifier(_)) => {},
                            _ => {
let w = lemma_valtype_run_shift(p0, q2, fv.next + 2, op, params@, q3);
                                lemma_valtype_run_unique(p0);
                                assert(valtype_run(p0, fv.next + 2, vrun_len(p0, fv.next + 2)));
                                assert(w == vrun_len(p0, fv.next + 2));
                            },
                        }
                        lemma_shifted_trans(q3, q2, p0, adv, fv.next + 2);
                        assert(ahead(q3, 0) == q3.la());
                        assert(ahead(q3, 0) == ahead(p0, 0 + (adv + (fv.next + 2))));
                    }
                }
                let rr = self.expect_rparen();
                proof {
                    if on && rr is Err {
                        lemma_no_form(p0, f);
                        lemma_no_import(p0, f);
                    }
                }
                rr?;
                proof {
                    if on {
                        let q4 = *self;
                        lemma_step_shift(p0, q3, q4, adv + (fv.next + 2));
                        let e = plain_field(p0, fv.next).unwrap();
                        let nfv = FieldsView {
                            next: e.next,
                            params: fv.params + e.params,
                            results: fv.results + e.results,
                            exports: fv.exports + e.exports,
                            locals: fv.locals + e.locals,
                            sig: fv.sig,
                            type_use: fv.type_use,
                        };
                        assert(plain_fields(p0, j, f + 1) == Some(nfv));
                        assert(nfv.next == adv + fv.next + 3);
                        assert(params@ =~= nfv.params);
                        assert(results@ =~= nfv.results);
                        assert(nfv.exports =~= fv.exports);
                        assert(nfv.locals =~= fv.locals);
                        fv = nfv;
                        f = f + 1;
                    }
                }
            } else if self.at_keyword("result") {
                self.bump();
                let ghost q2 = *self;
                let ghost orr = results@;
                proof {
                    if on {
                        lemma_step_shift(p0, q1, q2, fv.next + 1);
                    }
                }
                self.parse_valtypes(&mut results);
                let ghost q3 = *self;
                let ghost mut w: nat = 0;
                proof {
                    if on {
                        w = lemma_valtype_run_shift(p0, q2, fv.next + 2, orr, results@, q3);
                        lemma_valtype_run_unique(p0);
                        assert(valtype_run(p0, fv.next + 2, vrun_len(p0, fv.next + 2)));
                        assert(w == vrun_len(p0, fv.next + 2));
                        assert(ahead(q3, 0) == q3.la());
                    }
                }
                let rr = self.expect_rparen();
                proof {
                    if on && rr is Err {
                        lemma_no_form(p0, f);
                        lemma_no_import(p0, f);
                    }
                }
                rr?;
                proof {
                    if on {
                        let q4 = *self;
                        lemma_step_shift(p0, q3, q4, fv.next + 2 + w);
                        let e = plain_field(p0, fv.next).unwrap();
                        let nfv = FieldsView {
                            next: e.next,
                            params: fv.params + e.params,
                            results: fv.results + e.results,
                            exports: fv.exports + e.exports,
                            locals: fv.locals + e.locals,
                            sig: fv.sig,
                            type_use: fv.type_use,
                        };
                        assert(plain_fields(p0, j, f + 1) == Some(nfv));
                        assert(params@ =~= nfv.params);
                        assert(results@ =~= nfv.results);
                        assert(nfv.exports =~= fv.exports);
                        assert(nfv.locals =~= fv.locals);
                        fv = nfv;
                        f = f + 1;
                    }
                }
            } else if self.at_keyword("local") {
                let ghost sig0 = fv.sig;
                if !type_parsed {
                    let ft = FuncType { params: copy_valtypes(&params), results: copy_valtypes(&results) };
                    let ghost t0 = module.types@;
                    proof {
                        lemma_first_index_of(types_view(t0), ft_view(ft));
                    }
                    type_idx = intern_type(&mut module.types, ft);
                    type_parsed = true;
                    proof {
                        if on {
                            assert(ft_view(ft) == (fv.params, fv.results));
                            if first_index_of(types_view(t0), (fv.params, fv.results)) == t0.len() {
                                assert(types_view(module.types@) =~= types_view(t0).push((fv.params, fv.results)));
                            }
                        }
                    }
                }
                self.bump();
                let ghost q2 = *self;
                let ghost ol = local_types@;
                proof {
                    if on {
                        lemma_step_shift(p0, q1, q2, fv.next + 1);
                        assert(ahead(q2, 0) == q2.la());
                        assert(ahead(q2, 1) == ahead(p0, 1 + (fv.next + 2)));
                        assert(ahead(q2, 0) == ahead(p0, 0 + (fv.next + 2)));
                    }
                }
                self.parse_local_group(&mut local_types, &mut next_local);
                let ghost q3 = *self;
                let ghost adv: nat = if on {
                    match ahead(p0, fv.next + 2) {
                        Some(TokenView::Identifier(_)) => match valtype_tok(ahead(p0, fv.next + 3)) {
                            Some(_) => 2nat,
                            None => 1nat,
                        },
                        _ => vrun_len(p0, fv.next + 2),
                    }
                } else {
                    0nat
                };
                proof {
                    if on {
                        match ahead(p0, fv.next + 2) {
                            Some(TokenView::Identifier(_)) => {},
                            _ => {
                                let w = lemma_valtype_run_shift(p0, q2, fv.next + 2, ol, local_types@, q3);
                                lemma_valtype_run_unique(p0);
                                assert(valtype_run(p0, fv.next + 2, vrun_len(p0, fv.next + 2)));
                                assert(w == vrun_len(p0, fv.next + 2));
                            },
                        }
                        lemma_shifted_trans(q3, q2, p0, adv, fv.next + 2);
                        assert(ahead(q3, 0) == q3.la());
                        assert(ahead(q3, 0) == ahead(p0, 0 + (adv + (fv.next + 2))));
                    }
                }
                let rr = self.expect_rparen();
                proof {
                    if on && rr is Err {
                        lemma_no_form(p0, f);
                        lemma_no_import(p0, f);
                    }
                }
                rr?;
                proof {
                    if on {
                        let q4 = *self;
                        lemma_step_shift(p0, q3, q4, adv + (fv.next + 2));
                        let e = plain_field(p0, fv.next).unwrap();
                        let nfv = FieldsView {
                            next: e.next,
                            params: fv.params + e.params,
                            results: fv.results + e.results,
                            exports: fv.exports + e.exports,
                            locals: fv.locals + e.locals,
                            sig: if sig0 is None && fv.type_use is None { Some((fv.params, fv.results)) } else { sig0 },
                            type_use: fv.type_use,
                        };
                        assert(e.is_local);
                        assert(plain_fields(p0, j, f + 1) == Some(nfv));
                        assert(nfv.next == adv + fv.next + 3);
                        assert(params@ =~= nfv.params);
                        assert(results@ =~= nfv.results);
                        assert(local_types@ =~= nfv.locals);
                        assert(nfv.exports =~= fv.exports);
                        fv = nfv;
                        f = f + 1;
                    }
                }
            } else {
                proof {
                    if on {
                        lemma_no_form(p0, f);
                        lemma_no_import(p0, f);
                        on = false;
                    }
                }
                if !type_parsed {
                    let ft = FuncType { params, results };
                    type_idx = intern_type(&mut module.types, ft);
                }
                let mut body = self.parse_folded_instr(conv)?;
                let mut rest = self.parse_instrs(conv)?;
                body.append(&mut rest);
                let locals = locals_of(&local_types);
                module.funcs.push(FuncDef { type_idx, locals, body });
                return self.expect_rparen();
            }
        }
        let ghost before_instrs = *self;
        proof {
            if on {
                assert(ahead(before_instrs, 0) == before_instrs.la());
                assert(ahead(before_instrs, 0) == ahead(p0, 0 + fv.next));
                lemma_no_import(p0, f);
                assert forall|n: nat, m: nat| #[trigger] func_plain_form(p0, n, m) implies n == f by {
                    if n < f {
                        lemma_fields_prefix(p0, j, f, n);
                    } else if n > f {
                        lemma_fields_prefix(p0, j, n, f);
                    }
                }
                assert forall|m: nat| #[trigger] flat_form(p0, fv.next, m) implies flat_form(before_instrs, 0, m) by {
                    lemma_flat_shift(p0, before_instrs, fv.next, m);
                }
            }
        }
        if !type_parsed {
            let ft = FuncType { params, results };
            proof {
                if on {
                    assert(ft_view(ft) == (fv.params, fv.results));
                    assert(fv.sig is None && fv.type_use is None);
                    assert(module.types == m0.types);
                    lemma_first_index_of(types_view(module.types@), ft_view(ft));
                }
            }
            let ghost t0 = module.types@;
            type_idx = intern_type(&mut module.types, ft);
            proof {
                if on && first_index_of(types_view(t0), (fv.params, fv.results)) == t0.len() {
                    assert(types_view(module.types@) =~= types_view(t0).push((fv.params, fv.results)));
                }
            }
        }
        let body = self.parse_instrs(conv)?;
        let ghost after_instrs = *self;
        let ghost body_v = body@;
        let locals = locals_of(&local_types);
        let ghost fbefore = module.funcs@;
        module.funcs.push(FuncDef { type_idx, locals, body });
        assert(module.funcs@.take(fbefore.len() as int) =~= fbefore);
        let r = self.expect_rparen();
        proof {
            if on {
                assert(ahead(after_instrs, 0) == after_instrs.la());
                assert(module.funcs@.last().locals@.len() == fv.locals.len());
                assert forall|n: nat, m: nat| #[trigger] func_plain_form(p0, n, m) implies module.funcs@.last().body@
                    == flat_run(p0, fv.next, m).unwrap().1 && (r is Ok <==> ahead(p0, flat_run(p0, fv.next, m).unwrap().0)
                    == Some(TokenView::RParen)) && n == f && (r is Ok ==> shifted(
                    *self,
                    p0,
                    flat_run(p0, fv.next, m).unwrap().0 + 1,
                )) by {
                    assert(n == f);
                    assert(flat_form(p0, fv.next, m));
                    lemma_flat_shift(p0, before_instrs, fv.next, m);
                    assert(flat_form(before_instrs, 0, m));
                    let x = flat_run(p0, fv.next, m).unwrap().0;
                    let y = (x - fv.next) as nat;
                    assert(flat_run(before_instrs, 0, m).unwrap().0 == y);
                    assert(body_v == flat_run(before_instrs, 0, m).unwrap().1);
                    assert(ahead(after_instrs, 0) == ahead(before_instrs, 0 + y));
                    assert(ahead(before_instrs, 0 + y) == ahead(p0, (0 + y) + fv.next));
                    if r is Ok {
                        lemma_shifted_trans(after_instrs, before_instrs, p0, y, fv.next);
                        lemma_step_shift(p0, after_instrs, *self, y + fv.next);
                    }
                }
            }
        }
        r
    }

    /// `(memory $name? min max?)`, its `(` taken: the memory is appended.
    /// An inline import is skipped, and so is any other list before the
    /// limits.
    fn parse_memory(&mut self, module: &mut Module) -> (r: Result<(), ParseError>)
        requires
            old(self).wf(),
        ensures
            advanced(*old(self), *final(self)),
            same_names(*old(self), *final(self)),
            final(module).types == old(module).types,
            final(module).imports == old(module).imports,
            final(module).funcs == old(module).funcs,
            final(module).exports == old(module).exports,
            final(module).data == old(module).data,
            final(module).memories@.len() <= old(module).memories@.len() + 1,
            final(module).memories@.take(old(module).memories@.len() as int) == old(module).memories@,
            ahead(*old(self), after_name(*old(self))) != Some(TokenView::LParen) ==> {
                let k1 = after_name(*old(self));
                let lo = int_tok(ahead(*old(self), k1));
                let k2: nat = if lo is Some { k1 + 1 } else { k1 };
                let hi = int_tok(ahead(*old(self), k2));
                let k3: nat = if hi is Some { k2 + 1 } else { k2 };
                &&& final(module).memories@ == old(module).memories@.push(
                    Memory {
                        min: match lo {
                            Some(n) => n as u32,
                            None => 0,
                        },
                        max: match hi {
                            Some(n) => Some(n as u32),
                            None => None,
                        },
                    },
                )
                &&& (r is Ok <==> ahead(*old(self), k3) == Some(TokenView::RParen))
            },
            ahead(*old(self), after_name(*old(self))) == Some(TokenView::LParen) && is_keyword(
                ahead(*old(self), after_name(*old(self)) + 1),
                "import".spec_bytes(),
            ) ==> final(module).memories == old(module).memories,
    {
        let ghost p0 = *self;
        proof {
            assert(shifted(p0, p0, 0)) by {
                assert forall|k: nat| #[trigger] ahead(p0, k) == ahead(p0, k + 0) by {}
            }
        }
        self.bump();
        proof {
            lemma_step_shift(p0, p0, *self, 0);
        }
        let ghost p1 = *self;
        let id = self.try_identifier();
        let ghost off: nat = if id.is_some() { 2 } else { 1 };
        proof {
            if id.is_some() {
                lemma_step_shift(p0, p1, *self, 1);
            }
            assert(ahead(p1, 0) == ahead(p0, 1));
            assert(off == after_name(p0));
            assert(shifted(*self, p0, off));
            assert(ahead(*self, 0) == ahead(p0, 0 + off));
        }
        if self.at_lparen() {
            let ghost q = *self;
            self.bump();
            proof {
                lemma_step_shift(p0, q, *self, off);
                assert(ahead(*self, 0) == ahead(p0, 0 + (off + 1)));
                assert(ahead(*self, 0) == self.la());
            }
            if self.at_keyword("import") {
                self.skip_rest_of_list()?;
                return self.expect_rparen();
            } else {
                self.skip_rest_of_list()?;
            }
        }
        let ghost q0 = *self;
        let min: u32 = match self.lookahead {
            Some(Token::Int(n)) => {
                self.bump();
                proof {
                    if ahead(p0, off) != Some(TokenView::LParen) {
                        lemma_step_shift(p0, q0, *self, off);
                    }
                }
                n as u32
            },
            _ => 0,
        };
        let ghost off2: nat = if int_tok(ahead(p0, off)) is Some { off + 1 } else { off };
        proof {
            if ahead(p0, off) != Some(TokenView::LParen) {
                assert(ahead(q0, 0) == ahead(p0, 0 + off));
                assert(shifted(*self, p0, off2));
                assert(ahead(*self, 0) == ahead(p0, 0 + off2));
            }
        }
        let ghost q1 = *self;
        let max: Option<u32> = match self.lookahead {
            Some(Token::Int(n)) => {
                self.bump();
                proof {
                    if ahead(p0, off) != Some(TokenView::LParen) {
                        lemma_step_shift(p0, q1, *self, off2);
                    }
                }
                Some(n as u32)
            },
            _ => None,
        };
        let ghost off3: nat = if int_tok(ahead(p0, off2)) is Some { off2 + 1 } else { off2 };
        proof {
            if ahead(p0, off) != Some(TokenView::LParen) {
                assert(shifted(*self, p0, off3));
                assert(ahead(*self, 0) == ahead(p0, 0 + off3));
            }
        }
        let ghost before = module.memories@;
        module.memories.push(Memory { min, max });
        assert(module.memories@.take(before.len() as int) =~= before);
        self.expect_rparen()
    }

    /// `(export "name" (func|memory|table|global idx))`, its `(` taken:
    /// the export is appended (a `$name` resolves among the functions, 0
    /// when unknown). Other export kinds are skipped.
    fn parse_export(&mut self, module: &mut Module) -> (r: Result<(), ParseError>)
        requires
            old(self).wf(),
        ensures
            advanced(*old(self), *final(self)),
            same_names(*old(self), *final(self)),
            final(module).types == old(module).types,
            final(module).imports == old(module).imports,
            final(module).funcs == old(module).funcs,
            final(module).memories == old(module).memories,
            final(module).data == old(module).data,
            final(module).exports@.len() <= old(module).exports@.len() + 1,
            final(module).exports@.take(old(module).exports@.len() as int) == old(module).exports@,
            !(ahead(*old(self), 1) matches Some(TokenView::StringLiteral(_))) ==> r == Err::<(), ParseError>(
                ParseError::ExpectedString,
            ),
            ahead(*old(self), 1) matches Some(TokenView::StringLiteral(_)) && ahead(*old(self), 2) != Some(
                TokenView::LParen,
            ) ==> r == Err::<(), ParseError>(ParseError::ExpectedLParen),
            ahead(*old(self), 1) matches Some(TokenView::StringLiteral(_)) && ahead(*old(self), 2) == Some(
                TokenView::LParen,
            ) && export_kind(ahead(*old(self), 3)) is Some ==> {
                let nm = ahead(*old(self), 1).unwrap()->StringLiteral_0;
                let k: nat = if is_index_tok(ahead(*old(self), 4)) { 5 } else { 4 };
                &&& (r is Ok <==> ahead(*old(self), k) == Some(TokenView::RParen) && ahead(*old(self), k + 1) == Some(
                    TokenView::RParen,
                ))
                &&& r is Ok ==> final(module).exports@.len() == old(module).exports@.len() + 1
                    && final(module).exports@.last().name@ == unescape_from(nm, 0)
                    && final(module).exports@.last().kind == export_kind(ahead(*old(self), 3)).unwrap()
                    && final(module).exports@.last().index == export_index_of(ahead(*old(self), 4), names_view(old(self).func_names@))
                &&& r is Err ==> final(module).exports == old(module).exports
            },
            export_kind(ahead(*old(self), 3)) is None ==> final(module).exports == old(module).exports,
    {
        let ghost p0 = *self;
        proof {
            assert forall|k: nat| #[trigger] ahead(p0, k) == ahead(p0, k + 0) by {}
        }
        self.bump();
        proof {
            lemma_step_shift(p0, p0, *self, 0);
            assert(ahead(*self, 0) == ahead(p0, 0 + 1));
        }
        let ghost p1 = *self;
        let name_bytes = self.expect_string()?;
        proof {
            lemma_step_shift(p0, p1, *self, 1);
            assert(ahead(*self, 0) == ahead(p0, 0 + 2));
        }
        let ghost p2 = *self;
        self.expect_lparen()?;
        proof {
            lemma_step_shift(p0, p2, *self, 2);
            assert(ahead(*self, 0) == ahead(p0, 0 + 3));
        }
        let ghost p3 = *self;
        let kind: u8 = if self.at_keyword("func") {
            0x00
        } else if self.at_keyword("memory") {
            0x02
        } else if self.at_keyword("table") {
            0x01
        } else if self.at_keyword("global") {
            0x03
        } else {
            self.skip_rest_of_list()?;
            return self.expect_rparen();
        };
        self.bump();
        proof {
            lemma_step_shift(p0, p3, *self, 3);
            assert(ahead(*self, 0) == ahead(p0, 0 + 4));
        }
        let ghost p4 = *self;
        let index: u32 = match self.lookahead {
            Some(Token::Int(n)) => {
                self.bump();
                proof {
                    lemma_step_shift(p0, p4, *self, 4);
                }
                n as u32
            },
            Some(Token::Identifier(id)) => {
                self.bump();
                proof {
                    lemma_step_shift(p0, p4, *self, 4);
                }
                match find_name(&self.func_names, id) {
                    Some(i) => i,
                    None => 0,
                }
            },
            _ => 0,
        };
        let ghost k: nat = if is_index_tok(ahead(p0, 4)) { 5 } else { 4 };
        let ghost p5 = *self;
        proof {
            assert(shifted(p5, p0, k));
            assert(ahead(p5, 0) == ahead(p0, 0 + k));
        }
        self.expect_rparen()?;
        proof {
            lemma_step_shift(p0, p5, *self, k);
            assert(ahead(*self, 0) == ahead(p0, 0 + (k + 1)));
        }
        self.expect_rparen()?;
        let ghost before = module.exports@;
        module.exports.push(Export { name: name_bytes, kind, index });
        assert(module.exports@.take(before.len() as int) =~= before);
        Ok(())
    }

    /// `(data idx? (i32.const N) "bytes"...)` (the offset may be wrapped in
    /// `(offset ...)`), its `(` taken: the segment is appended.
    fn parse_data(&mut self, module: &mut Module) -> (r: Result<(), ParseError>)
        requires
            old(self).wf(),
        ensures
            advanced(*old(self), *final(self)),
            same_names(*old(self), *final(self)),
            final(module).types == old(module).types,
            final(module).imports == old(module).imports,
            final(module).funcs == old(module).funcs,
            final(module).memories == old(module).memories,
            final(module).exports == old(module).exports,
            r is Ok ==> final(module).data@.len() == old(module).data@.len() + 1,
            r is Ok ==> final(module).data@.take(old(module).data@.len() as int) == old(module).data@,
            data_head_err(*old(self)) is Some ==> r == Err::<(), ParseError>(data_head_err(*old(self)).unwrap())
                && final(module).data == old(module).data,
            forall|n: nat|
                data_head_err(*old(self)) is None && #[trigger] string_run(*old(self), data_body(*old(self)), n)
                    ==> {
                    &&& final(module).data@.len() == old(module).data@.len() + 1
                    &&& final(module).data@.take(old(module).data@.len() as int) == old(module).data@
                    &&& final(module).data@.last().mem_idx == data_mem(*old(self))
                    &&& final(module).data@.last().offset == data_offset(*old(self))
                    &&& final(module).data@.last().bytes@ == run_bytes(*old(self), data_body(*old(self)), n)
                    &&& (r is Ok <==> ahead(*old(self), data_body(*old(self)) + n) == Some(TokenView::RParen))
                },
    {
        let ghost p0 = *self;
        proof {
            assert forall|k: nat| #[trigger] ahead(p0, k) == ahead(p0, k + 0) by {}
        }
        self.bump();
        proof {
            lemma_step_shift(p0, p0, *self, 0);
        }
        let ghost p1 = *self;
        let mem_idx: u32 = match self.lookahead {
            Some(Token::Int(n)) => {
                self.bump();
                proof {
                    lemma_step_shift(p0, p1, *self, 1);
                }
                n as u32
            },
            _ => 0,
        };
        let ghost i: nat = data_start(p0);
        proof {
            assert(ahead(p1, 0) == ahead(p0, 0 + 1));
            assert(ahead(p1, 0) == p1.la());
            assert(mem_idx == data_mem(p0));
            assert(shifted(*self, p0, i));
            assert(ahead(*self, 0) == ahead(p0, 0 + i));
            assert(ahead(*self, 0) == self.la());
        }
        let offset: i32 = if self.at_lparen() {
            let ghost q0 = *self;
            self.bump();
            proof {
                lemma_step_shift(p0, q0, *self, i);
                assert(ahead(*self, 0) == ahead(p0, 0 + (i + 1)));
                assert(ahead(*self, 0) == self.la());
            }
            if self.at_keyword("offset") {
                let ghost q1 = *self;
                self.bump();
                proof {
                    lemma_step_shift(p0, q1, *self, i + 1);
                }
                let ghost q2 = *self;
                self.bump();
                proof {
                    lemma_step_shift(p0, q2, *self, i + 2);
                }
            }
            let ghost o: nat = data_const_at(p0);
            proof {
                assert(shifted(*self, p0, o));
                assert(ahead(*self, 0) == ahead(p0, 0 + o));
                assert(ahead(*self, 0) == self.la());
            }
            let ghost q3 = *self;
            self.expect_keyword("i32.const")?;
            proof {
                lemma_step_shift(p0, q3, *self, o);
                assert(ahead(*self, 0) == ahead(p0, 0 + (o + 1)));
                assert(ahead(*self, 0) == self.la());
            }
            let ghost q4 = *self;
            let n: i32 = match self.lookahead {
                Some(Token::Int(n)) => {
                    self.bump();
                    proof {
                        lemma_step_shift(p0, q4, *self, o + 1);
                    }
                    n
                },
                _ => 0,
            };
            let ghost c: nat = if ahead(p0, o + 1) matches Some(TokenView::Int(_)) { o + 2 } else { o + 1 };
            proof {
                assert(shifted(*self, p0, c));
                assert(ahead(*self, 0) == ahead(p0, 0 + c));
                assert(ahead(*self, 0) == self.la());
            }
            let ghost q5 = *self;
            self.expect_rparen()?;
            proof {
                lemma_step_shift(p0, q5, *self, c);
            }
            n
        } else {
            0
        };
        let ghost body: nat = data_body(p0);
        proof {
            assert(data_head_err(p0) is None);
            assert(offset == data_offset(p0));
            assert(shifted(*self, p0, body));
        }
        let mut bytes: Vec<u8> = Vec::new();
        let ghost start = *self;
        let ghost mut n: nat = 0;
        loop
            invariant
                advanced(start, *self),
                same_names(start, *self),
                advanced(*old(self), start),
                same_names(*old(self), start),
                p0 == *old(self),
                shifted(*self, p0, body + n),
                forall|k: nat| k < n ==> #[trigger] is_str_tok(ahead(p0, body + k)),
                bytes@ == run_bytes(p0, body, n),
            ensures
                advanced(start, *self),
                same_names(start, *self),
                shifted(*self, p0, body + n),
                string_run(p0, body, n),
                bytes@ == run_bytes(p0, body, n),
            decreases measure(*self),
        {
            proof {
                assert(ahead(*self, 0) == ahead(p0, 0 + (body + n)));
                assert(ahead(*self, 0) == self.la());
            }
            match self.lookahead {
                Some(Token::StringLiteral(_)) => {
                    let ghost q = *self;
                    let mut b = self.expect_string()?;
                    proof {
                        lemma_step_shift(p0, q, *self, body + n);
                    }
                    let ghost before = bytes@;
                    bytes.append(&mut b);
                    proof {
                        reveal_with_fuel(run_bytes, 2);
                        assert(bytes@ =~= run_bytes(p0, body, n + 1));
                        n = n + 1;
                    }
                },
                _ => {
                    break;
                },
            }
        }
        let ghost before = module.data@;
        module.data.push(DataSeg { mem_idx, offset, bytes });
        assert(module.data@.take(before.len() as int) =~= before);
        proof {
            lemma_string_run_unique(p0, body);
            assert(ahead(*self, 0) == ahead(p0, 0 + (body + n)));
            assert(ahead(*self, 0) == self.la());
        }
        self.expect_rparen()
    }

    /// A whole `(module $name? field*)`. Type, import, func, memory, export
    /// and data fields are parsed; other fields are skipped.
    #[verifier::rlimit(50)]
    pub fn parse_module<C: Fn(FloatLit<'a>) -> (u32, u64)>(&mut self, conv: &C) -> (r: Result<
        Module,
        ParseError,
    >)
        requires
            old(self).wf(),
            forall|l: FloatLit<'a>| call_requires(*conv, (l,)),
        ensures
            final(self).wf(),
            old(self).la() != Some(TokenView::LParen) ==> r == Err::<Module, ParseError>(
                ParseError::ExpectedLParen,
            ),
            old(self).la() == Some(TokenView::LParen) && !is_keyword(ahead(*old(self), 1), "module".spec_bytes())
                ==> r == Err::<Module, ParseError>(ParseError::ExpectedKeyword),
            old(self).la() == Some(TokenView::LParen) && is_keyword(ahead(*old(self), 1), "module".spec_bytes())
                && ahead(*old(self), after_name_at(*old(self), 1)) != Some(TokenView::LParen) ==> if ahead(
                *old(self),
                after_name_at(*old(self), 1),
            ) == Some(TokenView::RParen) {
                r is Ok && empty_module(r.unwrap())
            } else {
                r == Err::<Module, ParseError>(ParseError::ExpectedRParen)
            },
            forall|k: nat| #[trigger] plain_module(*old(self), k) ==> r is Ok && module_is(
                r.unwrap(),
                plain_funcs(*old(self), after_name_at(*old(self), 1), k).unwrap(),
            ),
    {
        let ghost p0 = *self;
        proof {
            assert forall|k: nat| #[trigger] ahead(p0, k) == ahead(p0, k + 0) by {}
        }
        let mut module = Module {
            types: Vec::new(),
            imports: Vec::new(),
            funcs: Vec::new(),
            memories: Vec::new(),
            exports: Vec::new(),
            data: Vec::new(),
        };
        self.expect_lparen()?;
        proof {
            lemma_step_shift(p0, p0, *self, 0);
            assert(ahead(*self, 0) == ahead(p0, 0 + 1));
            assert(ahead(*self, 0) == self.la());
        }
        let ghost p1 = *self;
        self.expect_keyword("module")?;
        proof {
            lemma_step_shift(p0, p1, *self, 1);
            assert(ahead(*self, 0) == ahead(p0, 0 + 2));
            assert(ahead(*self, 0) == self.la());
        }
        let ghost p2 = *self;
        let nm = self.try_identifier();
        let ghost k: nat = after_name_at(p0, 1);
        proof {
            if nm.is_some() {
                lemma_step_shift(p0, p2, *self, 2);
            }
            assert(shifted(*self, p0, k));
            assert(ahead(*self, 0) == ahead(p0, 0 + k));
            assert(ahead(*self, 0) == self.la());
        }
        let ghost start = *self;
        let ghost mut on: bool = true;
        let ghost mut cnt: nat = 0;
        let ghost mut pf: PlainFuncs = PlainFuncs {
            next: k,
            types: Seq::empty(),
            exports: Seq::empty(),
            funcs: Seq::empty(),
        };
        proof {
            lemma_plain_funcs_start(p0, k, module);
        }
        while self.at_lparen()
            invariant
                advanced(start, *self),
                forall|l: FloatLit<'a>| call_requires(*conv, (l,)),
                old(self).la() == Some(TokenView::LParen),
                start.la() != Some(TokenView::LParen) ==> *self == start && empty_module(module),
                p0 == *old(self),
                is_keyword(ahead(p0, 1), "module".spec_bytes()),
                ahead(p0, after_name_at(p0, 1)) == start.la(),
                k == after_name_at(p0, 1),
                on ==> plain_funcs(p0, k, cnt) == Some(pf) && module_is(module, pf) && shifted(*self, p0, pf.next),
                forall|kk: nat| #[trigger] plain_module(p0, kk) ==> on && cnt <= kk,
            decreases measure(*self),
        {
            proof {
                assert(ahead(*self, 0) == self.la());
            }
            let ghost will = on && plain_funcs(p0, k, cnt + 1) is Some;
            proof {
                if on {
                    assert(ahead(*self, 0) == ahead(p0, 0 + pf.next));
                    assert forall|kk: nat| #[trigger] plain_module(p0, kk) implies will by {
                        if kk == cnt {
                            assert(false);
                        }
                        lemma_plain_funcs_prefix(p0, k, kk, cnt + 1);
                    }
                }
            }
            let ghost q0 = *self;
            self.bump();
            let ghost q = *self;
            proof {
                if will {
                    lemma_plain_funcs_next(p0, k, cnt, pf);
                    lemma_step_shift(p0, q0, q, pf.next);
                    assert(ahead(q, 0) == ahead(p0, 0 + (pf.next + 1)));
                    assert(ahead(q, 0) == q.la());
                    assert(is_keyword(q.la(), "func".spec_bytes()));
                }
            }
            if self.at_keyword("func") {
                let ghost nm = func_shape(p0, pf.next + 1);
                let ghost m0 = module;
                proof {
                    if will {
                        lemma_plain_next(p0, k, cnt, pf, q);
                        assert(func_plain_form(q, nm.0, nm.1));
                    }
                }
                self.parse_func_def(&mut module, conv)?;
                proof {
                    if will {
                        lemma_plain_step(p0, k, cnt, pf, q, *self, m0, module);
                        pf = plain_funcs(p0, k, cnt + 1).unwrap();
                        cnt = cnt + 1;
                    } else {
                        on = false;
                    }
                }
            } else if self.at_keyword("type") {
                self.parse_type_def(&mut module)?;
            } else if self.at_keyword("import") {
                self.parse_import(&mut module)?;
            } else if self.at_keyword("memory") {
                self.parse_memory(&mut module)?;
            } else if self.at_keyword("export") {
                self.parse_export(&mut module)?;
            } else if self.at_keyword("data") {
                self.parse_data(&mut module)?;
            } else if self.at_keyword("table") || self.at_keyword("elem") || self.at_keyword("global")
                || self.at_keyword("start") {
                self.bump();
                self.skip_rest_of_list()?;
            } else {
                self.skip_rest_of_list()?;
            }
            proof {
                if !will {
                    on = false;
                }
            }
        }
        proof {
            if on {
                assert(ahead(*self, 0) == ahead(p0, 0 + pf.next));
                assert(ahead(*self, 0) == self.la());
                assert forall|kk: nat| #[trigger] plain_module(p0, kk) implies kk == cnt by {
                    if kk > cnt {
                        lemma_plain_funcs_prefix(p0, k, kk, cnt + 1);
                        lemma_plain_funcs_next(p0, k, cnt, pf);
                    }
                }
            }
        }
        self.expect_rparen()?;
        Ok(module)
    }
}

/// A copy of a list of value types.
fn copy_valtypes(v: &Vec<ValType>) -> (r: Vec<ValType>)
    ensures
        r@ == v@,
{
    let mut out: Vec<ValType> = Vec::new();
    let mut i: usize = 0;
    while i < v.len()
        invariant
            i <= v@.len(),
            out@ == v@.take(i as int),
        decreases v@.len() - i,
    {
        out.push(v[i]);
        i = i + 1;
        assert(out@ =~= v@.take(i as int));
    }
    assert(v@.take(i as int) =~= v@);
    out
}

/// Locals of the given value types.
fn locals_of(types: &Vec<ValType>) -> (r: Vec<Local>)
    ensures
        r@.len() == types@.len(),
        forall|i: int| 0 <= i < types@.len() ==> #[trigger] r@[i] == (Local { ty: types@[i] }),
{
    let mut out: Vec<Local> = Vec::new();
    let mut i: usize = 0;
    while i < types.len()
        invariant
            i <= types@.len(),
            out@.len() == i,
            forall|j: int| 0 <= j < i ==> #[trigger] out@[j] == (Local { ty: types@[j] }),
        decreases types@.len() - i,
    {
        out.push(Local { ty: types[i] });
        i = i + 1;
    }
    out
}

/// Whether every function's locals can be counted in 32 bits.
pub open spec fn locals_fit(m: Module) -> bool {
    forall|k: int| 0 <= k < m.funcs@.len() ==> (#[trigger] m.funcs@[k]).locals@.len() <= u32::MAX
}

/// Whether every function's local types can be counted in 32 bits.
pub open spec fn plain_locals_fit(pf: PlainFuncs) -> bool {
    forall|i: int| 0 <= i < pf.funcs.len() ==> (#[trigger] pf.funcs[i]).1.len() <= u32::MAX
}

/// Assemble WAT source into a WebAssembly binary: parse the module, then
/// encode it. Float literals are turned into bits by `conv`.
pub fn assemble<'a, C: Fn(FloatLit<'a>) -> (u32, u64)>(src: &'a str, conv: &C) -> (r: Result<Vec<u8>, ParseError>)
    requires
        src.spec_bytes().len() <= isize::MAX,
        forall|l: FloatLit<'a>| call_requires(*conv, (l,)),
    ensures
        r is Ok ==> exists|m: Module| locals_fit(m) && r.unwrap()@ == #[trigger] module_bytes(m),
        token_at(src.spec_bytes(), 0).0 != Some(TokenView::LParen) ==> r == Err::<Vec<u8>, ParseError>(
            ParseError::ExpectedLParen,
        ),
        token_at(src.spec_bytes(), 0).0 == Some(TokenView::LParen) && !is_keyword(
            tok_from(src.spec_bytes(), 0, 1),
            "module".spec_bytes(),
        ) ==> r == Err::<Vec<u8>, ParseError>(ParseError::ExpectedKeyword),
        ({
            let b = src.spec_bytes();
            let k: nat = if tok_from(b, 0, 2) matches Some(TokenView::Identifier(_)) { 2 } else { 1 };
            token_at(b, 0).0 == Some(TokenView::LParen) && is_keyword(tok_from(b, 0, 1), "module".spec_bytes())
                && tok_from(b, 0, k + 1) != Some(TokenView::LParen) ==> if tok_from(b, 0, k + 1) == Some(
                TokenView::RParen,
            ) {
                r is Ok && exists|m: Module| empty_module(m) && r.unwrap()@ == #[trigger] module_bytes(m)
            } else {
                r == Err::<Vec<u8>, ParseError>(ParseError::ExpectedRParen)
            }
        }),
        forall|p: Parser, k: nat| fresh_at(p, src.spec_bytes()) && #[trigger] plain_module(p, k) ==> {
            let pf = plain_funcs(p, after_name_at(p, 1), k).unwrap();
            if plain_locals_fit(pf) {
                r is Ok && exists|m: Module| module_is(m, pf) && r.unwrap()@ == #[trigger] module_bytes(m)
            } else {
                r == Err::<Vec<u8>, ParseError>(ParseError::TooManyLocals)
            }
        },
{
    let mut parser = Parser::new(src);
    let ghost p0 = parser;
    proof {
        lemma_new_ahead(p0, src.spec_bytes());
    }
    proof {
        assert forall|p: Parser, k: nat| fresh_at(p, src.spec_bytes()) && #[trigger] plain_module(p, k) implies plain_module(
            p0,
            k,
        ) && plain_funcs(p, after_name_at(p, 1), k) == plain_funcs(p0, after_name_at(p0, 1), k) by {
            lemma_new_ahead(p, src.spec_bytes());
            assert(shifted(p, p0, 0));
            lemma_plain_module_same(p, p0, k);
        }
    }
    let module = parser.parse_module(conv)?;
    let ghost b = src.spec_bytes();
    let ghost hk: nat = if tok_from(b, 0, 2) matches Some(TokenView::Identifier(_)) { 2 } else { 1 };
    proof {
        assert(after_name_at(p0, 1) == hk + 1);
    }
    let mut k: usize = 0;
    while k < module.funcs.len()
        invariant
            k <= module.funcs@.len(),
            forall|j: int| 0 <= j < k ==> (#[trigger] module.funcs@[j]).locals@.len() <= u32::MAX,
            token_at(src.spec_bytes(), 0).0 == Some(TokenView::LParen),
            b == src.spec_bytes(),
            hk == (if tok_from(b, 0, 2) matches Some(TokenView::Identifier(_)) { 2nat } else { 1nat }),
            is_keyword(tok_from(b, 0, 1), "module".spec_bytes()),
            tok_from(b, 0, hk + 1) != Some(TokenView::LParen) ==> tok_from(b, 0, hk + 1) == Some(TokenView::RParen)
                && empty_module(module),
            forall|kk: nat| #[trigger] plain_module(p0, kk) ==> module_is(
                module,
                plain_funcs(p0, after_name_at(p0, 1), kk).unwrap(),
            ),
            forall|p: Parser, kk: nat| fresh_at(p, src.spec_bytes()) && #[trigger] plain_module(p, kk) ==> plain_module(
                p0,
                kk,
            ) && plain_funcs(p, after_name_at(p, 1), kk) == plain_funcs(p0, after_name_at(p0, 1), kk),
        decreases module.funcs@.len() - k,
    {
        if module.funcs[k].locals.len() > 0xFFFF_FFFF {
            proof {
                reveal(module_is);
                assert forall|kk: nat| #[trigger] plain_module(p0, kk) implies !plain_locals_fit(
                    plain_funcs(p0, after_name_at(p0, 1), kk).unwrap(),
                ) by {
                    let pf = plain_funcs(p0, after_name_at(p0, 1), kk).unwrap();
                    assert(func_is(module.funcs@[k as int], pf.funcs[k as int]));
                }
            }
            return Err(ParseError::TooManyLocals);
        }
        k = k + 1;
    }
    proof {
        reveal(module_is);
        assert forall|kk: nat| #[trigger] plain_module(p0, kk) implies plain_locals_fit(
            plain_funcs(p0, after_name_at(p0, 1), kk).unwrap(),
        ) by {
            let pf = plain_funcs(p0, after_name_at(p0, 1), kk).unwrap();
            assert forall|i: int| 0 <= i < pf.funcs.len() implies (#[trigger] pf.funcs[i]).1.len() <= u32::MAX by {
                assert(func_is(module.funcs@[i], pf.funcs[i]));
            }
        }
    }
    let mut emitter = WasmEmitter::new();
    emitter.emit_module(&module);
    let out = emitter.finish();
    assert(out@ == module_bytes(module));
    Ok(out)
}


/// A token that is not a value type ends a run of value types: some run
/// from `a` exists when the token `m` after `a` is not one.
proof fn lemma_run_exists(p: Parser, a: nat, m: nat)
    requires
        valtype_tok(ahead(p, a + m)) is None,
    ensures
        exists|n: nat| #[trigger] valtype_run(p, a, n),
    decreases m,
{
    if forall|i: nat| i < m ==> #[trigger] valtype_tok(ahead(p, a + i)) is Some {
        assert(valtype_run(p, a, m));
    } else {
        let i = choose|i: nat| i < m && valtype_tok(#[trigger] ahead(p, a + i)) is None;
        lemma_run_exists(p, a, i);
    }
}

/// The run of value types at `a + d` ahead of `p`, when there is one, is
/// the run at `a` ahead of `q`, `q` being `d` tokens further.
proof fn lemma_vrun_shift(p: Parser, q: Parser, d: nat, a: nat)
    requires
        shifted(q, p, d),
        exists|n: nat| #[trigger] valtype_run(p, a + d, n),
    ensures
        vrun_len(q, a) == vrun_len(p, a + d),
        valtype_run(p, a + d, vrun_len(p, a + d)),
        run_types(q, a, vrun_len(q, a)) == run_types(p, a + d, vrun_len(p, a + d)),
{
    lemma_shift_runs(p, q, d);
    lemma_valtype_run_unique(q);
    let n0 = vrun_len(p, a + d);
    assert(valtype_run(p, a + d, n0));
    assert(valtype_run(q, a, n0));
    assert(valtype_run(q, a, vrun_len(q, a)));
}

/// A field `d` tokens further on is the same field.
proof fn lemma_field_shift(p: Parser, q: Parser, d: nat, v: nat)
    requires
        shifted(q, p, d),
        plain_field(p, v + d) is Some,
    ensures
        plain_field(p, v + d).unwrap().next >= v + d,
        plain_field(q, v) == Some(FieldStep { next: (plain_field(p, v + d).unwrap().next - d) as nat, ..plain_field(p, v + d).unwrap() }),
{
    assert(ahead(q, v) == ahead(p, v + d));
    assert(ahead(q, v + 1) == ahead(p, (v + 1) + d));
    assert(ahead(q, v + 2) == ahead(p, (v + 2) + d));
    assert(ahead(q, v + 3) == ahead(p, (v + 3) + d));
    assert(ahead(q, v + 4) == ahead(p, (v + 4) + d));
    let k = ahead(p, v + d + 1);
    let m = vrun_len(p, v + d + 2);
    let ident = ahead(p, v + d + 2) matches Some(TokenView::Identifier(_));
    if is_keyword(k, "export".spec_bytes()) || is_keyword(k, "import".spec_bytes()) || is_keyword(k, "type".spec_bytes()) {
    } else if is_keyword(k, "param".spec_bytes()) || (!is_keyword(k, "result".spec_bytes()) && is_keyword(
        k,
        "local".spec_bytes(),
    )) {
        assert(group_types(p, v + d) is Some);
        if !ident {
            lemma_shift_run_at(p, q, d, v, m);
        }
    } else if is_keyword(k, "result".spec_bytes()) {
        lemma_shift_run_at(p, q, d, v, m);
    }
}

/// A run of value types closed by `)` at the third token of a field,
/// seen `d` tokens further on.
proof fn lemma_shift_run_at(p: Parser, q: Parser, d: nat, v: nat, m: nat)
    requires
        shifted(q, p, d),
        m == vrun_len(p, v + d + 2),
        ahead(p, v + d + 2 + m) == Some(TokenView::RParen),
    ensures
        vrun_len(q, v + 2) == m,
        ahead(q, v + 2 + m) == Some(TokenView::RParen),
        run_types(q, v + 2, m) == run_types(p, v + d + 2, m),
{
    lemma_run_exists(p, v + d + 2, m);
    let w = choose|w: nat| #[trigger] valtype_run(p, v + d + 2, w);
    let a: nat = v + 2;
    assert(a + d == v + d + 2);
    assert(valtype_run(p, a + d, w));
    lemma_vrun_shift(p, q, d, a);
    assert(ahead(q, v + 2 + m) == ahead(p, (v + 2 + m) + d));
}

/// The first `n` fields `d` tokens further on are the same fields.
proof fn lemma_fields_shift(p: Parser, q: Parser, d: nat, u: nat, n: nat)
    requires
        shifted(q, p, d),
        plain_fields(p, u + d, n) is Some,
    ensures
        plain_fields(p, u + d, n).unwrap().next >= u + d,
        plain_fields(q, u, n) == Some(FieldsView { next: (plain_fields(p, u + d, n).unwrap().next - d) as nat, ..plain_fields(p, u + d, n).unwrap() }),
    decreases n,
{
    if n > 0 {
        lemma_fields_shift(p, q, d, u, (n - 1) as nat);
        let fv = plain_fields(p, u + d, (n - 1) as nat).unwrap();
        let v = (fv.next - d) as nat;
        assert(v + d == fv.next);
        lemma_field_shift(p, q, d, v);
    }
}

/// Runs of instructions `d` tokens further on are the same runs.
proof fn lemma_flat_shift_at(p: Parser, q: Parser, d: nat, u: nat, n: nat)
    requires
        shifted(q, p, d),
    ensures
        flat_run(q, u, n) == match flat_run(p, u + d, n) {
            Some((x, is)) => Some(((x - d) as nat, is)),
            None => None::<(nat, Seq<Instr>)>,
        },
        flat_run(p, u + d, n) matches Some((x, _)) ==> x >= u + d,
    decreases n,
{
    if n > 0 {
        lemma_flat_shift_at(p, q, d, u, (n - 1) as nat);
        match flat_run(p, u + d, (n - 1) as nat) {
            Some((x, is)) => {
                let y = (x - d) as nat;
                assert(ahead(q, y) == ahead(p, y + d));
                assert(ahead(q, y + 1) == ahead(p, (y + 1) + d));
            },
            None => {},
        }
    }
}

/// A function definition whose `func` keyword is the `off`-th token ahead
/// of `p`, with `n` fields that `plain_field` takes and a body of `m`
/// `flat_instr` instructions, then its `)` or the end of the text.
pub open spec fn func_plain_at(p: Parser, off: nat, n: nat, m: nat) -> bool {
    &&& plain_fields(p, after_name_at(p, off), n) is Some
    &&& ahead(p, plain_fields(p, after_name_at(p, off), n).unwrap().next) != Some(TokenView::LParen)
    &&& flat_form(p, plain_fields(p, after_name_at(p, off), n).unwrap().next, m)
}

/// A function of that form seen from its `func` keyword.
proof fn lemma_func_at_shift(p: Parser, q: Parser, off: nat, n: nat, m: nat)
    requires
        shifted(q, p, off),
        func_plain_at(p, off, n, m),
    ensures
        func_plain_form(q, n, m),
        ({
            let fp = plain_fields(p, after_name_at(p, off), n).unwrap();
            let fq = plain_fields(q, after_name(q), n).unwrap();
            &&& fp.next >= off
            &&& fq == FieldsView { next: (fp.next - off) as nat, ..fp }
            &&& flat_run(q, fq.next, m).unwrap().0 + off == flat_run(p, fp.next, m).unwrap().0
            &&& flat_run(q, fq.next, m).unwrap().1 == flat_run(p, fp.next, m).unwrap().1
        }),
{
    assert(ahead(q, 1) == ahead(p, 1 + off));
    assert(after_name(q) + off == after_name_at(p, off));
    lemma_fields_shift(p, q, off, after_name(q), n);
    let fp = plain_fields(p, after_name_at(p, off), n).unwrap();
    let fq = plain_fields(q, after_name(q), n).unwrap();
    assert(fq.next + off == fp.next);
    lemma_flat_shift_at(p, q, off, fq.next, m);
    assert(ahead(q, fq.next) == ahead(p, fq.next + off));
    let x = flat_run(p, fp.next, m).unwrap().0;
    assert(ahead(q, (x - off) as nat) == ahead(p, ((x - off) as nat) + off));
}

/// The counts of fields and of body instructions of a plain function whose
/// `func` keyword is the `off`-th token ahead of `p`.
pub open spec fn func_shape(p: Parser, off: nat) -> (nat, nat) {
    choose|nm: (nat, nat)| func_plain_at(p, off, nm.0, nm.1)
}

/// What a run of plain function definitions builds: the position after the
/// last one's `)`, the signatures interned in order, the exports (name and
/// function index) and the functions (type index, local types, body).
pub struct PlainFuncs {
    pub next: nat,
    pub types: Seq<(Seq<ValType>, Seq<ValType>)>,
    pub exports: Seq<(Seq<u8>, u32)>,
    pub funcs: Seq<(u32, Seq<ValType>, Seq<Instr>)>,
}

/// The first `k` fields from the `start`-th token ahead of `p`, when each
/// is a `(func ...)` of the plain form (`func_plain_at`) closed by its `)`;
/// each interns its signature, exports its index under its export names,
/// and adds a function.
#[verifier::opaque]
pub open spec fn plain_funcs(p: Parser, start: nat, k: nat) -> Option<PlainFuncs>
    decreases k,
{
    if k == 0 {
        Some(PlainFuncs { next: start, types: Seq::empty(), exports: Seq::empty(), funcs: Seq::empty() })
    } else {
        match plain_funcs(p, start, (k - 1) as nat) {
            None => None,
            Some(pf) => {
                let off = pf.next + 1;
                let nm = func_shape(p, off);
                if ahead(p, pf.next) == Some(TokenView::LParen) && is_keyword(ahead(p, off), "func".spec_bytes())
                    && func_plain_at(p, off, nm.0, nm.1) {
                    let fv = plain_fields(p, after_name_at(p, off), nm.0).unwrap();
                    let run = flat_run(p, fv.next, nm.1).unwrap();
                    if ahead(p, run.0) == Some(TokenView::RParen) {
                        let fidx = pf.funcs.len() as u32;
                        Some(
                            PlainFuncs {
                                next: run.0 + 1,
                                types: view_types(pf.types, fv),
                                exports: pf.exports + fv.exports.map_values(|e: Seq<u8>| (e, fidx)),
                                funcs: pf.funcs.push((view_type_idx(pf.types, fv), fv.locals, run.1)),
                            },
                        )
                    } else {
                        None
                    }
                } else {
                    None
                }
            },
        }
    }
}

/// `(module $name? field*)` from the current token of `p`, its `k` fields
/// all plain function definitions (see `plain_funcs`).
pub open spec fn plain_module(p: Parser, k: nat) -> bool {
    &&& ahead(p, 0) == Some(TokenView::LParen)
    &&& is_keyword(ahead(p, 1), "module".spec_bytes())
    &&& plain_funcs(p, after_name_at(p, 1), k) is Some
    &&& ahead(p, plain_funcs(p, after_name_at(p, 1), k).unwrap().next) == Some(TokenView::RParen)
}

/// Function `f` is the one `t` describes.
pub open spec fn func_is(f: FuncDef, t: (u32, Seq<ValType>, Seq<Instr>)) -> bool {
    &&& f.type_idx == t.0
    &&& f.locals@.len() == t.1.len()
    &&& forall|k: int| 0 <= k < t.1.len() ==> #[trigger] f.locals@[k] == (Local { ty: t.1[k] })
    &&& f.body@ == t.2
}

/// Module `m` holds exactly what `pf` describes, and nothing else.
#[verifier::opaque]
pub open spec fn module_is(m: Module, pf: PlainFuncs) -> bool {
    &&& m.imports@.len() == 0
    &&& m.memories@.len() == 0
    &&& m.data@.len() == 0
    &&& types_view(m.types@) == pf.types
    &&& m.exports@.len() == pf.exports.len()
    &&& forall|i: int| 0 <= i < pf.exports.len() ==> (#[trigger] m.exports@[i]).name@ == pf.exports[i].0
        && m.exports@[i].kind == 0 && m.exports@[i].index == pf.exports[i].1
    &&& m.funcs@.len() == pf.funcs.len()
    &&& forall|i: int| 0 <= i < pf.funcs.len() ==> func_is(#[trigger] m.funcs@[i], pf.funcs[i])
}

/// A run of plain functions that goes on for `k` goes on for fewer.
proof fn lemma_plain_funcs_prefix(p: Parser, start: nat, k: nat, j: nat)
    requires
        plain_funcs(p, start, k) is Some,
        j <= k,
    ensures
        plain_funcs(p, start, j) is Some,
    decreases k,
{
    reveal(plain_funcs);
    if j < k {
        lemma_plain_funcs_prefix(p, start, (k - 1) as nat, j);
    }
}

/// A run of plain functions that goes on past `cnt` has a `(func` there.
proof fn lemma_plain_funcs_next(p: Parser, start: nat, cnt: nat, pf: PlainFuncs)
    requires
        plain_funcs(p, start, cnt) == Some(pf),
        plain_funcs(p, start, cnt + 1) is Some,
    ensures
        ahead(p, pf.next) == Some(TokenView::LParen),
        is_keyword(ahead(p, pf.next + 1), "func".spec_bytes()),
{
    reveal(plain_funcs);
}

/// No functions yet: nothing in the module.
proof fn lemma_plain_funcs_start(p: Parser, start: nat, m: Module)
    requires
        empty_module(m),
    ensures
        plain_funcs(p, start, 0) == Some(PlainFuncs { next: start, types: Seq::empty(), exports: Seq::empty(), funcs: Seq::empty() }),
        module_is(m, plain_funcs(p, start, 0).unwrap()),
{
    reveal(plain_funcs);
    reveal(module_is);
    assert(types_view(m.types@) =~= Seq::<(Seq<ValType>, Seq<ValType>)>::empty());
}

/// One more plain function parsed: what `parse_func_def` leaves (from
/// parser `q` at its `func` keyword to `fin`, module `m0` to `m1`) is what
/// `plain_funcs` gives for one function more.
proof fn lemma_plain_step(p0: Parser, k: nat, cnt: nat, pf: PlainFuncs, q: Parser, fin: Parser, m0: Module, m1: Module)
    requires
        plain_funcs(p0, k, cnt) == Some(pf),
        plain_funcs(p0, k, cnt + 1) is Some,
        module_is(m0, pf),
        shifted(q, p0, pf.next + 1),
        ({
            let nm = func_shape(p0, pf.next + 1);
            let fv = plain_fields(q, after_name(q), nm.0).unwrap();
            &&& m1.imports == m0.imports
            &&& m1.memories == m0.memories
            &&& m1.data == m0.data
            &&& exports_added(
                m0.exports@,
                m1.exports@,
                fv.exports,
                vstd::wrapping::u32_specs::wrapping_add(m0.imports@.len() as u32, m0.funcs@.len() as u32),
            )
            &&& types_view(m1.types@) == view_types(types_view(m0.types@), fv)
            &&& m1.funcs@.len() == m0.funcs@.len() + 1
            &&& m1.funcs@.take(m0.funcs@.len() as int) == m0.funcs@
            &&& m1.funcs@.last().type_idx == view_type_idx(types_view(m0.types@), fv)
            &&& m1.funcs@.last().locals@.len() == fv.locals.len()
            &&& forall|j: int| 0 <= j < fv.locals.len() ==> #[trigger] m1.funcs@.last().locals@[j] == (Local {
                ty: fv.locals[j],
            })
            &&& m1.funcs@.last().body@ == flat_run(q, fv.next, nm.1).unwrap().1
            &&& shifted(fin, q, flat_run(q, fv.next, nm.1).unwrap().0 + 1)
        }),
    ensures
        module_is(m1, plain_funcs(p0, k, cnt + 1).unwrap()),
        shifted(fin, p0, plain_funcs(p0, k, cnt + 1).unwrap().next),
{
    let off = pf.next + 1;
    let nm = func_shape(p0, off);
    let fq = plain_fields(q, after_name(q), nm.0).unwrap();
    let x = flat_run(q, fq.next, nm.1).unwrap().0;
    lemma_plain_next(p0, k, cnt, pf, q);
    lemma_shifted_trans(fin, q, p0, x + 1, off);
    assert(vstd::wrapping::u32_specs::wrapping_add(m0.imports@.len() as u32, m0.funcs@.len() as u32)
        == pf.funcs.len() as u32 && types_view(m0.types@) == pf.types) by {
        reveal(module_is);
    }
    lemma_module_grows(
        m0,
        m1,
        pf,
        x + 1 + off,
        view_types(pf.types, fq),
        view_type_idx(pf.types, fq),
        fq.exports,
        fq.locals,
        flat_run(q, fq.next, nm.1).unwrap().1,
    );
}

/// What one more plain function adds to a run of them, seen from the
/// parser `q` at its `func` keyword.
proof fn lemma_plain_next(p0: Parser, k: nat, cnt: nat, pf: PlainFuncs, q: Parser)
    requires
        plain_funcs(p0, k, cnt) == Some(pf),
        plain_funcs(p0, k, cnt + 1) is Some,
        shifted(q, p0, pf.next + 1),
    ensures
        ({
            let off = pf.next + 1;
            let nm = func_shape(p0, off);
            let fq = plain_fields(q, after_name(q), nm.0).unwrap();
            let run = flat_run(q, fq.next, nm.1).unwrap();
            let fidx = pf.funcs.len() as u32;
            &&& func_plain_form(q, nm.0, nm.1)
            &&& ahead(q, run.0) == Some(TokenView::RParen)
            &&& plain_funcs(p0, k, cnt + 1) == Some(
                PlainFuncs {
                    next: run.0 + 1 + off,
                    types: view_types(pf.types, fq),
                    exports: pf.exports + fq.exports.map_values(|e: Seq<u8>| (e, fidx)),
                    funcs: pf.funcs.push((view_type_idx(pf.types, fq), fq.locals, run.1)),
                },
            )
        }),
{
    reveal(plain_funcs);
    let off = pf.next + 1;
    let nm = func_shape(p0, off);
    assert(func_plain_at(p0, off, nm.0, nm.1));
    lemma_func_at_shift(p0, q, off, nm.0, nm.1);
    let fp = plain_fields(p0, after_name_at(p0, off), nm.0).unwrap();
    let fq = plain_fields(q, after_name(q), nm.0).unwrap();
    assert(view_types(pf.types, fq) == view_types(pf.types, fp));
    assert(view_type_idx(pf.types, fq) == view_type_idx(pf.types, fp));
    let x = flat_run(q, fq.next, nm.1).unwrap().0;
    assert(ahead(q, x) == ahead(p0, x + off));
}

/// A module that holds what `pf` describes, after a function of type index
/// `idx` (the type table now `types1`), export names `names`, local types
/// `locals` and body `body` is added, holds what `pf` with that function
/// describes.
proof fn lemma_module_grows(
    m0: Module,
    m1: Module,
    pf: PlainFuncs,
    next: nat,
    types1: Seq<(Seq<ValType>, Seq<ValType>)>,
    idx: u32,
    names: Seq<Seq<u8>>,
    locals: Seq<ValType>,
    body: Seq<Instr>,
)
    requires
        module_is(m0, pf),
        m1.imports == m0.imports,
        m1.memories == m0.memories,
        m1.data == m0.data,
        exports_added(m0.exports@, m1.exports@, names, pf.funcs.len() as u32),
        types_view(m1.types@) == types1,
        m1.funcs@.len() == m0.funcs@.len() + 1,
        m1.funcs@.take(m0.funcs@.len() as int) == m0.funcs@,
        m1.funcs@.last().type_idx == idx,
        m1.funcs@.last().locals@.len() == locals.len(),
        forall|j: int| 0 <= j < locals.len() ==> #[trigger] m1.funcs@.last().locals@[j] == (Local { ty: locals[j] }),
        m1.funcs@.last().body@ == body,
    ensures
        ({
            let fidx = pf.funcs.len() as u32;
            module_is(
                m1,
                PlainFuncs {
                    next,
                    types: types1,
                    exports: pf.exports + names.map_values(|e: Seq<u8>| (e, fidx)),
                    funcs: pf.funcs.push((idx, locals, body)),
                },
            )
        }),
{
    reveal(module_is);
    let fidx = pf.funcs.len() as u32;
    let npf = PlainFuncs {
        next,
        types: types1,
        exports: pf.exports + names.map_values(|e: Seq<u8>| (e, fidx)),
        funcs: pf.funcs.push((idx, locals, body)),
    };
    assert forall|e: int| 0 <= e < npf.exports.len() implies (#[trigger] m1.exports@[e]).name@ == npf.exports[e].0
        && m1.exports@[e].kind == 0 && m1.exports@[e].index == npf.exports[e].1 by {
        if e < pf.exports.len() {
            assert(m1.exports@.take(m0.exports@.len() as int)[e] == m0.exports@[e]);
        } else {
            let j = e - pf.exports.len();
            assert(m1.exports@[m0.exports@.len() + j] == m1.exports@[e]);
        }
    }
    assert forall|f: int| 0 <= f < npf.funcs.len() implies func_is(#[trigger] m1.funcs@[f], npf.funcs[f]) by {
        if f < pf.funcs.len() {
            assert(m1.funcs@.take(m0.funcs@.len() as int)[f] == m0.funcs@[f]);
            assert(func_is(m0.funcs@[f], pf.funcs[f]));
            assert(npf.funcs[f] == pf.funcs[f]);
        } else {
            assert(m1.funcs@[f] == m1.funcs@.last());
            assert(npf.funcs[f] == (idx, locals, body));
        }
    }
}

/// A plain function has one count of fields and of body instructions.
proof fn lemma_func_shape_unique(p: Parser, off: nat, n1: nat, m1: nat, n2: nat, m2: nat)
    requires
        func_plain_at(p, off, n1, m1),
        func_plain_at(p, off, n2, m2),
    ensures
        n1 == n2,
        m1 == m2,
{
    let u = after_name_at(p, off);
    if n1 < n2 {
        lemma_fields_prefix(p, u, n2, n1);
    } else if n2 < n1 {
        lemma_fields_prefix(p, u, n1, n2);
    }
    lemma_flat_unique(p, plain_fields(p, u, n1).unwrap().next);
}

/// Two parsers with the same tokens ahead see the same plain functions.
proof fn lemma_func_plain_same(p: Parser, p0: Parser, off: nat, n: nat, m: nat)
    requires
        shifted(p, p0, 0),
    ensures
        func_plain_at(p, off, n, m) == func_plain_at(p0, off, n, m),
        after_name_at(p, off) == after_name_at(p0, off),
        plain_fields(p0, after_name_at(p0, off), n) is Some ==> plain_fields(p, after_name_at(p, off), n)
            == plain_fields(p0, after_name_at(p0, off), n),
        forall|u: nat| #[trigger] flat_run(p, u, m) == flat_run(p0, u, m),
{
    assert(ahead(p, off + 1) == ahead(p0, (off + 1) + 0));
    let u = after_name_at(p0, off);
    assert(shifted(p0, p, 0)) by {
        assert forall|j: nat| #[trigger] ahead(p0, j) == ahead(p, j + 0) by {
            assert(ahead(p, j) == ahead(p0, j + 0));
        }
    }
    if plain_fields(p0, u, n) is Some {
        lemma_fields_shift(p0, p, 0, u, n);
    }
    if plain_fields(p, u, n) is Some {
        lemma_fields_shift(p, p0, 0, u, n);
    }
    assert forall|v: nat| #[trigger] flat_run(p, v, m) == flat_run(p0, v, m) by {
        lemma_flat_shift_at(p0, p, 0, v, m);
    }
    if plain_fields(p0, u, n) is Some {
        let x = plain_fields(p0, u, n).unwrap().next;
        assert(ahead(p, x) == ahead(p0, x + 0));
        if flat_run(p0, x, m) is Some {
            let y = flat_run(p0, x, m).unwrap().0;
            assert(ahead(p, y) == ahead(p0, y + 0));
        }
    }
}

/// Two parsers with the same tokens ahead see the same run of plain
/// functions.
proof fn lemma_plain_funcs_same(p: Parser, p0: Parser, start: nat, k: nat)
    requires
        shifted(p, p0, 0),
    ensures
        plain_funcs(p, start, k) == plain_funcs(p0, start, k),
    decreases k,
{
    reveal(plain_funcs);
    if k > 0 {
        lemma_plain_funcs_same(p, p0, start, (k - 1) as nat);
        match plain_funcs(p0, start, (k - 1) as nat) {
            None => {},
            Some(pf) => {
                let off = pf.next + 1;
                let a = func_shape(p, off);
                let b = func_shape(p0, off);
                assert(ahead(p, pf.next) == ahead(p0, pf.next + 0));
                assert(ahead(p, off) == ahead(p0, off + 0));
                lemma_func_plain_same(p, p0, off, a.0, a.1);
                lemma_func_plain_same(p, p0, off, b.0, b.1);
                if func_plain_at(p0, off, b.0, b.1) {
                    assert(func_plain_at(p, off, b.0, b.1));
                    assert(func_plain_at(p, off, a.0, a.1));
                    lemma_func_shape_unique(p, off, a.0, a.1, b.0, b.1);
                    let fv = plain_fields(p0, after_name_at(p0, off), b.0).unwrap();
                    let x = flat_run(p0, fv.next, b.1).unwrap().0;
                    assert(ahead(p, x) == ahead(p0, x + 0));
                } else if func_plain_at(p, off, a.0, a.1) {
                    assert(func_plain_at(p0, off, a.0, a.1));
                }
            },
        }
    }
}

/// Two parsers with the same tokens ahead see the same plain module.
proof fn lemma_plain_module_same(p: Parser, p0: Parser, k: nat)
    requires
        shifted(p, p0, 0),
    ensures
        plain_module(p, k) == plain_module(p0, k),
        after_name_at(p, 1) == after_name_at(p0, 1),
        plain_funcs(p, after_name_at(p, 1), k) == plain_funcs(p0, after_name_at(p0, 1), k),
{
    assert(ahead(p, 0) == ahead(p0, 0 + 0));
    assert(ahead(p, 1) == ahead(p0, 1 + 0));
    assert(ahead(p, 2) == ahead(p0, 2 + 0));
    lemma_plain_funcs_same(p, p0, after_name_at(p0, 1), k);
    if plain_funcs(p0, after_name_at(p0, 1), k) is Some {
        let x = plain_funcs(p0, after_name_at(p0, 1), k).unwrap().next;
        assert(ahead(p, x) == ahead(p0, x + 0));
    }
}


/// The text name of an instruction without operands, as the WebAssembly
/// text format writes it (empty for the others).
pub open spec fn instr_name(i: Instr) -> Seq<u8> {
    match i {
        Instr::Unreachable => "unreachable".spec_bytes(),
        Instr::Nop => "nop".spec_bytes(),
        Instr::Return => "return".spec_bytes(),
        Instr::Drop => "drop".spec_bytes(),
        Instr::Select => "select".spec_bytes(),
        Instr::Else => "else".spec_bytes(),
        Instr::End => "end".spec_bytes(),
        Instr::I32Add => "i32.add".spec_bytes(),
        Instr::I32Sub => "i32.sub".spec_bytes(),
        Instr::I32Mul => "i32.mul".spec_bytes(),
        Instr::I32DivS => "i32.div_s".spec_bytes(),
        Instr::I32DivU => "i32.div_u".spec_bytes(),
        Instr::I32RemS => "i32.rem_s".spec_bytes(),
        Instr::I32RemU => "i32.rem_u".spec_bytes(),
        Instr::I32And => "i32.and".spec_bytes(),
        Instr::I32Or => "i32.or".spec_bytes(),
        Instr::I32Xor => "i32.xor".spec_bytes(),
        Instr::I32Shl => "i32.shl".spec_bytes(),
        Instr::I32ShrS => "i32.shr_s".spec_bytes(),
        Instr::I32ShrU => "i32.shr_u".spec_bytes(),
        Instr::I32Eqz => "i32.eqz".spec_bytes(),
        Instr::I32Eq => "i32.eq".spec_bytes(),
        Instr::I32Ne => "i32.ne".spec_bytes(),
        Instr::I32LtS => "i32.lt_s".spec_bytes(),
        Instr::I32LtU => "i32.lt_u".spec_bytes(),
        Instr::I32GtS => "i32.gt_s".spec_bytes(),
        Instr::I32GtU => "i32.gt_u".spec_bytes(),
        Instr::I32LeS => "i32.le_s".spec_bytes(),
        Instr::I32LeU => "i32.le_u".spec_bytes(),
        Instr::I32GeS => "i32.ge_s".spec_bytes(),
        Instr::I32GeU => "i32.ge_u".spec_bytes(),
        Instr::I64Add => "i64.add".spec_bytes(),
        Instr::I64Sub => "i64.sub".spec_bytes(),
        Instr::I64Mul => "i64.mul".spec_bytes(),
        Instr::I64And => "i64.and".spec_bytes(),
        Instr::I64Or => "i64.or".spec_bytes(),
        Instr::I64Xor => "i64.xor".spec_bytes(),
        Instr::I64Eqz => "i64.eqz".spec_bytes(),
        Instr::I64Eq => "i64.eq".spec_bytes(),
        Instr::I64Ne => "i64.ne".spec_bytes(),
        Instr::F32Add => "f32.add".spec_bytes(),
        Instr::F32Sub => "f32.sub".spec_bytes(),
        Instr::F32Mul => "f32.mul".spec_bytes(),
        Instr::F32Div => "f32.div".spec_bytes(),
        Instr::F64Add => "f64.add".spec_bytes(),
        Instr::F64Sub => "f64.sub".spec_bytes(),
        Instr::F64Mul => "f64.mul".spec_bytes(),
        Instr::F64Div => "f64.div".spec_bytes(),
        _ => Seq::empty(),
    }
}

/// Each keyword the assembler reads as an instruction without operands is
/// that instruction's name, so distinct keywords give distinct
/// instructions.
pub proof fn lemma_keyword_names(k1: Seq<u8>, k2: Seq<u8>)
    ensures
        kw_simple(k1) is Some ==> k1 == instr_name(kw_simple(k1).unwrap()),
        kw_simple(k1) is Some && kw_simple(k1) == kw_simple(k2) ==> k1 == k2,
{
    reveal(kw_simple);
}
} // verus!

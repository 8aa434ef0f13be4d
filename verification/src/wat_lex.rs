//! Lexing of WAT source text: tokens, integer literals and string escapes.
//!
//! Bytes are classified as the characters with the same code points
//! (Latin-1), the way the assembler reads its input byte by byte.
use vstd::prelude::*;
use vstd::string::StringSliceAdditionalSpecFns;

verus! {

/// `char::is_whitespace` of the character with code point `b`.
pub open spec fn is_ws(b: u8) -> bool {
    (9 <= b <= 13) || b == 32 || b == 0x85 || b == 0xA0
}

/// `char::is_ascii_digit`.
pub open spec fn is_digit(b: u8) -> bool {
    48 <= b <= 57
}

/// `char::is_alphanumeric` of the character with code point `b`: ASCII
/// letters and digits, the Latin-1 letters, and the superscript digits and
/// vulgar fractions.
pub open spec fn is_alnum(b: u8) -> bool {
    ||| is_digit(b)
    ||| 65 <= b <= 90
    ||| 97 <= b <= 122
    ||| b == 0xAA || b == 0xB2 || b == 0xB3 || b == 0xB5 || b == 0xB9 || b == 0xBA
    ||| 0xBC <= b <= 0xBE
    ||| 0xC0 <= b <= 0xD6
    ||| 0xD8 <= b <= 0xF6
    ||| 0xF8 <= b
}

/// Characters that continue an identifier after its `$`.
pub open spec fn is_ident_char(b: u8) -> bool {
    is_alnum(b) || b == 0x5F || b == 0x2D || b == 0x2E
}

/// Characters that end a keyword.
pub open spec fn ends_keyword(b: u8) -> bool {
    is_ws(b) || b == 0x28 || b == 0x29
}

/// Position after skipping whitespace and `;;` line comments from `p`.
pub open spec fn skip_ws(s: Seq<u8>, p: int) -> int
    decreases s.len() - p, 0int,
{
    if p < 0 || p >= s.len() {
        p
    } else if is_ws(s[p]) {
        skip_ws(s, p + 1)
    } else if s[p] == 0x3B && p + 1 < s.len() && s[p + 1] == 0x3B {
        skip_comment(s, p + 2)
    } else {
        p
    }
}

/// Inside a line comment at `p`: skip to the newline, then on.
pub open spec fn skip_comment(s: Seq<u8>, p: int) -> int
    decreases s.len() - p, 1int,
{
    if p < 0 || p >= s.len() {
        p
    } else if s[p] == 0x0A {
        skip_ws(s, p)
    } else {
        skip_comment(s, p + 1)
    }
}

/// `skip_ws` moves forward, stays within the text, and stops on a byte
/// that is not whitespace.
pub proof fn lemma_skip_ws_stops(s: Seq<u8>, p: int)
    requires
        0 <= p <= s.len(),
    ensures
        p <= skip_ws(s, p) <= s.len(),
        skip_ws(s, p) < s.len() ==> !is_ws(s[skip_ws(s, p)]),
    decreases s.len() - p, 0int,
{
    if p < s.len() {
        if is_ws(s[p]) {
            lemma_skip_ws_stops(s, p + 1);
        } else if s[p] == 0x3B && p + 1 < s.len() && s[p + 1] == 0x3B {
            lemma_skip_comment_stops(s, p + 2);
        }
    }
}

/// `skip_comment` moves forward, stays within the text, and stops on a
/// byte that is not whitespace.
pub proof fn lemma_skip_comment_stops(s: Seq<u8>, p: int)
    requires
        0 <= p <= s.len(),
    ensures
        p <= skip_comment(s, p) <= s.len(),
        skip_comment(s, p) < s.len() ==> !is_ws(s[skip_comment(s, p)]),
    decreases s.len() - p, 1int,
{
    if p < s.len() {
        if s[p] == 0x0A {
            lemma_skip_ws_stops(s, p);
        } else {
            lemma_skip_comment_stops(s, p + 1);
        }
    }
}

/// End of the identifier characters from `p`.
pub open spec fn scan_ident(s: Seq<u8>, p: int) -> int
    decreases s.len() - p,
{
    if p < 0 || p >= s.len() || !is_ident_char(s[p]) { p } else { scan_ident(s, p + 1) }
}

/// Position of the first `"` from `p` (or the end).
pub open spec fn scan_string(s: Seq<u8>, p: int) -> int
    decreases s.len() - p,
{
    if p < 0 || p >= s.len() || s[p] == 0x22 { p } else { scan_string(s, p + 1) }
}

/// End of the digits and dots from `p`.
pub open spec fn scan_number(s: Seq<u8>, p: int) -> int
    decreases s.len() - p,
{
    if p < 0 || p >= s.len() || !(is_digit(s[p]) || s[p] == 0x2E) { p } else { scan_number(s, p + 1) }
}

/// End of a keyword starting at `p`.
pub open spec fn scan_keyword(s: Seq<u8>, p: int) -> int
    decreases s.len() - p,
{
    if p < 0 || p >= s.len() || ends_keyword(s[p]) { p } else { scan_keyword(s, p + 1) }
}

/// The value of the decimal digits of `s`, other characters ignored;
/// digits accumulate modulo 2^32.
pub open spec fn digits_value(s: Seq<u8>) -> i32
    decreases s.len(),
{
    if s.len() == 0 {
        0
    } else {
        let v = digits_value(s.drop_last());
        if is_digit(s.last()) {
            vstd::wrapping::i32_specs::wrapping_add(vstd::wrapping::i32_specs::wrapping_mul(v, 10),
                (s.last() - 48) as i32)
        } else {
            v
        }
    }
}

/// An integer literal: an optional leading `-`, then `digits_value`.
pub open spec fn int_value(s: Seq<u8>) -> i32 {
    if s.len() > 0 && s[0] == 0x2D {
        vstd::wrapping::i32_specs::wrapping_sub(0, digits_value(s.skip(1)))
    } else {
        digits_value(s)
    }
}

/// Parse a decimal integer literal (see `int_value`).
pub fn parse_i32(s: &[u8]) -> (r: i32)
    ensures
        r == int_value(s@),
{
    let mut i: usize = 0;
    let neg = s.len() > 0 && s[0] == 0x2D;
    if neg {
        i = 1;
    }
    let ghost body = s@.skip(i as int);
    let mut res: i32 = 0;
    let start = i;
    assert(s@.subrange(start as int, start as int) =~= Seq::<u8>::empty());
    while i < s.len()
        invariant
            start <= i <= s@.len(),
            res == digits_value(s@.subrange(start as int, i as int)),
        decreases s.len() - i,
    {
        let c = s[i];
        assert(s@.subrange(start as int, i + 1).drop_last() =~= s@.subrange(start as int, i as int));
        if 48 <= c && c <= 57 {
            res = res.wrapping_mul(10).wrapping_add((c - 48) as i32);
        }
        i = i + 1;
    }
    assert(s@.subrange(start as int, s@.len() as int) =~= s@.skip(start as int));
    if neg {
        assert(s@.skip(1) =~= s@.skip(start as int));
        0i32.wrapping_sub(res)
    } else {
        assert(s@.skip(0) =~= s@);
        res
    }
}

/// Whether `s` holds a `.`.
pub open spec fn has_dot(s: Seq<u8>) -> bool {
    exists|i: int| 0 <= i < s.len() && s[i] == 0x2E
}

/// A token, its text as bytes.
pub enum TokenView {
    LParen,
    RParen,
    Keyword(Seq<u8>),
    Identifier(Seq<u8>),
    Int(i32),
    Float(Seq<u8>),
    StringLiteral(Seq<u8>),
}

/// The token that starts at `pos` (after whitespace and comments), and
/// the position after it: parentheses; `$` identifiers (with the `$`);
/// string literals (the bytes between the quotes, the closing quote
/// skipped when present); numbers, an optional `-` then digits and dots,
/// floats when a dot occurs (their text kept); anything else a keyword up
/// to whitespace or a parenthesis. `None` at the end of the text.
pub open spec fn token_at(s: Seq<u8>, pos: int) -> (Option<TokenView>, int) {
    let p = skip_ws(s, pos);
    if p < 0 || p >= s.len() {
        (None, p)
    } else {
        let c = s[p];
        if c == 0x28 {
            (Some(TokenView::LParen), p + 1)
        } else if c == 0x29 {
            (Some(TokenView::RParen), p + 1)
        } else if c == 0x24 {
            let e = scan_ident(s, p + 1);
            (Some(TokenView::Identifier(s.subrange(p, e))), e)
        } else if c == 0x22 {
            let e = scan_string(s, p + 1);
            (Some(TokenView::StringLiteral(s.subrange(p + 1, e))), if e < s.len() { e + 1 } else { e })
        } else if is_digit(c) || c == 0x2D {
            let q = if c == 0x2D { p + 1 } else { p };
            let e = scan_number(s, q);
            if has_dot(s.subrange(q, e)) {
                (Some(TokenView::Float(s.subrange(p, e))), e)
            } else {
                (Some(TokenView::Int(int_value(s.subrange(p, e)))), e)
            }
        } else {
            let e = scan_keyword(s, p);
            (Some(TokenView::Keyword(s.subrange(p, e))), e)
        }
    }
}

/// A WAT token; text tokens borrow from the source.
#[derive(Clone, Copy)]
pub enum Token<'a> {
    LParen,
    RParen,
    Keyword(&'a [u8]),
    Identifier(&'a [u8]),
    Int(i32),
    Float(&'a [u8]),
    StringLiteral(&'a [u8]),
}

/// The view of a token.
pub open spec fn token_view(t: Token) -> TokenView {
    match t {
        Token::LParen => TokenView::LParen,
        Token::RParen => TokenView::RParen,
        Token::Keyword(k) => TokenView::Keyword(k@),
        Token::Identifier(k) => TokenView::Identifier(k@),
        Token::Int(n) => TokenView::Int(n),
        Token::Float(k) => TokenView::Float(k@),
        Token::StringLiteral(k) => TokenView::StringLiteral(k@),
    }
}

/// The view of an optional token.
pub open spec fn opt_token_view(t: Option<Token>) -> Option<TokenView> {
    match t {
        Some(x) => Some(token_view(x)),
        None => None,
    }
}

/// A cursor over WAT source text.
pub struct Tokenizer<'a> {
    pub src: &'a [u8],
    pub pos: usize,
}

fn is_ws_byte(b: u8) -> (r: bool)
    ensures
        r == is_ws(b),
{
    (9 <= b && b <= 13) || b == 32 || b == 0x85 || b == 0xA0
}

fn is_ident_byte(b: u8) -> (r: bool)
    ensures
        r == is_ident_char(b),
{
    (48 <= b && b <= 57) || (65 <= b && b <= 90) || (97 <= b && b <= 122) || b == 0xAA || b == 0xB2
        || b == 0xB3 || b == 0xB5 || b == 0xB9 || b == 0xBA || (0xBC <= b && b <= 0xBE) || (0xC0 <= b
        && b <= 0xD6) || (0xD8 <= b && b <= 0xF6) || 0xF8 <= b || b == 0x5F || b == 0x2D || b == 0x2E
}

impl<'a> Tokenizer<'a> {
    /// A tokenizer at the start of `src`.
    pub fn new(src: &'a str) -> (t: Self)
        ensures
            t.src@ == src.spec_bytes(),
            t.pos == 0,
    {
        Tokenizer { src: src.as_bytes(), pos: 0 }
    }
}


impl<'a> Tokenizer<'a> {
    fn skip_whitespace_and_comments(&mut self)
        requires
            old(self).pos <= old(self).src@.len(),
        ensures
            final(self).src == old(self).src,
            final(self).pos == skip_ws(old(self).src@, old(self).pos as int),
            final(self).pos <= final(self).src@.len(),
            final(self).pos >= old(self).pos,
    {
        let ghost target = skip_ws(self.src@, self.pos as int);
        while self.pos < self.src.len()
            invariant
                self.src == old(self).src,
                self.pos <= self.src@.len(),
                self.pos >= old(self).pos,
                skip_ws(self.src@, self.pos as int) == target,
            ensures
                self.src == old(self).src,
                self.pos == target,
                self.pos <= self.src@.len(),
                self.pos >= old(self).pos,
            decreases self.src@.len() - self.pos,
        {
            let c = self.src[self.pos];
            if is_ws_byte(c) {
                self.pos = self.pos + 1;
            } else if c == 0x3B && self.src.len() - self.pos >= 2 && self.src[self.pos + 1] == 0x3B {
                let ghost p0 = self.pos;
                self.pos = self.pos + 2;
                while self.pos < self.src.len() && self.src[self.pos] != 0x0A
                    invariant
                        self.pos >= p0 + 2,
                        p0 >= old(self).pos,
                        self.src == old(self).src,
                        self.pos <= self.src@.len(),
                        skip_comment(self.src@, self.pos as int) == target,
                    decreases self.src@.len() - self.pos,
                {
                    self.pos = self.pos + 1;
                }
            } else {
                break;
            }
        }
    }

    /// Read a `$` identifier starting at the cursor.
    fn read_identifier(&mut self) -> (t: Token<'a>)
        requires
            old(self).pos < old(self).src.len(),
        ensures
            final(self).src == old(self).src,
            final(self).pos <= final(self).src@.len(),
            final(self).pos == scan_ident(old(self).src@, old(self).pos + 1),
            final(self).pos > old(self).pos,
            token_view(t) == TokenView::Identifier(old(self).src@.subrange(old(self).pos as int, final(self).pos as int)),
    {
        let start = self.pos;
        self.pos = self.pos + 1;
        while self.pos < self.src.len() && is_ident_byte(self.src[self.pos])
            invariant
                self.src == old(self).src,
                start < self.pos <= self.src@.len(),
                scan_ident(self.src@, self.pos as int) == scan_ident(self.src@, start + 1),
            decreases self.src@.len() - self.pos,
        {
            self.pos = self.pos + 1;
        }
        Token::Identifier(vstd::slice::slice_subrange(self.src, start, self.pos))
    }

    /// Read a string literal whose opening quote is at the cursor.
    fn read_string(&mut self) -> (t: Token<'a>)
        requires
            old(self).pos < old(self).src.len(),
        ensures
            final(self).src == old(self).src,
            final(self).pos <= final(self).src@.len(),
            ({
                let e = scan_string(old(self).src@, old(self).pos + 1);
                &&& token_view(t) == TokenView::StringLiteral(old(self).src@.subrange(old(self).pos + 1, e))
                &&& final(self).pos == if e < old(self).src@.len() { e + 1 } else { e }
            }),
            final(self).pos > old(self).pos,
    {
        self.pos = self.pos + 1;
        let start = self.pos;
        while self.pos < self.src.len() && self.src[self.pos] != 0x22
            invariant
                self.src == old(self).src,
                start <= self.pos <= self.src@.len(),
                start == old(self).pos + 1,
                scan_string(self.src@, self.pos as int) == scan_string(self.src@, start as int),
            decreases self.src@.len() - self.pos,
        {
            self.pos = self.pos + 1;
        }
        let text = vstd::slice::slice_subrange(self.src, start, self.pos);
        if self.pos < self.src.len() {
            self.pos = self.pos + 1;
        }
        Token::StringLiteral(text)
    }

    /// Read a number (an optional `-`, then digits and dots).
    fn read_number(&mut self) -> (t: Token<'a>)
        requires
            old(self).pos < old(self).src.len(),
            is_digit(old(self).src@[old(self).pos as int]) || old(self).src@[old(self).pos as int] == 0x2D,
        ensures
            final(self).src == old(self).src,
            final(self).pos <= final(self).src@.len(),
            final(self).pos > old(self).pos,
            ({
                let s = old(self).src@;
                let p = old(self).pos as int;
                let q = if s[p] == 0x2D { p + 1 } else { p };
                let e = scan_number(s, q);
                &&& final(self).pos == e
                &&& token_view(t) == if has_dot(s.subrange(q, e)) {
                    TokenView::Float(s.subrange(p, e))
                } else {
                    TokenView::Int(int_value(s.subrange(p, e)))
                }
            }),
    {
        let start = self.pos;
        let mut is_float = false;
        if self.src[self.pos] == 0x2D {
            self.pos = self.pos + 1;
        }
        let q = self.pos;
        while self.pos < self.src.len() && ((48 <= self.src[self.pos] && self.src[self.pos] <= 57)
            || self.src[self.pos] == 0x2E)
            invariant
                self.src == old(self).src,
                start <= q <= self.pos <= self.src@.len(),
                q == if self.src@[start as int] == 0x2D { start + 1 } else { start as int },
                start == old(self).pos,
                scan_number(self.src@, self.pos as int) == scan_number(self.src@, q as int),
                is_float == has_dot(self.src@.subrange(q as int, self.pos as int)),
            decreases self.src@.len() - self.pos,
        {
            let ghost before = self.src@.subrange(q as int, self.pos as int);
            if self.src[self.pos] == 0x2E {
                is_float = true;
            }
            self.pos = self.pos + 1;
            proof {
                let after = self.src@.subrange(q as int, self.pos as int);
                assert(after =~= before.push(self.src@[self.pos - 1]));
                if has_dot(before) {
                    let i = choose|i: int| 0 <= i < before.len() && before[i] == 0x2E;
                    assert(after[i] == 0x2E);
                }
                if self.src@[self.pos - 1] == 0x2E {
                    assert(after[after.len() - 1] == 0x2E);
                }
                if has_dot(after) {
                    let i = choose|i: int| 0 <= i < after.len() && after[i] == 0x2E;
                    if i < before.len() {
                        assert(before[i] == 0x2E);
                    }
                }
            }
        }
        let text = vstd::slice::slice_subrange(self.src, start, self.pos);
        if is_float {
            Token::Float(text)
        } else {
            Token::Int(parse_i32(text))
        }
    }

    /// Read a keyword: everything up to whitespace or a parenthesis.
    fn read_keyword(&mut self) -> (t: Token<'a>)
        requires
            old(self).pos < old(self).src@.len(),
            !ends_keyword(old(self).src@[old(self).pos as int]),
        ensures
            final(self).src == old(self).src,
            final(self).pos <= final(self).src@.len(),
            final(self).pos > old(self).pos,
            final(self).pos == scan_keyword(old(self).src@, old(self).pos as int),
            token_view(t) == TokenView::Keyword(old(self).src@.subrange(old(self).pos as int, final(self).pos as int)),
    {
        let start = self.pos;
        while self.pos < self.src.len() && !(is_ws_byte(self.src[self.pos]) || self.src[self.pos] == 0x28
            || self.src[self.pos] == 0x29)
            invariant
                self.src == old(self).src,
                start <= self.pos <= self.src@.len(),
                start == old(self).pos,
                scan_keyword(self.src@, self.pos as int) == scan_keyword(self.src@, start as int),
            decreases self.src@.len() - self.pos,
        {
            self.pos = self.pos + 1;
        }
        Token::Keyword(vstd::slice::slice_subrange(self.src, start, self.pos))
    }

    /// The next token, or `None` at the end of the text (see `token_at`).
    pub fn next_token(&mut self) -> (r: Option<Token<'a>>)
        requires
            old(self).pos <= old(self).src@.len(),
        ensures
            final(self).src == old(self).src,
            final(self).pos <= final(self).src@.len(),
            (opt_token_view(r), final(self).pos as int) == token_at(old(self).src@, old(self).pos as int),
            r.is_some() ==> final(self).pos > old(self).pos,
            r.is_none() ==> final(self).pos == final(self).src@.len(),
    {
        proof {
            lemma_skip_ws_stops(self.src@, self.pos as int);
        }
        self.skip_whitespace_and_comments();
        if self.pos >= self.src.len() {
            return None;
        }
        let c = self.src[self.pos];
        if c == 0x28 {
            self.pos = self.pos + 1;
            Some(Token::LParen)
        } else if c == 0x29 {
            self.pos = self.pos + 1;
            Some(Token::RParen)
        } else if c == 0x24 {
            Some(self.read_identifier())
        } else if c == 0x22 {
            Some(self.read_string())
        } else if (48 <= c && c <= 57) || c == 0x2D {
            Some(self.read_number())
        } else {
            Some(self.read_keyword())
        }
    }
}


/// `u8::is_ascii_hexdigit`.
pub open spec fn is_hex(b: u8) -> bool {
    is_digit(b) || (97 <= b <= 102) || (65 <= b <= 70)
}

/// The value of a hexadecimal digit (0 for any other byte).
pub open spec fn hex_val(b: u8) -> u8 {
    if is_digit(b) {
        (b - 48) as u8
    } else if 97 <= b <= 102 {
        (b - 87) as u8
    } else if 65 <= b <= 70 {
        (b - 55) as u8
    } else {
        0
    }
}

/// The value of a hexadecimal digit (0 for any other byte).
fn hex_digit(b: u8) -> (r: u8)
    ensures
        r == hex_val(b),
        r < 16,
{
    if 48 <= b && b <= 57 {
        b - 48
    } else if 97 <= b && b <= 102 {
        b - 87
    } else if 65 <= b && b <= 70 {
        b - 55
    } else {
        0
    }
}

/// The bytes a WAT string literal denotes, from offset `i` on: `\n`,
/// `\t`, `\r`, `\"`, `\\` and `\0` stand for their characters, a
/// backslash and two hex digits for that byte; any other backslash is kept
/// as it is.
pub open spec fn unescape_from(s: Seq<u8>, i: int) -> Seq<u8>
    decreases s.len() - i,
{
    if i < 0 || i >= s.len() {
        Seq::empty()
    } else if s[i] == 0x5C && i + 1 < s.len() {
        let c = s[i + 1];
        if c == 0x6E {
            seq![0x0Au8] + unescape_from(s, i + 2)
        } else if c == 0x74 {
            seq![0x09u8] + unescape_from(s, i + 2)
        } else if c == 0x72 {
            seq![0x0Du8] + unescape_from(s, i + 2)
        } else if c == 0x22 {
            seq![0x22u8] + unescape_from(s, i + 2)
        } else if c == 0x5C {
            seq![0x5Cu8] + unescape_from(s, i + 2)
        } else if c == 0x30 {
            seq![0u8] + unescape_from(s, i + 2)
        } else if is_hex(c) && i + 2 < s.len() && is_hex(s[i + 2]) {
            seq![(hex_val(c) * 16 + hex_val(s[i + 2])) as u8] + unescape_from(s, i + 3)
        } else {
            seq![s[i]] + unescape_from(s, i + 1)
        }
    } else {
        seq![s[i]] + unescape_from(s, i + 1)
    }
}

/// Decode the escapes of a string literal's text (see `unescape_from`).
pub fn unescape_wat_string(s: &[u8]) -> (out: Vec<u8>)
    ensures
        out@ == unescape_from(s@, 0),
{
    let mut out: Vec<u8> = Vec::new();
    let mut i: usize = 0;
    while i < s.len()
        invariant
            i <= s@.len(),
            unescape_from(s@, 0) == out@ + unescape_from(s@, i as int),
        decreases s@.len() - i,
    {
        let ghost o = out@;
        let ghost rest = unescape_from(s@, i as int);
        let step: usize;
        if s[i] == 0x5C && s.len() - i >= 2 {
            let c = s[i + 1];
            if c == 0x6E {
                out.push(0x0A);
                step = 2;
            } else if c == 0x74 {
                out.push(0x09);
                step = 2;
            } else if c == 0x72 {
                out.push(0x0D);
                step = 2;
            } else if c == 0x22 {
                out.push(0x22);
                step = 2;
            } else if c == 0x5C {
                out.push(0x5C);
                step = 2;
            } else if c == 0x30 {
                out.push(0);
                step = 2;
            } else if ((48 <= c && c <= 57) || (97 <= c && c <= 102) || (65 <= c && c <= 70)) && s.len()
                - i >= 3 && ((48 <= s[i + 2] && s[i + 2] <= 57) || (97 <= s[i + 2] && s[i + 2] <= 102)
                || (65 <= s[i + 2] && s[i + 2] <= 70)) {
                let hi = hex_digit(c);
                let lo = hex_digit(s[i + 2]);
                out.push(hi * 16 + lo);
                step = 3;
            } else {
                out.push(s[i]);
                step = 1;
            }
        } else {
            out.push(s[i]);
            step = 1;
        }
        proof {
            assert(rest == seq![out@.last()] + unescape_from(s@, i + step));
            assert(out@ =~= o.push(out@.last()));
            assert(o + rest =~= out@ + unescape_from(s@, i + step));
        }
        i = i + step;
    }
    assert(out@ + unescape_from(s@, i as int) =~= out@);
    out
}

} // verus!

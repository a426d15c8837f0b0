//! The lexer: UTF-8 source text to tokens, each with its source span.
use vstd::prelude::*;
use vstd::utf8::encode_utf8;
use crate::error::{ParseError, ParseErrorKind, Span};

verus! {

/// Relies on `String::push`: the character is appended at the end.
pub assume_specification[ std::string::String::push ](s: &mut std::string::String, ch: char)
    ensures
        final(s)@ == old(s)@.push(ch),
;

/// Relies on `core::char::from_u32`: it accepts exactly the Unicode
/// scalar values, and gives the character with that number.
pub assume_specification[ core::char::from_u32 ](i: u32) -> (r: Option<char>)
    ensures
        r is Some <==> (i < 0xD800 || (0xE000 <= i && i <= 0x10FFFF)),
        r matches Some(c) ==> c == i as char,
;

/// A token of textual source.
#[derive(Debug, PartialEq, Eq)]
pub enum Token {
    Null,
    True,
    False,
    Int(i64),
    String(String),
    Bytes(Vec<u8>),
    Ident(String),
    LBrace,
    RBrace,
    LBracket,
    RBracket,
    Colon,
    Comma,
    Eof,
}

/// The mathematical form of a token.
pub enum TokenModel {
    Null,
    True,
    False,
    Int(i64),
    Str(Seq<char>),
    Bytes(Seq<u8>),
    Ident(Seq<char>),
    LBrace,
    RBrace,
    LBracket,
    RBracket,
    Colon,
    Comma,
    Eof,
}

impl View for Token {
    type V = TokenModel;

    open spec fn view(&self) -> TokenModel {
        match self {
            Token::Null => TokenModel::Null,
            Token::True => TokenModel::True,
            Token::False => TokenModel::False,
            Token::Int(i) => TokenModel::Int(*i),
            Token::String(s) => TokenModel::Str(s@),
            Token::Bytes(b) => TokenModel::Bytes(b@),
            Token::Ident(s) => TokenModel::Ident(s@),
            Token::LBrace => TokenModel::LBrace,
            Token::RBrace => TokenModel::RBrace,
            Token::LBracket => TokenModel::LBracket,
            Token::RBracket => TokenModel::RBracket,
            Token::Colon => TokenModel::Colon,
            Token::Comma => TokenModel::Comma,
            Token::Eof => TokenModel::Eof,
        }
    }
}

pub open spec fn is_space(b: u8) -> bool {
    b == 0x20 || b == 0x0A || b == 0x0D || b == 0x09
}

pub open spec fn is_digit(b: u8) -> bool {
    0x30 <= b <= 0x39
}

pub open spec fn is_hex(b: u8) -> bool {
    is_digit(b) || (0x61 <= b <= 0x66) || (0x41 <= b <= 0x46)
}

pub open spec fn hex_val(b: u8) -> nat {
    if is_digit(b) {
        (b - 0x30) as nat
    } else if 0x61 <= b <= 0x66 {
        (b - 0x61 + 10) as nat
    } else {
        (b - 0x41 + 10) as nat
    }
}

pub open spec fn is_ident_start(b: u8) -> bool {
    (0x61 <= b <= 0x7A) || (0x41 <= b <= 0x5A) || b == 0x5F
}

pub open spec fn is_ident_char(b: u8) -> bool {
    is_ident_start(b) || is_digit(b)
}

/// Line and column (both from 1) of byte position `n`: a newline starts a
/// new line, every other byte moves one column on.
pub open spec fn line_col(s: Seq<u8>, n: int) -> (nat, nat)
    decreases n,
{
    if n <= 0 {
        (1, 1)
    } else {
        let (l, c) = line_col(s, n - 1);
        if n - 1 < s.len() && s[n - 1] == 0x0A {
            (l + 1, 1)
        } else {
            (l, c + 1)
        }
    }
}

pub proof fn lemma_line_col_bound(s: Seq<u8>, n: int)
    requires
        0 <= n,
    ensures
        1 <= line_col(s, n).0 <= n + 1,
        1 <= line_col(s, n).1 <= n + 1,
    decreases n,
{
    if n > 0 {
        lemma_line_col_bound(s, n - 1);
    }
}

pub open spec fn span_of(s: Seq<u8>, n: int) -> Span {
    Span { offset: n as usize, line: line_col(s, n).0 as usize, column: line_col(s, n).1 as usize }
}

/// Just past the end of a line comment whose text starts at `p`: past the
/// next newline, or the end of input.
pub open spec fn comment_end(s: Seq<u8>, p: int) -> int
    decreases s.len() - p,
{
    if p < 0 || p >= s.len() {
        p
    } else if s[p] == 0x0A {
        p + 1
    } else {
        comment_end(s, p + 1)
    }
}

pub proof fn lemma_comment_end(s: Seq<u8>, p: int)
    requires
        0 <= p <= s.len(),
    ensures
        p <= comment_end(s, p) <= s.len(),
    decreases s.len() - p,
{
    if p < s.len() && s[p] != 0x0A {
        lemma_comment_end(s, p + 1);
    }
}

/// The first position from `p` on that is not whitespace or inside a
/// comment (`#` or `//` to the end of the line).
pub open spec fn skip(s: Seq<u8>, p: int) -> int
    decreases s.len() - p,
{
    if p < 0 || p >= s.len() {
        p
    } else if is_space(s[p]) {
        skip(s, p + 1)
    } else if s[p] == 0x23 {
        proof {
            lemma_comment_end(s, p + 1);
        }
        skip(s, comment_end(s, p + 1))
    } else if s[p] == 0x2F && p + 1 < s.len() && s[p + 1] == 0x2F {
        proof {
            lemma_comment_end(s, p + 2);
        }
        skip(s, comment_end(s, p + 2))
    } else {
        p
    }
}

/// The end of the run of digits from `p`.
pub open spec fn digits_end(s: Seq<u8>, p: int) -> int
    decreases s.len() - p,
{
    if 0 <= p < s.len() && is_digit(s[p]) {
        digits_end(s, p + 1)
    } else {
        p
    }
}

/// The end of the run of hex digits from `p`.
pub open spec fn hex_end(s: Seq<u8>, p: int) -> int
    decreases s.len() - p,
{
    if 0 <= p < s.len() && is_hex(s[p]) {
        hex_end(s, p + 1)
    } else {
        p
    }
}

/// The end of the run of identifier characters from `p`.
pub open spec fn ident_end(s: Seq<u8>, p: int) -> int
    decreases s.len() - p,
{
    if 0 <= p < s.len() && is_ident_char(s[p]) {
        ident_end(s, p + 1)
    } else {
        p
    }
}

/// The number written in decimal by the digits in `a..b`.
pub open spec fn decimal(s: Seq<u8>, a: int, b: int) -> nat
    decreases b - a,
{
    if b <= a {
        0
    } else {
        decimal(s, a, b - 1) * 10 + (s[b - 1] - 0x30) as nat
    }
}

/// The bytes written by the `n` pairs of hex digits from `a`.
pub open spec fn hex_bytes(s: Seq<u8>, a: int, n: nat) -> Seq<u8> {
    Seq::new(n, |i: int| (hex_val(s[a + 2 * i]) * 16 + hex_val(s[a + 2 * i + 1])) as u8)
}

/// The bytes in `a..b` taken as characters.
pub open spec fn chars_of(s: Seq<u8>, a: int, b: int) -> Seq<char> {
    Seq::new((b - a) as nat, |i: int| s[a + i] as char)
}

/// The number written by four hex digits from `a`.
pub open spec fn hex4(s: Seq<u8>, a: int) -> u32 {
    (hex_val(s[a]) * 4096 + hex_val(s[a + 1]) * 256 + hex_val(s[a + 2]) * 16 + hex_val(
        s[a + 3],
    )) as u32
}

pub open spec fn is_scalar(i: u32) -> bool {
    i < 0xD800 || (0xE000 <= i && i <= 0x10FFFF)
}

/// The character an escape letter stands for, if it is one of the simple
/// escapes.
pub open spec fn simple_escape(e: u8) -> Option<char> {
    if e == 0x22 {
        Some('"')
    } else if e == 0x5C {
        Some('\\')
    } else if e == 0x6E {
        Some('\n')
    } else if e == 0x72 {
        Some('\r')
    } else if e == 0x74 {
        Some('\t')
    } else {
        None
    }
}

/// The rest of a string literal from `p`, after the text `acc` read so
/// far: the whole text and the position past the closing quote, or nothing
/// if the literal is malformed.
pub open spec fn str_lit(s: Seq<u8>, p: int, acc: Seq<char>) -> Option<(Seq<char>, int)>
    decreases s.len() - p,
{
    if p < 0 || p >= s.len() {
        None
    } else if s[p] == 0x22 {
        Some((acc, p + 1))
    } else if s[p] == 0x5C {
        if p + 1 >= s.len() {
            None
        } else if simple_escape(s[p + 1]) is Some {
            str_lit(s, p + 2, acc.push(simple_escape(s[p + 1])->0))
        } else if s[p + 1] == 0x75 && p + 6 <= s.len() && is_hex(s[p + 2]) && is_hex(s[p + 3])
            && is_hex(s[p + 4]) && is_hex(s[p + 5]) && is_scalar(hex4(s, p + 2)) {
            str_lit(s, p + 6, acc.push(hex4(s, p + 2) as char))
        } else {
            None
        }
    } else if s[p] == 0x0A || s[p] == 0x0D || s[p] >= 0x80 {
        None
    } else {
        str_lit(s, p + 1, acc.push(s[p] as char))
    }
}

pub open spec fn unexpected(expected: &'static str, found: &'static str) -> ParseErrorKind {
    ParseErrorKind::UnexpectedToken { expected, found }
}

/// The token that starts at `q` (a position past ignored input, inside the
/// input) and the position just past it.
pub open spec fn token_at(s: Seq<u8>, q: int) -> Result<(TokenModel, int), ParseErrorKind> {
    let b = s[q];
    if b == 0x7B {
        Ok((TokenModel::LBrace, q + 1))
    } else if b == 0x7D {
        Ok((TokenModel::RBrace, q + 1))
    } else if b == 0x5B {
        Ok((TokenModel::LBracket, q + 1))
    } else if b == 0x5D {
        Ok((TokenModel::RBracket, q + 1))
    } else if b == 0x3A {
        Ok((TokenModel::Colon, q + 1))
    } else if b == 0x2C {
        Ok((TokenModel::Comma, q + 1))
    } else if b == 0x22 {
        match str_lit(s, q + 1, seq![]) {
            Some((t, e)) => Ok((TokenModel::Str(t), e)),
            None => Err(ParseErrorKind::MalformedBytesLiteral),
        }
    } else if b == 0x30 && q + 1 < s.len() && s[q + 1] == 0x78 {
        let e = hex_end(s, q + 2);
        let n = e - (q + 2);
        if n == 0 || n % 2 != 0 {
            Err(ParseErrorKind::MalformedBytesLiteral)
        } else {
            Ok((TokenModel::Bytes(hex_bytes(s, q + 2, (n / 2) as nat)), e))
        }
    } else if b == 0x2D || is_digit(b) {
        let d = if b == 0x2D {
            q + 1
        } else {
            q
        };
        let e = digits_end(s, d);
        let mag = decimal(s, d, e);
        let v: int = if b == 0x2D {
            -mag
        } else {
            mag as int
        };
        if e == d {
            Err(unexpected("digit", "-"))
        } else if v < i64::MIN || v > i64::MAX {
            Err(ParseErrorKind::IntegerOutOfRange)
        } else {
            Ok((TokenModel::Int(v as i64), e))
        }
    } else if is_ident_start(b) {
        let e = ident_end(s, q + 1);
        let word = s.subrange(q, e);
        if word == seq![0x6Eu8, 0x75, 0x6C, 0x6C] {
            Ok((TokenModel::Null, e))
        } else if word == seq![0x74u8, 0x72, 0x75, 0x65] {
            Ok((TokenModel::True, e))
        } else if word == seq![0x66u8, 0x61, 0x6C, 0x73, 0x65] {
            Ok((TokenModel::False, e))
        } else {
            Ok((TokenModel::Ident(chars_of(s, q, e)), e))
        }
    } else {
        Err(unexpected("token", "character"))
    }
}

/// The next token from position `p`: its model, where it starts and where
/// it ends; `Eof` at the end of input. An error gives its kind and the
/// position of the token it is in.
pub open spec fn lex_at(s: Seq<u8>, p: int) -> Result<(TokenModel, int, int), (ParseErrorKind, int)> {
    let q = skip(s, p);
    if q < 0 || q >= s.len() {
        Ok((TokenModel::Eof, q, q))
    } else {
        match token_at(s, q) {
            Ok((t, e)) => Ok((t, q, e)),
            Err(k) => Err((k, q)),
        }
    }
}

pub proof fn lemma_skip(s: Seq<u8>, p: int)
    requires
        0 <= p <= s.len(),
    ensures
        p <= skip(s, p) <= s.len(),
    decreases s.len() - p,
{
    if p < s.len() {
        if is_space(s[p]) {
            lemma_skip(s, p + 1);
        } else if s[p] == 0x23 {
            lemma_comment_end(s, p + 1);
            lemma_skip(s, comment_end(s, p + 1));
        } else if s[p] == 0x2F && p + 1 < s.len() && s[p + 1] == 0x2F {
            lemma_comment_end(s, p + 2);
            lemma_skip(s, comment_end(s, p + 2));
        }
    }
}

proof fn lemma_run_ends(s: Seq<u8>, p: int)
    requires
        0 <= p <= s.len(),
    ensures
        p <= digits_end(s, p) <= s.len(),
        p <= hex_end(s, p) <= s.len(),
        p <= ident_end(s, p) <= s.len(),
    decreases s.len() - p,
{
    if p < s.len() {
        lemma_run_ends(s, p + 1);
    }
}

proof fn lemma_str_lit_end(s: Seq<u8>, p: int, acc: Seq<char>)
    requires
        0 <= p,
    ensures
        str_lit(s, p, acc) matches Some((t, e)) ==> p < e <= s.len(),
    decreases s.len() - p,
{
    if 0 <= p < s.len() && s[p] != 0x22 {
        if s[p] == 0x5C {
            if p + 1 < s.len() {
                if simple_escape(s[p + 1]) is Some {
                    lemma_str_lit_end(s, p + 2, acc.push(simple_escape(s[p + 1])->0));
                } else if s[p + 1] == 0x75 && p + 6 <= s.len() && is_hex(s[p + 2]) && is_hex(
                    s[p + 3],
                ) && is_hex(s[p + 4]) && is_hex(s[p + 5]) && is_scalar(hex4(s, p + 2)) {
                    lemma_str_lit_end(s, p + 6, acc.push(hex4(s, p + 2) as char));
                }
            }
        } else {
            lemma_str_lit_end(s, p + 1, acc.push(s[p] as char));
        }
    }
}

/// A token found from `p` starts at or after `p` and ends after it starts,
/// within the input; only `Eof` is empty.
pub proof fn lemma_lex_advances(s: Seq<u8>, p: int)
    requires
        0 <= p <= s.len(),
    ensures
        lex_at(s, p) matches Ok((t, q, e)) ==> p <= q <= e <= s.len() && (!(t is Eof) ==> q < e),
        lex_at(s, p) matches Err((k, q)) ==> p <= q <= s.len(),
{
    lemma_skip(s, p);
    let q = skip(s, p);
    if q < s.len() {
        lemma_run_ends(s, q + 1);
        if q + 2 <= s.len() {
            lemma_run_ends(s, q + 2);
        }
        lemma_run_ends(s, q);
        lemma_str_lit_end(s, q + 1, seq![]);
    }
}

/// A lexer over one source text.
#[derive(Clone, Copy)]
pub struct Lexer<'a> {
    input: &'a [u8],
    pos: usize,
    line: usize,
    column: usize,
    error: Option<ParseError>,
}

impl<'a> Lexer<'a> {
    /// The source bytes.
    pub closed spec fn src(&self) -> Seq<u8> {
        self.input@
    }

    /// The current position.
    pub closed spec fn at(&self) -> int {
        self.pos as int
    }

    /// The error that stopped the last call of `next_token`, if one did.
    pub closed spec fn last_error(&self) -> Option<ParseError> {
        self.error
    }

    /// The error that stopped the last call of `next_token`, if one did:
    /// how a caller tells a malformed token from the end of input.
    pub fn error(&self) -> (r: Option<ParseError>)
        ensures
            r == self.last_error(),
    {
        self.error
    }

    /// The position is inside the input and the line and column are those
    /// of the position.
    pub closed spec fn wf(&self) -> bool {
        &&& self.pos <= self.input@.len()
        &&& self.input@.len() < usize::MAX
        &&& self.line as nat == line_col(self.input@, self.pos as int).0
        &&& self.column as nat == line_col(self.input@, self.pos as int).1
    }

    /// A lexer at the start of `input`.
    pub fn new(input: &'a str) -> (l: Self)
        requires
            encode_utf8(input@).len() < usize::MAX,
        ensures
            l.wf(),
            l.src() == encode_utf8(input@),
            l.at() == 0,
    {
        Lexer { input: input.as_bytes(), pos: 0, line: 1, column: 1, error: None }
    }

    fn span(&self) -> (r: Span)
        requires
            self.wf(),
        ensures
            r == span_of(self.src(), self.at()),
    {
        Span { offset: self.pos, line: self.line, column: self.column }
    }

    fn advance(&mut self)
        requires
            old(self).wf(),
            old(self).pos < old(self).input@.len(),
        ensures
            final(self).wf(),
            final(self).input == old(self).input,
            final(self).pos == old(self).pos + 1,
    {
        proof {
            lemma_line_col_bound(self.input@, self.pos as int + 1);
        }
        if self.input[self.pos] == 0x0A {
            self.line = self.line + 1;
            self.column = 1;
        } else {
            self.column = self.column + 1;
        }
        self.pos = self.pos + 1;
    }

    /// The byte `i` places past the current one, if there is one.
    fn peek_at(&self, i: usize) -> (r: Option<u8>)
        requires
            self.wf(),
        ensures
            self.pos + i < self.input@.len() ==> r == Some(self.input@[self.pos + i]),
            self.pos + i >= self.input@.len() ==> r is None,
    {
        if i < self.input.len() - self.pos {
            Some(self.input[self.pos + i])
        } else {
            None
        }
    }

    /// The value of a hex digit.
    fn hex_digit(b: u8) -> (r: Option<u8>)
        ensures
            r is Some <==> is_hex(b),
            r matches Some(v) ==> v == hex_val(b),
    {
        if 0x30 <= b && b <= 0x39 {
            Some(b - 0x30)
        } else if 0x61 <= b && b <= 0x66 {
            Some(b - 0x61 + 10)
        } else if 0x41 <= b && b <= 0x46 {
            Some(b - 0x41 + 10)
        } else {
            None
        }
    }

    fn skip_comment(&mut self)
        requires
            old(self).wf(),
        ensures
            final(self).wf(),
            final(self).input == old(self).input,
            final(self).pos == comment_end(old(self).input@, old(self).pos as int),
    {
        let ghost s = self.input@;
        let ghost start = self.pos as int;
        while self.pos < self.input.len()
            invariant
                self.wf(),
                self.input == old(self).input,
                s == self.input@,
                start == old(self).pos,
                comment_end(s, start) == comment_end(s, self.pos as int),
            decreases self.input@.len() - self.pos,
        {
            let b = self.input[self.pos];
            self.advance();
            if b == 0x0A {
                return ;
            }
        }
    }

    fn skip_ignored(&mut self)
        requires
            old(self).wf(),
        ensures
            final(self).wf(),
            final(self).input == old(self).input,
            final(self).pos == skip(old(self).input@, old(self).pos as int),
    {
        let ghost s = self.input@;
        let ghost start = self.pos as int;
        loop
            invariant
                self.wf(),
                self.input == old(self).input,
                s == self.input@,
                start == old(self).pos,
                skip(s, start) == skip(s, self.pos as int),
            decreases self.input@.len() - self.pos,
        {
            if self.pos >= self.input.len() {
                return ;
            }
            let b = self.input[self.pos];
            if b == 0x20 || b == 0x0A || b == 0x0D || b == 0x09 {
                self.advance();
            } else if b == 0x23 {
                self.advance();
                proof {
                    lemma_comment_end(s, self.pos as int);
                }
                self.skip_comment();
            } else if b == 0x2F && self.peek_at(1) == Some(0x2Fu8) {
                self.advance();
                self.advance();
                proof {
                    lemma_comment_end(s, self.pos as int);
                }
                self.skip_comment();
            } else {
                return ;
            }
        }
    }

    /// A string literal whose opening quote is at the current position.
    fn lex_string(&mut self) -> (r: Option<String>)
        requires
            old(self).wf(),
            old(self).pos < old(self).input@.len(),
        ensures
            final(self).wf(),
            final(self).input == old(self).input,
            match str_lit(old(self).input@, old(self).pos + 1, seq![]) {
                Some((t, e)) => (r matches Some(x) && x@ == t) && final(self).pos == e,
                None => r is None,
            },
    {
        let ghost s = self.input@;
        let ghost start = self.pos as int;
        self.advance();
        let mut out = String::new();
        loop
            invariant
                self.wf(),
                self.input == old(self).input,
                s == self.input@,
                start == old(self).pos,
                str_lit(s, start + 1, seq![]) == str_lit(s, self.pos as int, out@),
            decreases self.input@.len() - self.pos,
        {
            if self.pos >= self.input.len() {
                return None;
            }
            let b = self.input[self.pos];
            if b == 0x22 {
                self.advance();
                return Some(out);
            }
            if b == 0x5C {
                let e = match self.peek_at(1) {
                    Some(e) => e,
                    None => {
                        return None;
                    },
                };
                let simple: Option<char> = if e == 0x22 {
                    Some('"')
                } else if e == 0x5C {
                    Some('\\')
                } else if e == 0x6E {
                    Some('\n')
                } else if e == 0x72 {
                    Some('\r')
                } else if e == 0x74 {
                    Some('\t')
                } else {
                    None
                };
                assert(simple == simple_escape(e));
                if let Some(c) = simple {
                    self.advance();
                    self.advance();
                    out.push(c);
                } else {
                    if e != 0x75 || self.input.len() - self.pos < 6 {
                        return None;
                    }
                    let h0 = match Self::hex_digit(self.input[self.pos + 2]) {
                        Some(v) => v,
                        None => {
                            return None;
                        },
                    };
                    let h1 = match Self::hex_digit(self.input[self.pos + 3]) {
                        Some(v) => v,
                        None => {
                            return None;
                        },
                    };
                    let h2 = match Self::hex_digit(self.input[self.pos + 4]) {
                        Some(v) => v,
                        None => {
                            return None;
                        },
                    };
                    let h3 = match Self::hex_digit(self.input[self.pos + 5]) {
                        Some(v) => v,
                        None => {
                            return None;
                        },
                    };
                    let cp: u32 = (h0 as u32) * 4096 + (h1 as u32) * 256 + (h2 as u32) * 16 + (
                    h3 as u32);
                    assert(cp == hex4(s, self.pos + 2));
                    let c = match core::char::from_u32(cp) {
                        Some(c) => c,
                        None => {
                            return None;
                        },
                    };
                    self.advance();
                    self.advance();
                    self.advance();
                    self.advance();
                    self.advance();
                    self.advance();
                    out.push(c);
                }
            } else {
                if b == 0x0A || b == 0x0D || b >= 0x80 {
                    return None;
                }
                self.advance();
                out.push(b as char);
            }
        }
    }

    /// A bytes literal whose `0x` is at the current position.
    fn lex_bytes(&mut self) -> (r: Option<Vec<u8>>)
        requires
            old(self).wf(),
            old(self).pos + 1 < old(self).input@.len(),
        ensures
            final(self).wf(),
            final(self).input == old(self).input,
            ({
                let s = old(self).input@;
                let a = old(self).pos + 2;
                let e = hex_end(s, a);
                let n = e - a;
                if n == 0 || n % 2 != 0 {
                    r is None
                } else {
                    (r matches Some(x) && x@ == hex_bytes(s, a, (n / 2) as nat))
                        && final(self).pos == e
                }
            }),
    {
        let ghost s = self.input@;
        self.advance();
        self.advance();
        let a = self.pos;
        while self.pos < self.input.len() && Self::hex_digit(self.input[self.pos]).is_some()
            invariant
                self.wf(),
                self.input == old(self).input,
                s == self.input@,
                a == old(self).pos + 2,
                a <= self.pos,
                hex_end(s, a as int) == hex_end(s, self.pos as int),
                forall|j: int| a <= j < self.pos ==> is_hex(#[trigger] s[j]),
            decreases self.input@.len() - self.pos,
        {
            self.advance();
        }
        let n = self.pos - a;
        if n == 0 || n % 2 != 0 {
            return None;
        }
        let mut out: Vec<u8> = Vec::new();
        let mut i: usize = 0;
        while i < n / 2
            invariant
                self.wf(),
                s == self.input@,
                a + n == self.pos,
                n % 2 == 0,
                i <= n / 2,
                forall|j: int| a <= j < a + n ==> is_hex(#[trigger] s[j]),
                out@ =~= hex_bytes(s, a as int, i as nat),
            decreases n / 2 - i,
        {
            let hi = match Self::hex_digit(self.input[a + 2 * i]) {
                Some(v) => v,
                None => 0,
            };
            let lo = match Self::hex_digit(self.input[a + 2 * i + 1]) {
                Some(v) => v,
                None => 0,
            };
            out.push(hi * 16 + lo);
            i = i + 1;
        }
        Some(out)
    }

    /// An integer literal (optional `-`, then digits) at the current
    /// position.
    fn lex_int(&mut self) -> (r: Result<i64, ParseErrorKind>)
        requires
            old(self).wf(),
            old(self).pos < old(self).input@.len(),
        ensures
            final(self).wf(),
            final(self).input == old(self).input,
            ({
                let s = old(self).input@;
                let q = old(self).pos as int;
                let d = if s[q] == 0x2D {
                    q + 1
                } else {
                    q
                };
                let e = digits_end(s, d);
                let mag = decimal(s, d, e);
                let v: int = if s[q] == 0x2D {
                    -mag
                } else {
                    mag as int
                };
                if e == d {
                    r == Err::<i64, ParseErrorKind>(unexpected("digit", "-"))
                } else if v < i64::MIN || v > i64::MAX {
                    r == Err::<i64, ParseErrorKind>(ParseErrorKind::IntegerOutOfRange)
                } else {
                    r == Ok::<i64, ParseErrorKind>(v as i64) && final(self).pos == e
                }
            }),
    {
        let ghost s = self.input@;
        let neg = self.input[self.pos] == 0x2D;
        if neg {
            self.advance();
        }
        let d = self.pos;
        let mut mag: u64 = 0;
        let mut over = false;
        while self.pos < self.input.len() && 0x30 <= self.input[self.pos] && self.input[self.pos]
            <= 0x39
            invariant
                self.wf(),
                self.input == old(self).input,
                s == self.input@,
                d == (if neg {
                    old(self).pos + 1
                } else {
                    old(self).pos as int
                }),
                neg == (s[old(self).pos as int] == 0x2D),
                d <= self.pos,
                digits_end(s, d as int) == digits_end(s, self.pos as int),
                over ==> decimal(s, d as int, self.pos as int) > 0x8000_0000_0000_0000,
                !over ==> mag == decimal(s, d as int, self.pos as int) && mag
                    <= 0x8000_0000_0000_0000,
            decreases self.input@.len() - self.pos,
        {
            let dg = (self.input[self.pos] - 0x30) as u64;
            if !over {
                if mag > (0x8000_0000_0000_0000u64 - dg) / 10 {
                    over = true;
                } else {
                    mag = mag * 10 + dg;
                }
            }
            self.advance();
        }
        if self.pos == d {
            return Err(ParseErrorKind::UnexpectedToken { expected: "digit", found: "-" });
        }
        if over {
            return Err(ParseErrorKind::IntegerOutOfRange);
        }
        if neg {
            if mag == 0x8000_0000_0000_0000u64 {
                Ok(i64::MIN)
            } else {
                Ok(-(mag as i64))
            }
        } else {
            if mag > 0x7FFF_FFFF_FFFF_FFFFu64 {
                Err(ParseErrorKind::IntegerOutOfRange)
            } else {
                Ok(mag as i64)
            }
        }
    }

    /// An identifier or keyword at the current position.
    fn lex_identifier(&mut self) -> (r: Token)
        requires
            old(self).wf(),
            old(self).pos < old(self).input@.len(),
            is_ident_start(old(self).input@[old(self).pos as int]),
        ensures
            final(self).wf(),
            final(self).input == old(self).input,
            Ok::<(TokenModel, int), ParseErrorKind>((r@, final(self).pos as int)) == token_at(
                old(self).input@,
                old(self).pos as int,
            ),
    {
        let ghost s = self.input@;
        let q = self.pos;
        let mut name = String::new();
        while self.pos < self.input.len() && (0x61 <= self.input[self.pos] && self.input[self.pos]
            <= 0x7A || 0x41 <= self.input[self.pos] && self.input[self.pos] <= 0x5A
            || self.input[self.pos] == 0x5F || 0x30 <= self.input[self.pos] && self.input[self.pos]
            <= 0x39)
            invariant
                self.wf(),
                self.input == old(self).input,
                s == self.input@,
                q == old(self).pos,
                q < self.pos || (q == self.pos && is_ident_start(s[q as int])),
                ident_end(s, q + 1) == ident_end(s, self.pos as int) || (q == self.pos),
                name@ =~= chars_of(s, q as int, self.pos as int),
            decreases self.input@.len() - self.pos,
        {
            let b = self.input[self.pos];
            self.advance();
            name.push(b as char);
        }
        let n = self.pos - q;
        let i = &self.input;
        assert(s.subrange(q as int, self.pos as int).len() == n);
        if n == 4 && i[q] == 0x6E && i[q + 1] == 0x75 && i[q + 2] == 0x6C && i[q + 3] == 0x6C {
            assert(s.subrange(q as int, self.pos as int) =~= seq![0x6Eu8, 0x75, 0x6C, 0x6C]);
            Token::Null
        } else if n == 4 && i[q] == 0x74 && i[q + 1] == 0x72 && i[q + 2] == 0x75 && i[q + 3]
            == 0x65 {
            assert(s.subrange(q as int, self.pos as int) =~= seq![0x74u8, 0x72, 0x75, 0x65]);
            Token::True
        } else if n == 5 && i[q] == 0x66 && i[q + 1] == 0x61 && i[q + 2] == 0x6C && i[q + 3]
            == 0x73 && i[q + 4] == 0x65 {
            assert(s.subrange(q as int, self.pos as int) =~= seq![0x66u8, 0x61, 0x6C, 0x73, 0x65]);
            Token::False
        } else {
            proof {
                let w = s.subrange(q as int, self.pos as int);
                if w == seq![0x6Eu8, 0x75, 0x6C, 0x6C] {
                    assert(w[0] == s[q as int] && w[1] == s[q + 1] && w[2] == s[q + 2] && w[3] == s[q + 3]);
                }
                if w == seq![0x74u8, 0x72, 0x75, 0x65] {
                    assert(w[0] == s[q as int] && w[1] == s[q + 1] && w[2] == s[q + 2] && w[3] == s[q + 3]);
                }
                if w == seq![0x66u8, 0x61, 0x6C, 0x73, 0x65] {
                    assert(w[0] == s[q as int] && w[1] == s[q + 1] && w[2] == s[q + 2] && w[3] == s[q + 3] && w[4] == s[q + 4]);
                }
            }
            Token::Ident(name)
        }
    }

    /// The next token with the span where it starts; `Eof` at the end of
    /// input.
    pub fn scan(&mut self) -> (r: Result<(Token, Span), ParseError>)
        requires
            old(self).wf(),
        ensures
            final(self).wf(),
            final(self).src() == old(self).src(),
            match lex_at(old(self).src(), old(self).at()) {
                Ok((t, q, e)) => (r matches Ok((tok, sp)) && tok@ == t && sp == span_of(
                    old(self).src(),
                    q,
                )) && final(self).at() == e,
                Err((k, q)) => r == Err::<(Token, Span), ParseError>(
                    ParseError { kind: k, span: span_of(old(self).src(), q) },
                ),
            },
    {
        self.skip_ignored();
        let span = self.span();
        if self.pos >= self.input.len() {
            return Ok((Token::Eof, span));
        }
        let b = self.input[self.pos];
        let tok = if b == 0x7B {
            self.advance();
            Token::LBrace
        } else if b == 0x7D {
            self.advance();
            Token::RBrace
        } else if b == 0x5B {
            self.advance();
            Token::LBracket
        } else if b == 0x5D {
            self.advance();
            Token::RBracket
        } else if b == 0x3A {
            self.advance();
            Token::Colon
        } else if b == 0x2C {
            self.advance();
            Token::Comma
        } else if b == 0x22 {
            match self.lex_string() {
                Some(t) => Token::String(t),
                None => {
                    return Err(ParseError { kind: ParseErrorKind::MalformedBytesLiteral, span });
                },
            }
        } else if b == 0x30 && self.peek_at(1) == Some(0x78u8) {
            match self.lex_bytes() {
                Some(v) => Token::Bytes(v),
                None => {
                    return Err(ParseError { kind: ParseErrorKind::MalformedBytesLiteral, span });
                },
            }
        } else if b == 0x2D || (0x30 <= b && b <= 0x39) {
            match self.lex_int() {
                Ok(n) => Token::Int(n),
                Err(kind) => {
                    return Err(ParseError { kind, span });
                },
            }
        } else if (0x61 <= b && b <= 0x7A) || (0x41 <= b && b <= 0x5A) || b == 0x5F {
            self.lex_identifier()
        } else {
            return Err(
                ParseError {
                    kind: ParseErrorKind::UnexpectedToken { expected: "token", found: "character" },
                    span,
                },
            );
        };
        Ok((tok, span))
    }

    /// The next token, or `None` at the end of input or at a malformed
    /// token (an integer out of range, a malformed string or bytes literal,
    /// a stray character). The two are told apart by `error`, which after a
    /// `None` holds the malformed token's error, with its kind and span, and
    /// after the end of input holds nothing. `scan` gives the same as one
    /// result.
    pub fn next_token(&mut self) -> (r: Option<Token>)
        requires
            old(self).wf(),
        ensures
            final(self).wf(),
            final(self).src() == old(self).src(),
            match lex_at(old(self).src(), old(self).at()) {
                Ok((t, q, e)) => final(self).last_error() is None && if t is Eof {
                    r is None
                } else {
                    (r matches Some(tok) && tok@ == t) && final(self).at() == e
                },
                Err((k, q)) => r is None && final(self).last_error() == Some(
                    ParseError { kind: k, span: span_of(old(self).src(), q) },
                ),
            },
    {
        match self.scan() {
            Ok((Token::Eof, _)) => {
                self.error = None;
                None
            },
            Ok((t, _)) => {
                self.error = None;
                Some(t)
            },
            Err(e) => {
                self.error = Some(e);
                None
            },
        }
    }
}

} // verus!

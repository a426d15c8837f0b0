//! The parser: textual source to a value, by recursive descent with one
//! token of lookahead.
use vstd::prelude::*;
use vstd::utf8::encode_utf8;
use crate::error::{ParseError, ParseErrorKind};
use crate::lexer::{lemma_lex_advances, lex_at, span_of, unexpected, Lexer, Token, TokenModel};
use crate::canonical::lemma_insert_wf;
use crate::value::{keys_sorted, map_insert, Value, ValueMap, ValueModel};

verus! {

/// How a token is named in an error message.
pub open spec fn tok_name(t: TokenModel) -> &'static str {
    match t {
        TokenModel::Null => "null",
        TokenModel::True => "true",
        TokenModel::False => "false",
        TokenModel::Int(_) => "integer",
        TokenModel::Str(_) => "string",
        TokenModel::Bytes(_) => "bytes",
        TokenModel::Ident(_) => "identifier",
        TokenModel::LBrace => "{",
        TokenModel::RBrace => "}",
        TokenModel::LBracket => "[",
        TokenModel::RBracket => "]",
        TokenModel::Colon => ":",
        TokenModel::Comma => ",",
        TokenModel::Eof => "end of input",
    }
}

pub open spec fn perr(kind: ParseErrorKind, s: Seq<u8>, q: int) -> ParseError {
    ParseError { kind, span: span_of(s, q) }
}

pub open spec fn prem(s: Seq<u8>, p: int) -> nat {
    if 0 <= p <= s.len() {
        (s.len() - p + 1) as nat
    } else {
        0
    }
}

/// A value from position `p`: the value and how many bytes it takes.
pub open spec fn parse_val(s: Seq<u8>, p: int) -> Result<(ValueModel, nat), ParseError>
    decreases prem(s, p), 0nat,
{
    if p < 0 || p > s.len() {
        Err(perr(unexpected("value", "end of input"), s, p))
    } else {
        proof {
            lemma_lex_advances(s, p);
        }
        match lex_at(s, p) {
            Err((k, q)) => Err(perr(k, s, q)),
            Ok((t, q, e)) => {
                let c = (e - p) as nat;
                match t {
                    TokenModel::Null => Ok((ValueModel::Null, c)),
                    TokenModel::True => Ok((ValueModel::Bool(true), c)),
                    TokenModel::False => Ok((ValueModel::Bool(false), c)),
                    TokenModel::Int(i) => Ok((ValueModel::Int(i), c)),
                    TokenModel::Str(x) => Ok((ValueModel::Str(x), c)),
                    TokenModel::Bytes(x) => Ok((ValueModel::Bytes(x), c)),
                    TokenModel::LBracket => match parse_items(s, e, seq![]) {
                        Ok((items, c2)) => Ok((ValueModel::List(items), c + c2)),
                        Err(x) => Err(x),
                    },
                    TokenModel::LBrace => match parse_entries(s, e, seq![]) {
                        Ok((es, c2)) => Ok((ValueModel::Mapping(es), c + c2)),
                        Err(x) => Err(x),
                    },
                    TokenModel::Ident(name) => {
                        proof {
                            lemma_lex_advances(s, e);
                        }
                        match lex_at(s, e) {
                            Err((k, q2)) => Err(perr(k, s, q2)),
                            Ok((t2, q2, e2)) => if t2 is LBrace {
                                match parse_entries(s, e2, seq![]) {
                                    Ok((es, c2)) => Ok(
                                        (
                                            ValueModel::Mapping(
                                                seq![(name, ValueModel::Mapping(es))],
                                            ),
                                            (e2 - p) as nat + c2,
                                        ),
                                    ),
                                    Err(x) => Err(x),
                                }
                            } else {
                                Err(perr(unexpected("{", tok_name(t2)), s, q2))
                            },
                        }
                    },
                    _ => Err(perr(unexpected("value", tok_name(t)), s, q)),
                }
            },
        }
    }
}

/// The rest of a list from `p`, after '[' or a comma, with the items `acc`
/// read so far: the items and how many bytes up to and with the ']'.
pub open spec fn parse_items(s: Seq<u8>, p: int, acc: Seq<ValueModel>) -> Result<
    (Seq<ValueModel>, nat),
    ParseError,
>
    decreases prem(s, p), 1nat,
{
    if p < 0 || p > s.len() {
        Err(perr(unexpected("value", "end of input"), s, p))
    } else {
        proof {
            lemma_lex_advances(s, p);
        }
        match lex_at(s, p) {
            Err((k, q)) => Err(perr(k, s, q)),
            Ok((t, q, e)) => if t is RBracket {
                Ok((acc, (e - p) as nat))
            } else {
                match parse_val(s, p) {
                    Err(x) => Err(x),
                    Ok((v, c)) => {
                        let after = p + c;
                        if after > s.len() {
                            Err(perr(unexpected("value", "end of input"), s, after))
                        } else {
                            proof {
                                lemma_lex_advances(s, after);
                            }
                            match lex_at(s, after) {
                                Err((k, q2)) => Err(perr(k, s, q2)),
                                Ok((t2, q2, e2)) => if t2 is Comma {
                                    match parse_items(s, e2, acc.push(v)) {
                                        Ok((items, c3)) => Ok((items, (e2 - p) as nat + c3)),
                                        Err(x) => Err(x),
                                    }
                                } else if t2 is RBracket {
                                    Ok((acc.push(v), (e2 - p) as nat))
                                } else {
                                    Err(perr(unexpected("',' or ']'", tok_name(t2)), s, q2))
                                },
                            }
                        }
                    },
                }
            },
        }
    }
}

/// The rest of a map from `p`, after '{' or a separator, with the entries
/// `acc` bound so far (a later duplicate key wins): the entries and how
/// many bytes up to and with the '}'.
pub open spec fn parse_entries(s: Seq<u8>, p: int, acc: Seq<(Seq<char>, ValueModel)>) -> Result<
    (Seq<(Seq<char>, ValueModel)>, nat),
    ParseError,
>
    decreases prem(s, p), 1nat,
{
    if p < 0 || p > s.len() {
        Err(perr(unexpected("key or '}'", "end of input"), s, p))
    } else {
        proof {
            lemma_lex_advances(s, p);
        }
        match lex_at(s, p) {
            Err((k, q)) => Err(perr(k, s, q)),
            Ok((t, q, e)) => if t is RBrace {
                Ok((acc, (e - p) as nat))
            } else if t is Ident {
                let key = t->Ident_0;
                match parse_entry(s, e) {
                    Err(x) => Err(x),
                    Ok((v, c0)) => {
                        let c = (e - p) as nat + c0;
                        let after = p + c;
                        let acc2 = map_insert(acc, key, v);
                        if after > s.len() {
                            Err(perr(unexpected("',' or '}'", "end of input"), s, after))
                        } else {
                            proof {
                                lemma_lex_advances(s, after);
                            }
                            match lex_at(s, after) {
                                Err((k, q2)) => Err(perr(k, s, q2)),
                                Ok((t2, q2, e2)) => if t2 is Comma {
                                    match parse_entries(s, e2, acc2) {
                                        Ok((es, c3)) => Ok((es, (e2 - p) as nat + c3)),
                                        Err(x) => Err(x),
                                    }
                                } else if t2 is RBrace {
                                    Ok((acc2, (e2 - p) as nat))
                                } else if t2 is Ident {
                                    match parse_entries(s, after, acc2) {
                                        Ok((es, c3)) => Ok((es, c + c3)),
                                        Err(x) => Err(x),
                                    }
                                } else {
                                    Err(perr(unexpected("',' or '}'", tok_name(t2)), s, q2))
                                },
                            }
                        }
                    },
                }
            } else {
                Err(perr(unexpected("key or '}'", tok_name(t)), s, q))
            },
        }
    }
}

/// The rest of a map entry from `p`, just past its key: `: value`, or
/// `{ ... }` for `: { ... }`. Gives the value and how many bytes it takes.
pub open spec fn parse_entry(s: Seq<u8>, p: int) -> Result<(ValueModel, nat), ParseError>
    decreases prem(s, p), 0nat,
{
    if p < 0 || p > s.len() {
        Err(perr(unexpected("':' or '{'", "end of input"), s, p))
    } else {
        proof {
            lemma_lex_advances(s, p);
        }
        match lex_at(s, p) {
            Err((k, q)) => Err(perr(k, s, q)),
            Ok((t, q, e)) => if t is Colon {
                match parse_val(s, e) {
                    Ok((v, c)) => Ok((v, (e - p) as nat + c)),
                    Err(x) => Err(x),
                }
            } else if t is LBrace {
                match parse_entries(s, e, seq![]) {
                    Ok((es, c)) => Ok((ValueModel::Mapping(es), (e - p) as nat + c)),
                    Err(x) => Err(x),
                }
            } else {
                Err(perr(unexpected("':' or '{'", tok_name(t)), s, q))
            },
        }
    }
}

/// A whole source: one value, then the end of input.
pub open spec fn parse_spec(s: Seq<u8>) -> Result<ValueModel, ParseError> {
    match parse_val(s, 0) {
        Err(x) => Err(x),
        Ok((v, c)) => match lex_at(s, c as int) {
            Err((k, q)) => Err(perr(k, s, q)),
            Ok((t, q, e)) => if t is Eof {
                Ok(v)
            } else {
                Err(perr(unexpected("end of input", tok_name(t)), s, q))
            },
        },
    }
}

proof fn lemma_val_wf(s: Seq<u8>, p: int)
    ensures
        parse_val(s, p) matches Ok((v, c)) ==> v.wf(),
    decreases prem(s, p), 0nat,
{
    if 0 <= p <= s.len() {
        lemma_lex_advances(s, p);
        if lex_at(s, p) is Ok {
            let (t, q, e) = lex_at(s, p)->Ok_0;
            if t is LBracket {
                lemma_items_wf(s, e, seq![]);
            } else if t is LBrace {
                lemma_entries_wf(s, e, seq![]);
            } else if t is Ident {
                lemma_lex_advances(s, e);
                if lex_at(s, e) is Ok {
                    let (t2, q2, e2) = lex_at(s, e)->Ok_0;
                    if t2 is LBrace {
                        lemma_entries_wf(s, e2, seq![]);
                    }
                }
            }
        }
    }
}

proof fn lemma_items_wf(s: Seq<u8>, p: int, acc: Seq<ValueModel>)
    requires
        forall|i: int| 0 <= i < acc.len() ==> (#[trigger] acc[i]).wf(),
    ensures
        parse_items(s, p, acc) matches Ok((vs, c)) ==> forall|i: int|
            0 <= i < vs.len() ==> (#[trigger] vs[i]).wf(),
    decreases prem(s, p), 1nat,
{
    if 0 <= p <= s.len() {
        lemma_lex_advances(s, p);
        lemma_val_wf(s, p);
        if lex_at(s, p) is Ok && parse_val(s, p) is Ok {
            let (v, c) = parse_val(s, p)->Ok_0;
            let after = p + c;
            let acc2 = acc.push(v);
            assert forall|i: int| 0 <= i < acc2.len() implies (#[trigger] acc2[i]).wf() by {
                if i < acc.len() {
                    assert(acc2[i] == acc[i]);
                }
            }
            if after <= s.len() {
                lemma_lex_advances(s, after);
                if lex_at(s, after) is Ok {
                    let (t2, q2, e2) = lex_at(s, after)->Ok_0;
                    if t2 is Comma {
                        lemma_items_wf(s, e2, acc2);
                    }
                }
            }
        }
    }
}

proof fn lemma_entry_wf(s: Seq<u8>, p: int)
    ensures
        parse_entry(s, p) matches Ok((v, c)) ==> v.wf(),
    decreases prem(s, p), 0nat,
{
    if 0 <= p <= s.len() {
        lemma_lex_advances(s, p);
        if lex_at(s, p) is Ok {
            let (t, q, e) = lex_at(s, p)->Ok_0;
            if t is Colon {
                lemma_val_wf(s, e);
            } else if t is LBrace {
                lemma_entries_wf(s, e, seq![]);
            }
        }
    }
}

proof fn lemma_entries_wf(s: Seq<u8>, p: int, acc: Seq<(Seq<char>, ValueModel)>)
    requires
        keys_sorted(acc),
        forall|i: int| 0 <= i < acc.len() ==> (#[trigger] acc[i]).1.wf(),
    ensures
        parse_entries(s, p, acc) matches Ok((es, c)) ==> ValueModel::Mapping(es).wf(),
    decreases prem(s, p), 1nat,
{
    if 0 <= p <= s.len() {
        lemma_lex_advances(s, p);
        if lex_at(s, p) is Ok {
            let (t, q, e) = lex_at(s, p)->Ok_0;
            if t is Ident {
                lemma_entry_wf(s, e);
                if parse_entry(s, e) is Ok {
                    let (v, c0) = parse_entry(s, e)->Ok_0;
                    let c = (e - p) as nat + c0;
                    let after = p + c;
                    let key = t->Ident_0;
                    lemma_insert_wf(acc, key, v);
                    let acc2 = map_insert(acc, key, v);
                    if after <= s.len() {
                        lemma_lex_advances(s, after);
                        if lex_at(s, after) is Ok {
                            let (t2, q2, e2) = lex_at(s, after)->Ok_0;
                            if t2 is Comma {
                                lemma_entries_wf(s, e2, acc2);
                            } else if t2 is Ident {
                                lemma_entries_wf(s, after, acc2);
                            }
                        }
                    }
                }
            }
        }
    }
}

/// What the parser accepts is well formed: duplicate keys are resolved and
/// every map's keys are in ascending order, whatever order the source wrote
/// them in.
pub proof fn lemma_parsed_wf(s: Seq<u8>)
    ensures
        parse_spec(s) matches Ok(v) ==> v.wf(),
{
    lemma_val_wf(s, 0);
}

pub open spec fn shifted<T>(r: Result<(T, nat), ParseError>, d: int) -> Result<(T, nat), ParseError> {
    match r {
        Ok((x, c)) => Ok((x, (d + c) as nat)),
        Err(e) => Err(e),
    }
}

/// How a token is named in an error message.
fn token_name(t: &Token) -> (r: &'static str)
    ensures
        r == tok_name(t@),
{
    match t {
        Token::Null => "null",
        Token::True => "true",
        Token::False => "false",
        Token::Int(_) => "integer",
        Token::String(_) => "string",
        Token::Bytes(_) => "bytes",
        Token::Ident(_) => "identifier",
        Token::LBrace => "{",
        Token::RBrace => "}",
        Token::LBracket => "[",
        Token::RBracket => "]",
        Token::Colon => ":",
        Token::Comma => ",",
        Token::Eof => "end of input",
    }
}

/// A parser over one source text.
pub struct Parser<'a> {
    lexer: Lexer<'a>,
}

impl<'a> Parser<'a> {
    /// The source bytes.
    pub closed spec fn src(&self) -> Seq<u8> {
        self.lexer.src()
    }

    /// The current position.
    pub closed spec fn at(&self) -> int {
        self.lexer.at()
    }

    pub closed spec fn wf(&self) -> bool {
        self.lexer.wf() && 0 <= self.lexer.at() <= self.lexer.src().len()
    }

    /// A parser at the start of `input`.
    pub fn new(input: &'a str) -> (r: Self)
        requires
            encode_utf8(input@).len() < usize::MAX,
        ensures
            r.wf(),
            r.src() == encode_utf8(input@),
            r.at() == 0,
    {
        Parser { lexer: Lexer::new(input) }
    }

    /// The next token, its span, and the lexer past it; the parser itself
    /// does not move.
    fn peek(&self) -> (r: Result<(Token, crate::error::Span, Lexer<'a>), ParseError>)
        requires
            self.wf(),
        ensures
            match lex_at(self.src(), self.at()) {
                Ok((t, q, e)) => r matches Ok((tok, sp, l)) && tok@ == t && sp == span_of(
                    self.src(),
                    q,
                ) && l.wf() && l.src() == self.src() && l.at() == e,
                Err((k, q)) => r == Err::<(Token, crate::error::Span, Lexer<'a>), ParseError>(
                    perr(k, self.src(), q),
                ),
            },
    {
        let mut l = self.lexer;
        match l.scan() {
            Ok((t, sp)) => Ok((t, sp, l)),
            Err(e) => Err(e),
        }
    }

    fn value(&mut self) -> (r: Result<Value, ParseError>)
        requires
            old(self).wf(),
        ensures
            final(self).wf(),
            final(self).src() == old(self).src(),
            match parse_val(old(self).src(), old(self).at()) {
                Ok((v, c)) => (r matches Ok(w) && w@ == v) && final(self).at() == old(self).at() + c,
                Err(x) => r == Err::<Value, ParseError>(x),
            },
        decreases prem(old(self).src(), old(self).at()), 0nat,
    {
        let ghost s = self.src();
        let ghost p = self.at();
        proof {
            lemma_lex_advances(s, p);
            reveal_with_fuel(<Value as View>::view, 2);
        }
        let (t, sp, after) = match self.peek() {
            Ok(x) => x,
            Err(e) => {
                return Err(e);
            },
        };
        self.lexer = after;
        match t {
            Token::Null => Ok(Value::Null),
            Token::True => Ok(Value::Bool(true)),
            Token::False => Ok(Value::Bool(false)),
            Token::Int(i) => Ok(Value::Int(i)),
            Token::String(x) => Ok(Value::String(x)),
            Token::Bytes(x) => Ok(Value::Bytes(x)),
            Token::LBracket => {
                let ghost e = self.at();
                match self.items() {
                    Ok(items) => {
                        let v = Value::List(items);
                        proof {
                            match parse_items(s, e, seq![]) {
                                Ok((ms, c2)) => {
                                    assert(v@->List_0 =~= ms);
                                },
                                Err(_) => {},
                            }
                        }
                        Ok(v)
                    },
                    Err(x) => Err(x),
                }
            },
            Token::LBrace => match self.entries() {
                Ok(m) => Ok(Value::Mapping(m)),
                Err(x) => Err(x),
            },
            Token::Ident(name) => {
                let ghost e = self.at();
                proof {
                    lemma_lex_advances(s, e);
                }
                let (t2, sp2, after2) = match self.peek() {
                    Ok(x) => x,
                    Err(e) => {
                        return Err(e);
                    },
                };
                match t2 {
                    Token::LBrace => {
                        self.lexer = after2;
                        match self.entries() {
                            Ok(inner) => {
                                let mut outer = ValueMap::new();
                                outer.insert(name, Value::Mapping(inner));
                                proof {
                                    assert(outer@ =~= seq![(t@->Ident_0, ValueModel::Mapping(inner@))]);
                                }
                                Ok(Value::Mapping(outer))
                            },
                            Err(x) => Err(x),
                        }
                    },
                    _ => Err(
                        ParseError {
                            kind: ParseErrorKind::UnexpectedToken {
                                expected: "{",
                                found: token_name(&t2),
                            },
                            span: sp2,
                        },
                    ),
                }
            },
            _ => Err(
                ParseError {
                    kind: ParseErrorKind::UnexpectedToken { expected: "value", found: token_name(&t) },
                    span: sp,
                },
            ),
        }
    }

    fn items(&mut self) -> (r: Result<Vec<Value>, ParseError>)
        requires
            old(self).wf(),
        ensures
            final(self).wf(),
            final(self).src() == old(self).src(),
            match parse_items(old(self).src(), old(self).at(), seq![]) {
                Ok((vs, c)) => (r matches Ok(items) && items@.len() == vs.len() && forall|j: int|
                    0 <= j < vs.len() ==> (#[trigger] items@[j])@ == vs[j]) && final(self).at()
                    == old(self).at() + c,
                Err(x) => r == Err::<Vec<Value>, ParseError>(x),
            },
        decreases prem(old(self).src(), old(self).at()), 1nat,
    {
        let ghost s = self.src();
        let ghost start = self.at();
        let ghost mut acc: Seq<ValueModel> = seq![];
        let mut items: Vec<Value> = Vec::new();
        loop
            invariant
                self.wf(),
                self.src() == s,
                s == old(self).src(),
                start == old(self).at(),
                0 <= start <= self.at(),
                items@.len() == acc.len(),
                forall|j: int| 0 <= j < acc.len() ==> (#[trigger] items@[j])@ == acc[j],
                parse_items(s, start, seq![]) == shifted(
                    parse_items(s, self.at(), acc),
                    self.at() - start,
                ),
            decreases prem(s, self.at()),
        {
            let ghost p = self.at();
            proof {
                lemma_lex_advances(s, p);
            }
            let (t, _sp, after) = match self.peek() {
                Ok(x) => x,
                Err(e) => {
                    return Err(e);
                },
            };
            if let Token::RBracket = t {
                self.lexer = after;
                return Ok(items);
            }
            assert(prem(s, p) <= prem(s, start));
            let v = match self.value() {
                Ok(v) => v,
                Err(e) => {
                    return Err(e);
                },
            };
            let ghost here = self.at();
            proof {
                lemma_lex_advances(s, here);
            }
            let (t2, sp2, after2) = match self.peek() {
                Ok(x) => x,
                Err(e) => {
                    return Err(e);
                },
            };
            match t2 {
                Token::Comma => {
                    self.lexer = after2;
                    proof {
                        acc = acc.push(v@);
                    }
                    items.push(v);
                },
                Token::RBracket => {
                    self.lexer = after2;
                    proof {
                        acc = acc.push(v@);
                    }
                    items.push(v);
                    return Ok(items);
                },
                _ => {
                    return Err(
                        ParseError {
                            kind: ParseErrorKind::UnexpectedToken {
                                expected: "',' or ']'",
                                found: token_name(&t2),
                            },
                            span: sp2,
                        },
                    );
                },
            }
        }
    }

    fn entries(&mut self) -> (r: Result<ValueMap, ParseError>)
        requires
            old(self).wf(),
        ensures
            final(self).wf(),
            final(self).src() == old(self).src(),
            match parse_entries(old(self).src(), old(self).at(), seq![]) {
                Ok((es, c)) => (r matches Ok(m) && m@ == es) && final(self).at() == old(self).at()
                    + c,
                Err(x) => r == Err::<ValueMap, ParseError>(x),
            },
        decreases prem(old(self).src(), old(self).at()), 1nat,
    {
        let ghost s = self.src();
        let ghost start = self.at();
        let mut map = ValueMap::new();
        loop
            invariant
                self.wf(),
                self.src() == s,
                s == old(self).src(),
                start == old(self).at(),
                0 <= start <= self.at(),
                parse_entries(s, start, seq![]) == shifted(
                    parse_entries(s, self.at(), map@),
                    self.at() - start,
                ),
            decreases prem(s, self.at()),
        {
            let ghost p = self.at();
            proof {
                lemma_lex_advances(s, p);
            }
            let (t, sp, after) = match self.peek() {
                Ok(x) => x,
                Err(e) => {
                    return Err(e);
                },
            };
            let key = match t {
                Token::RBrace => {
                    self.lexer = after;
                    return Ok(map);
                },
                Token::Ident(name) => name,
                _ => {
                    return Err(
                        ParseError {
                            kind: ParseErrorKind::UnexpectedToken {
                                expected: "key or '}'",
                                found: token_name(&t),
                            },
                            span: sp,
                        },
                    );
                },
            };
            self.lexer = after;
            let value = match self.entry() {
                Ok(v) => v,
                Err(e) => {
                    return Err(e);
                },
            };
            map.insert(key, value);
            let ghost here = self.at();
            proof {
                lemma_lex_advances(s, here);
            }
            let (t2, sp2, after2) = match self.peek() {
                Ok(x) => x,
                Err(e) => {
                    return Err(e);
                },
            };
            match t2 {
                Token::Comma => {
                    self.lexer = after2;
                },
                Token::RBrace => {
                    self.lexer = after2;
                    return Ok(map);
                },
                Token::Ident(_) => {},
                _ => {
                    return Err(
                        ParseError {
                            kind: ParseErrorKind::UnexpectedToken {
                                expected: "',' or '}'",
                                found: token_name(&t2),
                            },
                            span: sp2,
                        },
                    );
                },
            }
        }
    }

    fn entry(&mut self) -> (r: Result<Value, ParseError>)
        requires
            old(self).wf(),
        ensures
            final(self).wf(),
            final(self).src() == old(self).src(),
            match parse_entry(old(self).src(), old(self).at()) {
                Ok((v, c)) => (r matches Ok(w) && w@ == v) && final(self).at() == old(self).at() + c,
                Err(x) => r == Err::<Value, ParseError>(x),
            },
        decreases prem(old(self).src(), old(self).at()), 0nat,
    {
        let ghost s = self.src();
        let ghost p = self.at();
        proof {
            lemma_lex_advances(s, p);
            reveal_with_fuel(<Value as View>::view, 2);
        }
        let (t, sp, after) = match self.peek() {
            Ok(x) => x,
            Err(e) => {
                return Err(e);
            },
        };
        match t {
            Token::Colon => {
                self.lexer = after;
                self.value()
            },
            Token::LBrace => {
                self.lexer = after;
                match self.entries() {
                    Ok(m) => Ok(Value::Mapping(m)),
                    Err(e) => Err(e),
                }
            },
            _ => Err(
                ParseError {
                    kind: ParseErrorKind::UnexpectedToken {
                        expected: "':' or '{'",
                        found: token_name(&t),
                    },
                    span: sp,
                },
            ),
        }
    }

    /// The value at the current position, or `None` where the source does
    /// not hold one there.
    pub fn parse_value(&mut self) -> (r: Option<Value>)
        requires
            old(self).wf(),
        ensures
            final(self).wf(),
            final(self).src() == old(self).src(),
            match parse_val(old(self).src(), old(self).at()) {
                Ok((v, c)) => (r matches Some(w) && w@ == v) && final(self).at() == old(self).at()
                    + c,
                Err(_) => r is None,
            },
    {
        match self.value() {
            Ok(v) => Some(v),
            Err(_) => None,
        }
    }
}

/// Parses a whole source text into a value; what follows the value must
/// be only whitespace and comments.
pub fn parse(input: &str) -> (r: Result<Value, ParseError>)
    requires
        encode_utf8(input@).len() < usize::MAX,
    ensures
        match parse_spec(encode_utf8(input@)) {
            Ok(v) => r matches Ok(w) && w@ == v,
            Err(x) => r == Err::<Value, ParseError>(x),
        },
{
    let mut parser = Parser::new(input);
    let v = match parser.value() {
        Ok(v) => v,
        Err(e) => {
            return Err(e);
        },
    };
    proof {
        lemma_lex_advances(parser.src(), parser.at());
    }
    match parser.peek() {
        Ok((Token::Eof, _, _)) => Ok(v),
        Ok((t, sp, _)) => Err(
            ParseError {
                kind: ParseErrorKind::UnexpectedToken {
                    expected: "end of input",
                    found: token_name(&t),
                },
                span: sp,
            },
        ),
        Err(e) => Err(e),
    }
}

} // verus!

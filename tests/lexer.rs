use strata::error::ParseErrorKind;
use strata::lexer::{Lexer, Token};

#[test]
fn lex_identifiers_and_keywords() {
    let mut lx = Lexer::new("foo null true false bar");

    assert_eq!(lx.next_token(), Some(Token::Ident("foo".into())));
    assert_eq!(lx.next_token(), Some(Token::Null));
    assert_eq!(lx.next_token(), Some(Token::True));
    assert_eq!(lx.next_token(), Some(Token::False));
    assert_eq!(lx.next_token(), Some(Token::Ident("bar".into())));
    assert_eq!(lx.next_token(), None);
}

#[test]
fn lex_integers() {
    let mut lx = Lexer::new("0 42 -7 -0");

    assert_eq!(lx.next_token(), Some(Token::Int(0)));
    assert_eq!(lx.next_token(), Some(Token::Int(42)));
    assert_eq!(lx.next_token(), Some(Token::Int(-7)));
    assert_eq!(lx.next_token(), Some(Token::Int(0)));
    assert_eq!(lx.next_token(), None);
}

#[test]
fn lex_bytes_literal() {
    let mut lx = Lexer::new("0xDEADBEEF");

    assert_eq!(lx.next_token(), Some(Token::Bytes(vec![0xDE, 0xAD, 0xBE, 0xEF])));
    assert_eq!(lx.next_token(), None);
}

#[test]
fn lex_string_with_escapes() {
    let mut lx = Lexer::new(r#""hello\n\"world\"""#);

    assert_eq!(lx.next_token(), Some(Token::String("hello\n\"world\"".into())));
    assert_eq!(lx.next_token(), None);
}

#[test]
fn lex_mixed_input() {
    let mut lx = Lexer::new(r#"
            user {
                id: 42,
                active: true,
                hash: 0xFF00
            }
        "#);

    let exp = [
        Token::Ident("user".into()),
        Token::LBrace,
        Token::Ident("id".to_string()),
        Token::Colon,
        Token::Int(42),
        Token::Comma,
        Token::Ident("active".to_string()),
        Token::Colon,
        Token::True,
        Token::Comma,
        Token::Ident("hash".to_string()),
        Token::Colon,
        Token::Bytes(vec![0xFF, 0x00]),
        Token::RBrace,
    ];

    for tok in exp {
        assert_eq!(lx.next_token(), Some(tok));
    }

    assert_eq!(lx.next_token(), None);
}

#[test]
fn lex_comments_are_skipped() {
    let mut lx = Lexer::new("# a comment\n[ // another\n ]");
    assert_eq!(lx.next_token(), Some(Token::LBracket));
    assert_eq!(lx.next_token(), Some(Token::RBracket));
    assert_eq!(lx.next_token(), None);
}

#[test]
fn lex_unicode_escape() {
    let mut lx = Lexer::new(r#""caf\u00e9 \u4e2d""#);
    assert_eq!(lx.next_token(), Some(Token::String("caf\u{e9} \u{4e2d}".into())));
}

#[test]
fn lex_spans_track_lines_and_columns() {
    let mut lx = Lexer::new("a\n  [x");
    let (t, sp) = lx.scan().unwrap();
    assert_eq!(t, Token::Ident("a".into()));
    assert_eq!((sp.offset, sp.line, sp.column), (0, 1, 1));
    let (t, sp) = lx.scan().unwrap();
    assert_eq!(t, Token::LBracket);
    assert_eq!((sp.offset, sp.line, sp.column), (4, 2, 3));
    let (_, sp) = lx.scan().unwrap();
    assert_eq!((sp.offset, sp.line, sp.column), (5, 2, 4));
    let (t, _) = lx.scan().unwrap();
    assert_eq!(t, Token::Eof);
}

#[test]
fn lex_malformed_literals() {
    for src in ["0x", "0x123", "\"open", "\"bad\\q\"", "\"line\nbreak\"", "\"\\ud800\"", "\"caf\u{e9}\""] {
        let mut lx = Lexer::new(src);
        let err = lx.scan().unwrap_err();
        assert_eq!(err.kind, ParseErrorKind::MalformedBytesLiteral, "{}", src);
        assert_eq!(err.span.offset, 0);
    }
}

#[test]
fn lex_integer_range() {
    let mut lx = Lexer::new("9223372036854775807 -9223372036854775808");
    assert_eq!(lx.next_token(), Some(Token::Int(i64::MAX)));
    assert_eq!(lx.next_token(), Some(Token::Int(i64::MIN)));
    let mut lx = Lexer::new("9223372036854775808");
    assert_eq!(lx.scan().unwrap_err().kind, ParseErrorKind::IntegerOutOfRange);
    let mut lx = Lexer::new("-9223372036854775809");
    assert_eq!(lx.scan().unwrap_err().kind, ParseErrorKind::IntegerOutOfRange);
}

#[test]
fn next_token_keeps_its_error() {
    let mut lx = Lexer::new("9223372036854775808");
    assert_eq!(lx.next_token(), None);
    assert_eq!(lx.error().unwrap().kind, ParseErrorKind::IntegerOutOfRange);
    for src in ["\"abc", "\"a\nb\"", "\"caf\u{e9}\""] {
        let mut lx = Lexer::new(src);
        assert_eq!(lx.next_token(), None);
        assert_eq!(lx.error().unwrap().kind, ParseErrorKind::MalformedBytesLiteral, "{}", src);
    }
    let mut lx = Lexer::new("  ");
    assert_eq!(lx.next_token(), None);
    assert_eq!(lx.error(), None);
}

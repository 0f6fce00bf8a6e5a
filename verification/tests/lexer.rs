use polyshell::shell::lexer::{LexError, Lexer};
use polyshell::shell::token::{Kind, Token};

fn tokens(source: &str) -> Vec<Token> {
    Lexer::new(source).tokenize().unwrap()
}

fn token(kind: Kind, start: usize, end: usize) -> Token {
    Token { kind, start, end }
}

fn texts(source: &str) -> Vec<(Kind, String)> {
    tokens(source)
        .into_iter()
        .map(|t| (t.kind, source[t.start..t.end].to_string()))
        .collect()
}

fn literal(text: &str) -> (Kind, String) {
    (Kind::StringLiteral, text.to_string())
}

fn is_separator(b: u8) -> bool {
    b == b' ' || b == b'\t' || b == 0x0c || b == b'\r' || b == b'"'
}

/// Puts the spans and what lies between them back together, and checks on
/// the way that the spans come in order and that only separators lie
/// between them.
fn rebuild(source: &str) -> String {
    let found = tokens(source);
    let bytes = source.as_bytes();
    let mut text: Vec<u8> = Vec::new();
    let mut at = 0;
    for t in &found {
        assert!(at <= t.start && t.start <= t.end && t.end <= bytes.len());
        assert!(bytes[at..t.start].iter().all(|b| is_separator(*b)));
        text.extend_from_slice(&bytes[at..t.start]);
        text.extend_from_slice(&bytes[t.start..t.end]);
        at = t.end;
    }
    assert_eq!(at, bytes.len());
    String::from_utf8(text).unwrap()
}

#[test]
fn empty_line_is_one_eof() {
    assert_eq!(tokens(""), vec![token(Kind::Eof, 0, 0)]);
}

#[test]
fn blank_line_is_one_eof_at_the_end() {
    assert_eq!(tokens(" \t \r"), vec![token(Kind::Eof, 4, 4)]);
}

#[test]
fn quoted_literal_keeps_separators() {
    let source = "\"a;b=c\"";
    let found = tokens(source);
    assert_eq!(found, vec![token(Kind::StringLiteral, 1, 6), token(Kind::Eof, 7, 7)]);
    assert_eq!(&source[found[0].start..found[0].end], "a;b=c");
}

#[test]
fn quoted_literal_keeps_blanks() {
    assert_eq!(
        texts("echo \"a  b\" c"),
        vec![literal("echo"), literal("a  b"), literal("c"), (Kind::Eof, String::new())]
    );
}

#[test]
fn empty_quotes_are_an_empty_literal() {
    assert_eq!(tokens("\"\""), vec![token(Kind::StringLiteral, 1, 1), token(Kind::Eof, 2, 2)]);
}

#[test]
fn words_are_split_at_blanks() {
    assert_eq!(
        tokens("ls  -la /tmp"),
        vec![
            token(Kind::StringLiteral, 0, 2),
            token(Kind::StringLiteral, 4, 7),
            token(Kind::StringLiteral, 8, 12),
            token(Kind::Eof, 12, 12),
        ]
    );
}

#[test]
fn trailing_blanks_make_no_token() {
    assert_eq!(tokens("ls  "), vec![token(Kind::StringLiteral, 0, 2), token(Kind::Eof, 4, 4)]);
}

#[test]
fn tab_ends_a_word() {
    assert_eq!(texts("a\tb"), vec![literal("a"), literal("b"), (Kind::Eof, String::new())]);
}

#[test]
fn semicolon_and_newline_end_a_statement() {
    assert_eq!(
        tokens("a;b\nc"),
        vec![
            token(Kind::StringLiteral, 0, 1),
            token(Kind::EndStmt, 1, 2),
            token(Kind::StringLiteral, 2, 3),
            token(Kind::EndStmt, 3, 4),
            token(Kind::StringLiteral, 4, 5),
            token(Kind::Eof, 5, 5),
        ]
    );
}

#[test]
fn single_equals_is_eq() {
    assert_eq!(
        tokens("a=b"),
        vec![
            token(Kind::StringLiteral, 0, 1),
            token(Kind::Eq, 1, 2),
            token(Kind::StringLiteral, 2, 3),
            token(Kind::Eof, 3, 3),
        ]
    );
}

#[test]
fn double_equals_is_one_token() {
    assert_eq!(
        tokens("a==b"),
        vec![
            token(Kind::StringLiteral, 0, 1),
            token(Kind::EqCmp, 1, 3),
            token(Kind::StringLiteral, 3, 4),
            token(Kind::Eof, 4, 4),
        ]
    );
}

#[test]
fn three_equals_are_two_tokens() {
    assert_eq!(
        tokens("==="),
        vec![token(Kind::EqCmp, 0, 2), token(Kind::Eq, 2, 3), token(Kind::Eof, 3, 3)]
    );
}

#[test]
fn equals_at_the_end_is_eq() {
    assert_eq!(
        tokens("x="),
        vec![token(Kind::StringLiteral, 0, 1), token(Kind::Eq, 1, 2), token(Kind::Eof, 2, 2)]
    );
}

#[test]
fn quote_inside_a_word_belongs_to_it() {
    assert_eq!(texts("a\"b c"), vec![literal("a\"b"), literal("c"), (Kind::Eof, String::new())]);
}

#[test]
fn word_behind_a_quoted_literal_is_its_own_token() {
    assert_eq!(texts("\"ab\"cd"), vec![literal("ab"), literal("cd"), (Kind::Eof, String::new())]);
}

#[test]
fn spans_are_byte_offsets() {
    let source = "é ü";
    assert_eq!(
        tokens(source),
        vec![
            token(Kind::StringLiteral, 0, 2),
            token(Kind::StringLiteral, 3, 5),
            token(Kind::Eof, 5, 5),
        ]
    );
}

#[test]
fn wide_blanks_are_no_separators() {
    assert_eq!(texts("a\u{a0}b"), vec![literal("a\u{a0}b"), (Kind::Eof, String::new())]);
}

#[test]
fn unterminated_string_is_an_error() {
    assert_eq!(Lexer::new("\"abc").tokenize(), Err(LexError::UnterminatedString));
    assert_eq!(Lexer::new("ls \"").tokenize(), Err(LexError::UnterminatedString));
}

#[test]
fn newline_in_string_is_an_error() {
    assert_eq!(Lexer::new("\"a\nb\"").tokenize(), Err(LexError::NewlineInString));
    assert_eq!(Lexer::new("echo \"a\n").tokenize(), Err(LexError::NewlineInString));
}

#[test]
fn unclosed_quote_is_read_to_the_end() {
    let mut lexer = Lexer::new("ab \"cd e");
    assert_eq!(lexer.next_tk(), Ok(token(Kind::StringLiteral, 0, 2)));
    assert_eq!(lexer.offset(), 2);
    assert_eq!(lexer.next_tk(), Err(LexError::UnterminatedString));
    assert_eq!(lexer.offset(), 8);
    assert!(lexer.eof());
    assert_eq!(lexer.next_tk(), Ok(token(Kind::Eof, 8, 8)));
}

#[test]
fn newline_in_a_quote_is_where_the_lexer_stops() {
    let mut lexer = Lexer::new("a \"bc\nd\" e");
    assert_eq!(lexer.next_tk(), Ok(token(Kind::StringLiteral, 0, 1)));
    assert_eq!(lexer.next_tk(), Err(LexError::NewlineInString));
    assert_eq!(lexer.offset(), 5);
    assert_eq!(lexer.peek(), Some(b'\n'));
    assert_eq!(lexer.next_tk(), Ok(token(Kind::EndStmt, 5, 6)));
}

#[test]
fn tokenize_stops_where_the_token_fails() {
    let mut lexer = Lexer::new("ab \"cd");
    assert_eq!(lexer.tokenize(), Err(LexError::UnterminatedString));
    assert_eq!(lexer.offset(), 6);
    assert_eq!(lexer.tokenize(), Ok(vec![token(Kind::Eof, 6, 6)]));
    let mut lexer = Lexer::new("x; \"a\nb");
    assert_eq!(lexer.tokenize(), Err(LexError::NewlineInString));
    assert_eq!(lexer.offset(), 5);
}

#[test]
fn tokenize_reads_to_the_end() {
    for source in ["", "a", " a ; \"b\" "] {
        let mut lexer = Lexer::new(source);
        assert!(lexer.tokenize().is_ok());
        assert_eq!(lexer.offset(), source.len());
        assert!(lexer.eof());
    }
}

#[test]
fn next_tk_gives_eof_again_at_the_end() {
    let mut lexer = Lexer::new("a ");
    assert_eq!(lexer.next_tk(), Ok(token(Kind::StringLiteral, 0, 1)));
    assert_eq!(lexer.next_tk(), Ok(token(Kind::Eof, 2, 2)));
    assert_eq!(lexer.next_tk(), Ok(token(Kind::Eof, 2, 2)));
    assert!(lexer.eof());
}

#[test]
fn tokenize_goes_on_from_the_position() {
    let mut lexer = Lexer::new("ab cd");
    assert_eq!(lexer.advance(), Some(b'a'));
    assert_eq!(
        lexer.tokenize(),
        Ok(vec![
            token(Kind::StringLiteral, 1, 2),
            token(Kind::StringLiteral, 3, 5),
            token(Kind::Eof, 5, 5),
        ])
    );
    assert_eq!(lexer.offset(), 5);
}

#[test]
fn peek_and_advance_read_bytes() {
    let mut lexer = Lexer::new("xy");
    assert_eq!(lexer.offset(), 0);
    assert!(!lexer.eof());
    assert_eq!(lexer.peek(), Some(b'x'));
    assert_eq!(lexer.offset(), 0);
    assert_eq!(lexer.advance(), Some(b'x'));
    assert_eq!(lexer.advance(), Some(b'y'));
    assert_eq!(lexer.offset(), 2);
    assert!(lexer.eof());
    assert_eq!(lexer.peek(), None);
    assert_eq!(lexer.advance(), None);
    assert_eq!(lexer.offset(), 2);
}

#[test]
fn tokens_and_separators_rebuild_the_source() {
    for source in [
        "",
        "   ",
        "ls -la",
        "  echo \"a;b=c\"  \"\" x ; let A=b==c\n",
        "alias ll=ls -la;ll extra",
        "é \"ü ö\"\tx",
        "a\"b \"c\"d",
    ] {
        assert_eq!(rebuild(source), source);
    }
}

#[test]
fn only_the_last_token_is_eof() {
    for source in ["", "a", "a;b", " x = \"y\" "] {
        let found = tokens(source);
        let last = found.len() - 1;
        assert_eq!(found[last], token(Kind::Eof, source.len(), source.len()));
        assert!(found[..last].iter().all(|t| t.kind != Kind::Eof));
    }
}

#[test]
fn lex_error_messages() {
    assert_eq!(LexError::UnterminatedString.message(), "unterminated string");
    assert_eq!(LexError::NewlineInString.message(), "newlines forbidden in strings");
}

#[test]
fn spans_hold_what_their_kinds_say() {
    let source = "a=b == ;\n \"x y\" z";
    for t in tokens(source) {
        let text = &source[t.start..t.end];
        match t.kind {
            Kind::Eq => assert_eq!(text, "="),
            Kind::EqCmp => assert_eq!(text, "=="),
            Kind::EndStmt => assert!(text == ";" || text == "\n"),
            Kind::Eof => assert_eq!((t.start, t.end), (source.len(), source.len())),
            Kind::StringLiteral => assert!(["a", "b", "x y", "z"].contains(&text)),
        }
    }
}

use rlox::scanner::Scanner;
use rlox::token::{Span, Token, TokenKind};

fn scan_ok(source: &str) -> Vec<Token> {
    let mut scanner = Scanner::new(source);
    match scanner.scan_tokens() {
        Ok(tokens) => tokens.clone(),
        Err(_) => panic!("unexpected lexical errors in {source:?}"),
    }
}

fn kinds(tokens: &[Token]) -> Vec<TokenKind> {
    tokens.iter().map(|t| t.kind).collect()
}

#[test]
fn numeral_scans_to_one_number_token() {
    for numeral in ["0", "7", "123", "45.67", "3.14159", "007.50"] {
        let tokens = scan_ok(numeral);
        assert_eq!(kinds(&tokens), vec![TokenKind::Number, TokenKind::Eof]);
        assert_eq!(tokens[0].lexeme, numeral);
        assert_eq!(tokens[0].span, Span::new(0, numeral.len()));
        let expected: f64 = numeral.parse().unwrap();
        let value: f64 = tokens[0].lexeme.parse().unwrap();
        assert_eq!(value, expected);
    }
}

#[test]
fn trailing_or_leading_dot_is_not_part_of_a_number() {
    let tokens = scan_ok("1.");
    assert_eq!(kinds(&tokens), vec![TokenKind::Number, TokenKind::Dot, TokenKind::Eof]);
    assert_eq!(tokens[0].lexeme, "1");
    let tokens = scan_ok(".5");
    assert_eq!(kinds(&tokens), vec![TokenKind::Dot, TokenKind::Number, TokenKind::Eof]);
    assert_eq!(tokens[1].lexeme, "5");
}

#[test]
fn unterminated_string_is_reported() {
    for source in ["\"abc", "print \"abc;", "1 + \"", "\"a\nb", "print \"é", "// \"\n\"x"] {
        let mut scanner = Scanner::new(source);
        match scanner.scan_tokens() {
            Ok(_) => panic!("{source:?} should not scan cleanly"),
            Err(errors) => {
                assert!(errors.iter().any(|e| e.message == "Unterminated string."));
            }
        }
    }
}

#[test]
fn unterminated_string_reports_the_line_it_reached() {
    let mut scanner = Scanner::new("\"a\nb\nc");
    let errors = scanner.scan_tokens().err().unwrap();
    assert_eq!(errors.len(), 1);
    assert_eq!(errors[0].line, 3);
    assert_eq!(errors[0].message, "Unterminated string.");
}

#[test]
fn string_literal_keeps_its_quotes_in_the_lexeme() {
    let tokens = scan_ok("\"hi there\"");
    assert_eq!(kinds(&tokens), vec![TokenKind::String, TokenKind::Eof]);
    assert_eq!(tokens[0].lexeme, "\"hi there\"");
    assert_eq!(tokens[0].span, Span::new(0, 10));
}

#[test]
fn full_line_comment_is_skipped() {
    let tokens = scan_ok("// full line comment\n1+1;");
    assert_eq!(
        kinds(&tokens),
        vec![TokenKind::Number, TokenKind::Plus, TokenKind::Number, TokenKind::Semicolon, TokenKind::Eof]
    );
    assert_eq!(tokens[0].lexeme, "1");
    assert_eq!(tokens[2].lexeme, "1");
}

#[test]
fn lone_slash_is_division() {
    let tokens = scan_ok("6 / 3");
    assert_eq!(kinds(&tokens), vec![TokenKind::Number, TokenKind::Slash, TokenKind::Number, TokenKind::Eof]);
}

#[test]
fn one_and_two_character_operators() {
    let tokens = scan_ok("! != = == < <= > >=");
    assert_eq!(
        kinds(&tokens),
        vec![
            TokenKind::Bang,
            TokenKind::BangEqual,
            TokenKind::Equal,
            TokenKind::EqualEqual,
            TokenKind::Less,
            TokenKind::LessEqual,
            TokenKind::Greater,
            TokenKind::GreaterEqual,
            TokenKind::Eof,
        ]
    );
    assert_eq!(tokens[1].lexeme, "!=");
}

#[test]
fn punctuation() {
    let tokens = scan_ok("(){},.-+;*");
    assert_eq!(
        kinds(&tokens),
        vec![
            TokenKind::LeftParen,
            TokenKind::RightParen,
            TokenKind::LeftBrace,
            TokenKind::RightBrace,
            TokenKind::Comma,
            TokenKind::Dot,
            TokenKind::Minus,
            TokenKind::Plus,
            TokenKind::Semicolon,
            TokenKind::Star,
            TokenKind::Eof,
        ]
    );
}

#[test]
fn keywords_and_identifiers() {
    let tokens = scan_ok("and class else false for fn if nil or print return super self true let while");
    assert_eq!(
        kinds(&tokens),
        vec![
            TokenKind::And,
            TokenKind::Class,
            TokenKind::Else,
            TokenKind::False,
            TokenKind::For,
            TokenKind::Fn,
            TokenKind::If,
            TokenKind::Nil,
            TokenKind::Or,
            TokenKind::Print,
            TokenKind::Return,
            TokenKind::Super,
            TokenKind::Self_,
            TokenKind::True,
            TokenKind::Let,
            TokenKind::While,
            TokenKind::Eof,
        ]
    );
    let tokens = scan_ok("my_var lets x");
    assert_eq!(
        kinds(&tokens),
        vec![TokenKind::Identifier, TokenKind::Identifier, TokenKind::Identifier, TokenKind::Eof]
    );
    assert_eq!(tokens[0].lexeme, "my_var");
    assert_eq!(tokens[1].lexeme, "lets");
}

#[test]
fn end_of_input_token_has_empty_span_at_the_end() {
    let tokens = scan_ok("ab  ");
    let last = tokens.last().unwrap();
    assert_eq!(last.kind, TokenKind::Eof);
    assert_eq!(last.lexeme, "");
    assert_eq!(last.span, Span::new(4, 0));
    let tokens = scan_ok("");
    assert_eq!(kinds(&tokens), vec![TokenKind::Eof]);
}

#[test]
fn unexpected_characters_accumulate_with_their_lines() {
    let mut scanner = Scanner::new("@\n1 # 2\n$");
    let errors = scanner.scan_tokens().err().unwrap();
    let found: Vec<(usize, String)> = errors.iter().map(|e| (e.line, e.message.clone())).collect();
    assert_eq!(
        found,
        vec![
            (1, "Unexpected character".to_string()),
            (2, "Unexpected character".to_string()),
            (3, "Unexpected character".to_string()),
        ]
    );
    assert_eq!(
        kinds(&scanner.tokens),
        vec![TokenKind::Number, TokenKind::Number, TokenKind::Eof]
    );
}

#[test]
fn spans_count_characters() {
    let tokens = scan_ok("let x = 10;");
    assert_eq!(tokens[0].span, Span::new(0, 3));
    assert_eq!(tokens[1].span, Span::new(4, 1));
    assert_eq!(tokens[3].span, Span::new(8, 2));
    assert_eq!(tokens[3].lexeme, "10");
}

#[test]
fn same_kind_compares_kinds() {
    assert!(TokenKind::Identifier.same_kind(&TokenKind::Identifier));
    assert!(!TokenKind::Identifier.same_kind(&TokenKind::String));
}

#[test]
fn comments_leave_lines_and_tokens_alone() {
    let tokens = scan_ok("1 // one\n2 // two");
    assert_eq!(kinds(&tokens), vec![TokenKind::Number, TokenKind::Number, TokenKind::Eof]);
    assert_eq!(tokens[1].span, Span::new(9, 1));
    let mut scanner = Scanner::new("// a\n// b\n@");
    let errors = scanner.scan_tokens().err().unwrap();
    assert_eq!(errors[0].line, 3);
}

#[test]
fn comment_line_shifts_tokens_and_lines_only() {
    let rest = "print 1 @;\n\"x";
    let comment = "// note";
    let mut with = Scanner::new(&format!("{comment}\n{rest}"));
    let mut without = Scanner::new(rest);
    let e1: Vec<(usize, String)> = with.scan_tokens().err().unwrap().iter().map(|e| (e.line, e.message.clone())).collect();
    let e2: Vec<(usize, String)> = without.scan_tokens().err().unwrap().iter().map(|e| (e.line + 1, e.message.clone())).collect();
    assert_eq!(e1, e2);
    assert_eq!(with.tokens.len(), without.tokens.len());
    for (a, b) in with.tokens.iter().zip(without.tokens.iter()) {
        assert_eq!(a.kind, b.kind);
        assert_eq!(a.lexeme, b.lexeme);
        assert_eq!(a.span, Span::new(b.span.offset + comment.len() + 1, b.span.length));
    }
}

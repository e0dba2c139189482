use mictylish::lexer::lex;
use mictylish::parser::{parse_program, token_label};
use mictylish::span::{covering, span};
use mictylish::token::TokenKind;

#[test]
fn token_stream_ends_with_single_eof_at_byte_length() {
    let tokens = lex("let a").expect("lex should succeed");
    let eofs: Vec<_> = tokens
        .iter()
        .filter(|t| matches!(t.kind, TokenKind::Eof))
        .collect();
    assert_eq!(eofs.len(), 1);
    let last = tokens.last().expect("non-empty");
    assert!(matches!(last.kind, TokenKind::Eof));
    assert_eq!(last.span, span(5, 0));
}

#[test]
fn empty_source_lexes_to_lone_eof() {
    let tokens = lex("").expect("lex should succeed");
    assert_eq!(tokens.len(), 1);
    assert!(matches!(tokens[0].kind, TokenKind::Eof));
    assert_eq!(tokens[0].span, span(0, 0));
}

#[test]
fn eof_offset_counts_bytes_not_characters() {
    let tokens = lex("\"é\"").expect("lex should succeed");
    assert!(matches!(&tokens[0].kind, TokenKind::String(s) if s == "é"));
    assert_eq!(tokens[0].span, span(0, 4));
    assert_eq!(tokens.last().unwrap().span, span(4, 0));
}

#[test]
fn all_keywords_are_recognized() {
    let tokens = lex("let mut set fn match with when io do end").expect("lex should succeed");
    let kinds: Vec<_> = tokens.iter().map(|t| &t.kind).collect();
    assert_eq!(
        kinds,
        vec![
            &TokenKind::Let,
            &TokenKind::Mut,
            &TokenKind::SetKw,
            &TokenKind::Fn,
            &TokenKind::Match,
            &TokenKind::With,
            &TokenKind::When,
            &TokenKind::Io,
            &TokenKind::Do,
            &TokenKind::End,
            &TokenKind::Eof
        ]
    );
}

#[test]
fn operators_and_punctuation_carry_exact_spans() {
    let tokens = lex("-> <- |> ( ) , =").expect("lex should succeed");
    assert!(matches!(tokens[0].kind, TokenKind::Arrow));
    assert_eq!(tokens[0].span, span(0, 2));
    assert!(matches!(tokens[1].kind, TokenKind::LeftArrow));
    assert_eq!(tokens[1].span, span(3, 2));
    assert!(matches!(tokens[2].kind, TokenKind::PipeGreater));
    assert_eq!(tokens[2].span, span(6, 2));
    assert!(matches!(tokens[3].kind, TokenKind::LParen));
    assert!(matches!(tokens[4].kind, TokenKind::RParen));
    assert!(matches!(tokens[5].kind, TokenKind::Comma));
    assert!(matches!(tokens[6].kind, TokenKind::Equal));
}

#[test]
fn half_pipe_reports_expected_character() {
    let err = lex("|x").expect_err("should fail");
    assert!(err.message.contains("expected '>' after '|'"));
    assert!(err.message.contains("found 'x'"));
    assert_eq!(err.span, span(1, 1));
}

#[test]
fn dash_at_end_of_input_reports_missing_character() {
    let err = lex("-").expect_err("should fail");
    assert!(err.message.contains("expected '>' after '-'"));
    assert_eq!(err.span, span(1, 1));
    let err = lex("let a <").expect_err("should fail");
    assert!(err.message.contains("expected '-' after '<'"));
    assert_eq!(err.span, span(7, 1));
}

#[test]
fn unexpected_character_spans_its_encoded_bytes() {
    let err = lex("é").expect_err("should fail");
    assert!(err.message.contains("unexpected character 'é'"));
    assert_eq!(err.span, span(0, 2));
}

#[test]
fn unterminated_string_spans_to_end_of_input() {
    let err = lex("\"abc").expect_err("should fail");
    assert!(err.message.contains("unterminated string literal"));
    assert_eq!(err.span, span(0, 4));
}

#[test]
fn largest_integer_literal_is_accepted() {
    let tokens = lex("9223372036854775807").expect("lex should succeed");
    assert!(matches!(tokens[0].kind, TokenKind::Int(9223372036854775807)));
}

#[test]
fn integer_overflow_is_a_located_lexical_error() {
    let err = lex("9223372036854775808").expect_err("should fail");
    assert!(err
        .message
        .contains("invalid integer literal '9223372036854775808'"));
    assert_eq!(err.span, span(0, 19));
}

#[test]
fn whitespace_carries_no_tokens() {
    let tokens = lex("  let\n\tx ").expect("lex should succeed");
    assert_eq!(tokens.len(), 3);
    assert!(matches!(tokens[0].kind, TokenKind::Let));
    assert!(matches!(&tokens[1].kind, TokenKind::Ident(n) if n == "x"));
}

#[test]
fn empty_list_is_permitted() {
    let program = parse_program("let x = []").expect("parse should succeed");
    match &program.stmts[0] {
        mictylish::ast::Stmt::Let { expr, .. } => match expr {
            mictylish::ast::Expr::List(items, list_span) => {
                assert!(items.is_empty());
                assert_eq!(list_span, &span(8, 2));
            }
            other => panic!("expected list, got {other:?}"),
        },
    }
}

#[test]
fn nested_list_spans_cover_their_brackets() {
    let program = parse_program("let l = [[1], 2]").expect("parse should succeed");
    match &program.stmts[0] {
        mictylish::ast::Stmt::Let { expr, .. } => match expr {
            mictylish::ast::Expr::List(items, list_span) => {
                assert_eq!(list_span, &span(8, 8));
                assert_eq!(items.len(), 2);
                match &items[0] {
                    mictylish::ast::Expr::List(inner, inner_span) => {
                        assert_eq!(inner.len(), 1);
                        assert_eq!(inner_span, &span(9, 3));
                    }
                    other => panic!("expected inner list, got {other:?}"),
                }
            }
            other => panic!("expected list, got {other:?}"),
        },
    }
}

#[test]
fn missing_close_bracket_is_reported() {
    let err = parse_program("let x = [1, 2").expect_err("should fail");
    assert!(err.message.contains("expected ']' to close list"));
    assert_eq!(err.span, span(13, 0));
}

#[test]
fn reserved_keyword_is_not_an_expression() {
    let err = parse_program("let x = fn").expect_err("should fail");
    assert!(err.message.contains("expected expression, found reserved keyword"));
    assert_eq!(err.span, span(8, 2));
}

#[test]
fn non_statement_leading_token_is_reported() {
    let err = parse_program("42").expect_err("should fail");
    assert!(err.message.contains("expected statement, found integer literal"));
    assert_eq!(err.span, span(0, 2));
}

#[test]
fn several_statements_parse_in_order() {
    let program = parse_program("let a = 1 let b = a").expect("parse should succeed");
    assert_eq!(program.stmts.len(), 2);
    match &program.stmts[1] {
        mictylish::ast::Stmt::Let { name, expr, .. } => {
            assert_eq!(name, "b");
            assert!(matches!(expr, mictylish::ast::Expr::Var(v, _) if v == "a"));
        }
    }
}

#[test]
fn covering_works_in_either_order() {
    assert_eq!(covering(&span(5, 3), &span(0, 2)), span(0, 8));
    assert_eq!(covering(&span(0, 2), &span(5, 3)), span(0, 8));
    assert_eq!(covering(&span(2, 2), &span(2, 2)), span(2, 2));
}

#[test]
fn token_labels_name_the_kinds() {
    assert_eq!(token_label(&TokenKind::Eof), "end of input");
    assert_eq!(token_label(&TokenKind::Ident("q".to_string())), "identifier");
    assert_eq!(token_label(&TokenKind::RBracket), "`]`");
}

#[test]
fn empty_source_parses_to_empty_program() {
    let program = parse_program("").expect("parse should succeed");
    assert!(program.stmts.is_empty());
    let program = parse_program("   \n\t ").expect("parse should succeed");
    assert!(program.stmts.is_empty());
}

#[test]
fn parentheses_are_not_expressions_yet() {
    let err = parse_program("let x = (1)").expect_err("should fail");
    assert!(err.message.contains("expected expression, found `(`"));
    assert_eq!(err.span, span(8, 1));
}

#[test]
fn every_reserved_keyword_is_rejected_as_expression() {
    for source in [
        "let x = let",
        "let x = mut",
        "let x = set",
        "let x = when",
        "let x = do",
        "let x = end",
    ] {
        let err = parse_program(source).expect_err("should fail");
        assert!(
            err.message
                .contains("expected expression, found reserved keyword"),
            "actual message: {}",
            err.message
        );
        assert_eq!(err.span, span(8, source.len() - 8));
    }
}

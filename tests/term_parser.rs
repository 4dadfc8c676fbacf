use ll_parser_generator::parsing::index_to_line_col;
use ll_parser_generator::term_parser::{parse, AstTerm, ParseError, Token};

#[test]
fn term_parser_number() {
    assert!(matches!(parse(&vec![Token::Number]), Ok(AstTerm::Number)));
}

#[test]
fn term_parser_nested() {
    let r = parse(&vec![Token::LParen, Token::LParen, Token::Number, Token::RParen, Token::RParen]);
    match r {
        Ok(t) => assert_eq!(
            t,
            AstTerm::Paren(Box::new(AstTerm::Paren(Box::new(AstTerm::Number))))
        ),
        Err(e) => panic!("unexpected {:?}", e),
    }
}

#[test]
fn term_parser_unclosed() {
    assert!(matches!(
        parse(&vec![Token::LParen, Token::LParen, Token::Number, Token::RParen]),
        Err(ParseError::UnexpectedEOF)
    ));
}

#[test]
fn term_parser_wrong_close() {
    match parse(&vec![Token::LParen, Token::Number, Token::Number]) {
        Err(ParseError::UnrecognizedToken { expected, found }) => {
            assert_eq!(expected, vec![")"]);
            assert_eq!(found, Token::Number);
        }
        other => panic!("unexpected {:?}", other),
    }
}

#[test]
fn term_parser_missing_term() {
    match parse(&vec![Token::LParen, Token::RParen]) {
        Err(ParseError::UnrecognizedToken { expected, found }) => {
            assert_eq!(expected, vec!["\"(\"", "\"NUMBER\""]);
            assert_eq!(found, Token::RParen);
        }
        other => panic!("unexpected {:?}", other),
    }
}

#[test]
fn term_parser_rejects_trailing_tokens() {
    let r = parse(&vec![Token::Number, Token::RParen]);
    assert!(matches!(r, Err(ParseError::ExtraToken(Token::RParen))));
    let r = parse(&vec![Token::Number, Token::Number]);
    assert!(matches!(r, Err(ParseError::ExtraToken(Token::Number))));
}

#[test]
fn term_parser_extra_paren() {
    let r = parse(&vec![Token::LParen, Token::Number, Token::RParen, Token::RParen]);
    assert!(matches!(r, Err(ParseError::ExtraToken(Token::RParen))));
}

#[test]
fn term_parser_empty() {
    assert!(matches!(parse(&vec![]), Err(ParseError::UnexpectedEOF)));
}

#[test]
fn term_parser_error_token() {
    match parse(&vec![Token::Error]) {
        Err(ParseError::UnrecognizedToken { found, .. }) => assert_eq!(found, Token::Error),
        other => panic!("unexpected {:?}", other),
    }
}

#[test]
fn line_and_column_of_index() {
    let text = "token T {}\ngrammar;\n  pub A: () = ;";
    assert_eq!(index_to_line_col(text, 0), (1, 1));
    assert_eq!(index_to_line_col(text, 6), (1, 7));
    assert_eq!(index_to_line_col(text, 10), (1, 11));
    assert_eq!(index_to_line_col(text, 11), (2, 1));
    assert_eq!(index_to_line_col(text, 22), (3, 3));
    assert_eq!(index_to_line_col("", 0), (1, 1));
}

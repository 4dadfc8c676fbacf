use ll_parser_generator::lexer::{parse_action_code, Token};

#[test]
fn action_code_stops_at_comma() {
    assert_eq!(parse_action_code("n,\n    \"(\" <t:Term> \")\" => t,"), 1);
}

#[test]
fn action_code_keeps_balanced_brackets() {
    let text = "AstTerm::Paren(Box::new(t)),\n};";
    assert_eq!(parse_action_code(text), "AstTerm::Paren(Box::new(t))".len());
}

#[test]
fn action_code_commas_inside_brackets() {
    let text = "match p { Some((a, b)) => a, None => 0 };\nnext";
    assert_eq!(parse_action_code(text), text.find(';').unwrap());
}

#[test]
fn action_code_stops_at_unbalanced_close() {
    assert_eq!(parse_action_code("x + [1, 2][0] } rest"), "x + [1, 2][0] ".len());
}

#[test]
fn action_code_first_char_always_taken() {
    assert_eq!(parse_action_code(")"), 1);
    assert_eq!(parse_action_code(";;"), 1);
    assert_eq!(parse_action_code(""), 0);
}

#[test]
fn action_code_runs_to_end() {
    assert_eq!(parse_action_code("()"), 2);
}

#[test]
fn grammar_tokens_compare() {
    assert_eq!(Token::Identifier("Term".to_string()), Token::Identifier("Term".to_string()));
    assert_ne!(Token::Terminal("\"(\"".to_string()), Token::Terminal("\")\"".to_string()));
}

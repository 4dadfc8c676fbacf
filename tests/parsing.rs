use ll_parser_generator::ast::{
    AstGrammar, AstNonterminal, AstProduction, AstSymbol, AstTokenAlias, AstTokenDecl,
    AstTokenPattern, AstTypeRef,
};
use ll_parser_generator::driver::{parse, ParseError, ParseTree, ParserTables};
use ll_parser_generator::generator::{build_parser_tables, GeneratorError};
use ll_parser_generator::start_wrapper::GrammarError;

fn token_alias(term: &str, variant: &str) -> AstTokenAlias {
    AstTokenAlias {
        term: format!("\"{}\"", term),
        pattern: AstTokenPattern { ty: "Token".to_string(), variant: variant.to_string() },
    }
}

/// `'x` is the terminal "x", `name:N` binds nonterminal N, anything else is
/// a nonterminal.
fn symbol(s: &str) -> AstSymbol {
    if let Some(t) = s.strip_prefix('\'') {
        AstSymbol::Terminal(format!("\"{}\"", t))
    } else if let Some((name, n)) = s.split_once(':') {
        AstSymbol::Named(name.to_string(), n.to_string())
    } else {
        AstSymbol::Nonterminal(s.to_string())
    }
}

fn production(symbols: &[&str], code: &str) -> AstProduction {
    AstProduction { symbols: symbols.iter().map(|s| symbol(s)).collect(), code: code.to_string() }
}

fn nonterminal(is_pub: bool, name: &str, ty: &str, productions: Vec<AstProduction>) -> AstNonterminal {
    AstNonterminal {
        is_pub,
        name: name.to_string(),
        ty: AstTypeRef::simple_ty(vec![ty.to_string()]),
        productions,
    }
}

fn make_grammar(aliases: Vec<AstTokenAlias>, nonterminals: Vec<AstNonterminal>) -> AstGrammar {
    AstGrammar {
        imports: vec!["crate::Token".to_string()],
        token_decl: AstTokenDecl { name: "Token".to_string(), aliases },
        nonterminals,
    }
}

// ---- parenthesized numbers ----

#[derive(Debug, Clone, Copy, PartialEq, Eq)]
enum Token {
    LParen,
    RParen,
    Number,
    Mul,
    Div,
    Add,
    Sub,
}

#[derive(Debug, PartialEq, Eq)]
enum AstTerm {
    Number,
    Paren(Box<AstTerm>),
    Calculated { operation: AstOperation, left: Box<AstTerm>, right: Box<AstTerm> },
}

#[derive(Debug, PartialEq, Eq)]
enum AstOperation {
    Add,
    Subtract,
    Multiply,
    Divide,
}

fn paren_grammar() -> AstGrammar {
    make_grammar(
        vec![
            token_alias("(", "LParen"),
            token_alias(")", "RParen"),
            token_alias("NUMBER", "Number"),
        ],
        vec![
            nonterminal(
                true,
                "Term",
                "AstTerm",
                vec![
                    production(&["n:Number"], "n"),
                    production(&["'(", "t:Term", "')"], "AstTerm::Paren(Box::new(t))"),
                ],
            ),
            nonterminal(false, "Number", "AstTerm", vec![production(&["'NUMBER"], "AstTerm::Number")]),
        ],
    )
}

fn paren_tables() -> ParserTables {
    let mut g = paren_grammar();
    match build_parser_tables(&mut g) {
        Ok(t) => t,
        Err(e) => panic!("grammar refused: {:?}", e),
    }
}

fn paren_terminal(t: Token) -> usize {
    match t {
        Token::LParen => 0,
        Token::RParen => 1,
        Token::Number => 2,
        _ => panic!("not a token of this grammar"),
    }
}

/// The user's actions of the parenthesized-number grammar, run bottom-up.
fn paren_value(tree: &ParseTree) -> AstTerm {
    match tree.production {
        0 => paren_value(&tree.children[0]),
        1 => AstTerm::Paren(Box::new(paren_value(&tree.children[0]))),
        2 => AstTerm::Number,
        3 => paren_value(&tree.children[0]),
        p => panic!("unknown production {}", p),
    }
}

fn parse_parens(tokens: &[Token]) -> Result<AstTerm, ParseError> {
    let tables = paren_tables();
    let input: Vec<usize> = tokens.iter().map(|t| paren_terminal(*t)).collect();
    parse(&tables, &input).map(|tree| paren_value(&tree))
}

#[test]
fn simple_input() {
    let result = parse_parens(&[Token::LParen, Token::Number, Token::RParen]);
    assert_eq!(result, Ok(AstTerm::Paren(Box::new(AstTerm::Number))));
}

#[test]
fn just_one_number() {
    let result = parse_parens(&[Token::Number]);
    assert_eq!(result, Ok(AstTerm::Number));
}

#[test]
fn many_parens() {
    let mut input = vec![Token::LParen; 5];
    input.push(Token::Number);
    input.extend(vec![Token::RParen; 5]);
    let result = parse_parens(&input);
    assert_eq!(
        result,
        Ok(AstTerm::Paren(Box::new(AstTerm::Paren(Box::new(AstTerm::Paren(Box::new(
            AstTerm::Paren(Box::new(AstTerm::Paren(Box::new(AstTerm::Number))))
        )))))))
    );
}

#[test]
fn unmatched_parens() {
    let result = parse_parens(&[Token::LParen, Token::LParen, Token::Number, Token::RParen]);
    assert_eq!(result, Err(ParseError::UnexpectedEOF));
}

#[test]
fn extra_paren() {
    let result = parse_parens(&[Token::LParen, Token::Number, Token::RParen, Token::RParen]);
    assert_eq!(result, Err(ParseError::ExtraToken(paren_terminal(Token::RParen))));
}

#[test]
fn extra_number() {
    let result = parse_parens(&[Token::LParen, Token::Number, Token::Number, Token::RParen]);
    assert_eq!(
        result,
        Err(ParseError::UnrecognizedToken {
            expected: vec![")".to_string()],
            found: paren_terminal(Token::Number)
        })
    );
}

#[test]
fn missing_number() {
    let result = parse_parens(&[Token::LParen, Token::RParen]);
    assert_eq!(
        result,
        Err(ParseError::UnrecognizedToken {
            expected: vec!["\"(\"".to_string(), "\"NUMBER\"".to_string()],
            found: paren_terminal(Token::RParen)
        })
    );
}

#[test]
fn parse_tree_of_nested_input() {
    let tables = paren_tables();
    let tree = parse(&tables, &vec![0, 2, 1]).unwrap();
    // The wrapper's production, around `"(" Term ")"`, around `<n:Number>`.
    assert_eq!(tree.nonterminal, tables.start);
    assert_eq!(tree.production, 3);
    assert_eq!(tree.children.len(), 1);
    assert_eq!(tree.children[0].production, 1);
    assert_eq!(tree.children[0].children[0].production, 0);
    assert_eq!(tree.children[0].children[0].children[0].production, 2);
    assert!(tree.children[0].children[0].children[0].children.is_empty());
}

#[test]
fn empty_input_is_unexpected_eof() {
    assert_eq!(parse_parens(&[]), Err(ParseError::UnexpectedEOF));
}

#[test]
fn wrapper_adds_eof_and_start() {
    let tables = paren_tables();
    assert_eq!(tables.num_terms, 4);
    assert_eq!(tables.eof, 3);
    assert_eq!(tables.terminal_names[3], "\"__eof\"");
    assert_eq!(tables.start, 6);
    assert_eq!(tables.rules.len(), 4);
    assert_eq!(tables.rules[3].lhs, 6);
    assert_eq!(tables.rules[3].rhs, vec![4, 3]);
}

// ---- arithmetic ----

fn arithmetic_grammar() -> AstGrammar {
    make_grammar(
        vec![
            token_alias("NUMBER", "Number"),
            token_alias("(", "LParen"),
            token_alias(")", "RParen"),
            token_alias("*", "Mul"),
            token_alias("/", "Div"),
            token_alias("-", "Sub"),
            token_alias("+", "Add"),
        ],
        vec![
            nonterminal(true, "Term0", "AstTerm", vec![production(&["left:Term1", "part2:Term0Part2"], "")]),
            nonterminal(
                false,
                "Term0Part2",
                "Option",
                vec![production(&["operation:Operation0", "right:Term0"], ""), production(&[], "None")],
            ),
            nonterminal(
                false,
                "Operation0",
                "AstOperation",
                vec![production(&["'+"], "AstOperation::Add"), production(&["'-"], "AstOperation::Subtract")],
            ),
            nonterminal(false, "Term1", "AstTerm", vec![production(&["left:Term2", "part2:Term1Part2"], "")]),
            nonterminal(
                false,
                "Term1Part2",
                "Option",
                vec![production(&["operation:Operation1", "right:Term1"], ""), production(&[], "None")],
            ),
            nonterminal(
                false,
                "Operation1",
                "AstOperation",
                vec![
                    production(&["'*"], "AstOperation::Multiply"),
                    production(&["'/"], "AstOperation::Divide"),
                ],
            ),
            nonterminal(
                false,
                "Term2",
                "AstTerm",
                vec![production(&["'NUMBER"], "AstTerm::Number"), production(&["'(", "inner:Term0", "')"], "inner")],
            ),
        ],
    )
}

fn arithmetic_terminal(t: Token) -> usize {
    match t {
        Token::Number => 0,
        Token::LParen => 1,
        Token::RParen => 2,
        Token::Mul => 3,
        Token::Div => 4,
        Token::Sub => 5,
        Token::Add => 6,
    }
}

fn arithmetic_term(tree: &ParseTree) -> AstTerm {
    match tree.production {
        0 | 5 => {
            let left = arithmetic_term(&tree.children[0]);
            match arithmetic_part(&tree.children[1]) {
                Some((operation, right)) => AstTerm::Calculated {
                    operation,
                    left: Box::new(left),
                    right: Box::new(right),
                },
                None => left,
            }
        }
        10 => AstTerm::Number,
        11 | 12 => arithmetic_term(&tree.children[0]),
        p => panic!("not a term production {}", p),
    }
}

fn arithmetic_part(tree: &ParseTree) -> Option<(AstOperation, AstTerm)> {
    match tree.production {
        1 | 6 => Some((arithmetic_operation(&tree.children[0]), arithmetic_term(&tree.children[1]))),
        2 | 7 => None,
        p => panic!("not a tail production {}", p),
    }
}

fn arithmetic_operation(tree: &ParseTree) -> AstOperation {
    match tree.production {
        3 => AstOperation::Add,
        4 => AstOperation::Subtract,
        8 => AstOperation::Multiply,
        9 => AstOperation::Divide,
        p => panic!("not an operation production {}", p),
    }
}

fn parse_arithmetic(tokens: &[Token]) -> Result<AstTerm, ParseError> {
    let mut g = arithmetic_grammar();
    let tables = build_parser_tables(&mut g).unwrap();
    let input: Vec<usize> = tokens.iter().map(|t| arithmetic_terminal(*t)).collect();
    parse(&tables, &input).map(|tree| arithmetic_term(&tree))
}

#[test]
fn number() {
    let result = parse_arithmetic(&[Token::Number]);
    assert_eq!(result, Ok(AstTerm::Number));
}

#[test]
fn add() {
    let result = parse_arithmetic(&[Token::Number, Token::Add, Token::Number]);
    assert_eq!(
        result,
        Ok(AstTerm::Calculated {
            operation: AstOperation::Add,
            left: Box::new(AstTerm::Number),
            right: Box::new(AstTerm::Number)
        })
    )
}

#[test]
fn basic_associativity() {
    let result =
        parse_arithmetic(&[Token::Number, Token::Add, Token::Number, Token::Mul, Token::Number]);
    assert_eq!(
        result,
        Ok(AstTerm::Calculated {
            operation: AstOperation::Add,
            left: Box::new(AstTerm::Number),
            right: Box::new(AstTerm::Calculated {
                operation: AstOperation::Multiply,
                left: Box::new(AstTerm::Number),
                right: Box::new(AstTerm::Number)
            })
        })
    );
}

#[test]
fn advanced_associativity() {
    let result = parse_arithmetic(&[
        Token::LParen,
        Token::Number,
        Token::Sub,
        Token::Number,
        Token::RParen,
        Token::Div,
        Token::LParen,
        Token::Number,
        Token::Mul,
        Token::Number,
        Token::RParen,
    ]);
    assert_eq!(
        result,
        Ok(AstTerm::Calculated {
            operation: AstOperation::Divide,
            left: Box::new(AstTerm::Calculated {
                operation: AstOperation::Subtract,
                left: Box::new(AstTerm::Number),
                right: Box::new(AstTerm::Number)
            }),
            right: Box::new(AstTerm::Calculated {
                operation: AstOperation::Multiply,
                left: Box::new(AstTerm::Number),
                right: Box::new(AstTerm::Number)
            })
        })
    );
}

#[test]
fn missing_operand() {
    let result = parse_arithmetic(&[Token::Number, Token::Add]);
    assert_eq!(result, Err(ParseError::UnexpectedEOF));
}

#[test]
fn missing_operation() {
    let result = parse_arithmetic(&[Token::Number, Token::Number]);
    assert_eq!(
        result,
        Err(ParseError::UnrecognizedToken {
            expected: vec!["\"*\"".to_string(), "\"/\"".to_string()],
            found: arithmetic_terminal(Token::Number)
        })
    )
}

// ---- grammar defects ----

#[test]
fn no_public_start_is_refused() {
    let mut g = paren_grammar();
    g.nonterminals[0].is_pub = false;
    let mut expected = paren_grammar();
    expected.nonterminals[0].is_pub = false;
    assert_eq!(
        build_parser_tables(&mut g).err(),
        Some(GeneratorError::Grammar(GrammarError::NoPublicStart))
    );
    assert_eq!(g, expected);
}

#[test]
fn several_public_starts_are_refused() {
    let mut g = paren_grammar();
    g.nonterminals[1].is_pub = true;
    assert_eq!(
        build_parser_tables(&mut g).err(),
        Some(GeneratorError::Grammar(GrammarError::MultiplePublicStarts))
    );
}

#[test]
fn reserved_names_are_refused() {
    let mut g = paren_grammar();
    g.nonterminals[1].name = "__start_wrapper".to_string();
    g.nonterminals[0].productions[0].symbols[0] =
        AstSymbol::Named("n".to_string(), "__start_wrapper".to_string());
    assert_eq!(
        build_parser_tables(&mut g).err(),
        Some(GeneratorError::Grammar(GrammarError::ReservedName))
    );

    let mut g = paren_grammar();
    g.token_decl.aliases[2].term = "\"__eof\"".to_string();
    g.nonterminals[1].productions[0].symbols[0] = AstSymbol::Terminal("\"__eof\"".to_string());
    assert_eq!(
        build_parser_tables(&mut g).err(),
        Some(GeneratorError::Grammar(GrammarError::ReservedName))
    );
}

#[test]
fn left_factoring_conflict_is_reported() {
    // S -> "a" "b" | "a" "c": both choices begin with "a".
    let mut g = make_grammar(
        vec![token_alias("a", "A"), token_alias("b", "B"), token_alias("c", "C")],
        vec![nonterminal(
            true,
            "S",
            "()",
            vec![production(&["'a", "'b"], "()"), production(&["'a", "'c"], "()")],
        )],
    );
    match build_parser_tables(&mut g) {
        Err(GeneratorError::Conflict(c)) => {
            assert_eq!(c.nonterminal, 0);
            assert_eq!(c.lookahead, 0);
            assert_eq!(c.productions, vec![0, 1]);
        }
        other => panic!("expected a conflict, got {:?}", other.err()),
    }
}

#[test]
fn optional_nonterminal() {
    // S -> A, A -> "x" | ε.
    let mut g = make_grammar(
        vec![token_alias("x", "X"), token_alias("y", "Y")],
        vec![
            nonterminal(true, "S", "()", vec![production(&["A"], "()")]),
            nonterminal(false, "A", "()", vec![production(&["'x"], "()"), production(&[], "()")]),
        ],
    );
    let tables = build_parser_tables(&mut g).unwrap();
    assert_eq!(
        parse(&tables, &vec![1]),
        Err(ParseError::UnrecognizedToken { expected: vec!["\"x\"".to_string()], found: 1 })
    );
    assert_eq!(parse(&tables, &vec![0, 0]), Err(ParseError::ExtraToken(0)));
    assert!(parse(&tables, &vec![]).is_ok());
    assert!(parse(&tables, &vec![0]).is_ok());
}

#[test]
fn end_of_input_alone_is_named() {
    // S -> ε: only the end of input may come.
    let mut g = make_grammar(
        vec![token_alias("x", "X")],
        vec![nonterminal(true, "S", "()", vec![production(&[], "()")])],
    );
    let tables = build_parser_tables(&mut g).unwrap();
    assert_eq!(
        parse(&tables, &vec![0]),
        Err(ParseError::UnrecognizedToken { expected: vec!["end of input".to_string()], found: 0 })
    );
    assert!(parse(&tables, &vec![]).is_ok());
}

#[test]
fn repeated_parses_agree() {
    let tables = paren_tables();
    for input in [vec![0, 2, 1], vec![0, 1], vec![0, 0, 2, 1], vec![2, 2]] {
        assert_eq!(parse(&tables, &input), parse(&tables, &input));
    }
}

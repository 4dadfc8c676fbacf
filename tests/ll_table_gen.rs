use ll_parser_generator::ast::{
    AstGrammar, AstNonterminal, AstProduction, AstSymbol, AstTokenAlias, AstTokenDecl,
    AstTokenPattern, AstTypeRef,
};
use ll_parser_generator::ll_table_gen::{
    compute_first, compute_follow, compute_nullable, compute_parse_table, find_conflict,
};
use ll_parser_generator::start_wrapper::insert_wrapper_start_nonterm;
use std::collections::{HashMap, HashSet};

fn alias(term: &str, variant: &str) -> AstTokenAlias {
    AstTokenAlias {
        term: format!("\"{}\"", term),
        pattern: AstTokenPattern { ty: "Token".to_string(), variant: variant.to_string() },
    }
}

/// A symbol as the grammar language writes it: quoted for a terminal.
fn sym(s: &str) -> AstSymbol {
    if let Some(t) = s.strip_prefix('\'') {
        AstSymbol::Terminal(format!("\"{}\"", t))
    } else {
        AstSymbol::Nonterminal(s.to_string())
    }
}

fn prod(symbols: &[&str], code: &str) -> AstProduction {
    AstProduction { symbols: symbols.iter().map(|s| sym(s)).collect(), code: code.to_string() }
}

fn nonterm(is_pub: bool, name: &str, productions: Vec<AstProduction>) -> AstNonterminal {
    AstNonterminal { is_pub, name: name.to_string(), ty: AstTypeRef::Tuple(Vec::new()), productions }
}

fn grammar(aliases: Vec<AstTokenAlias>, nonterminals: Vec<AstNonterminal>) -> AstGrammar {
    AstGrammar {
        imports: Vec::new(),
        token_decl: AstTokenDecl { name: "Token".to_string(), aliases },
        nonterminals,
    }
}

fn symbol_names(ast: &AstGrammar) -> Vec<String> {
    let mut names = ast.terminals();
    names.extend(ast.nonterminals());
    names
}

fn nullable_map(ast: &AstGrammar, nullable: &[bool]) -> HashMap<String, bool> {
    symbol_names(ast).into_iter().zip(nullable.iter().copied()).collect()
}

fn set_map(ast: &AstGrammar, sets: &[Vec<bool>], nonterminals_only: bool) -> HashMap<String, HashSet<String>> {
    let terms = ast.terminals();
    let skip = if nonterminals_only { terms.len() } else { 0 };
    symbol_names(ast)
        .into_iter()
        .zip(sets.iter())
        .skip(skip)
        .map(|(name, row)| {
            let set = terms
                .iter()
                .zip(row.iter())
                .filter(|(_, b)| **b)
                .map(|(t, _)| t.clone())
                .collect();
            (name, set)
        })
        .collect()
}

fn strs(items: &[&str]) -> HashSet<String> {
    items.iter().map(|s| s.to_string()).collect()
}

fn infix_grammar() -> AstGrammar {
    grammar(
        vec![
            alias("var", "Var"),
            alias("(", "LParen"),
            alias(")", "RParen"),
            alias("!", "Not"),
            alias("&&", "And"),
            alias("||", "Or"),
        ],
        vec![
            nonterm(true, "P", vec![prod(&["O"], "()")]),
            nonterm(false, "O", vec![prod(&["A", "OP"], "()")]),
            nonterm(false, "OP", vec![prod(&["'||", "A", "OP"], "()"), prod(&[], "()")]),
            nonterm(false, "A", vec![prod(&["Z", "AP"], "()")]),
            nonterm(false, "AP", vec![prod(&["'&&", "Z", "AP"], "()"), prod(&[], "()")]),
            nonterm(
                false,
                "Z",
                vec![prod(&["'var"], "()"), prod(&["'!", "Z"], "()"), prod(&["'(", "P", "')"], "()")],
            ),
        ],
    )
}

#[test]
fn nullable_basic_grammar() {
    let ast = grammar(
        vec![alias("a", "A")],
        vec![
            nonterm(false, "MyNonterminal", vec![prod(&["'a"], "()")]),
            nonterm(false, "MyEmptyNonterminal", vec![prod(&[], "()")]),
        ],
    );

    let expected: HashMap<String, bool> = [
        ("MyNonterminal".to_string(), false),
        ("MyEmptyNonterminal".to_string(), true),
        ("\"a\"".to_string(), false),
    ]
    .into_iter()
    .collect();
    assert_eq!(nullable_map(&ast, &compute_nullable(&ast)), expected);
}

#[test]
fn infix_parens() {
    let ast = infix_grammar();

    let nullable = compute_nullable(&ast);
    let expected: HashMap<String, bool> = [
        ("P", false),
        ("O", false),
        ("OP", true),
        ("A", false),
        ("AP", true),
        ("Z", false),
        ("\"var\"", false),
        ("\"(\"", false),
        ("\")\"", false),
        ("\"!\"", false),
        ("\"&&\"", false),
        ("\"||\"", false),
    ]
    .into_iter()
    .map(|(k, v)| (k.to_string(), v))
    .collect();
    assert_eq!(nullable_map(&ast, &nullable), expected);

    let first = compute_first(&ast, &nullable);
    let begin = strs(&["\"var\"", "\"!\"", "\"(\""]);
    let expected: HashMap<String, HashSet<String>> = [
        ("P", begin.clone()),
        ("O", begin.clone()),
        ("OP", strs(&["\"||\""])),
        ("A", begin.clone()),
        ("AP", strs(&["\"&&\""])),
        ("Z", begin.clone()),
        ("\"var\"", strs(&["\"var\""])),
        ("\"(\"", strs(&["\"(\""])),
        ("\")\"", strs(&["\")\""])),
        ("\"!\"", strs(&["\"!\""])),
        ("\"&&\"", strs(&["\"&&\""])),
        ("\"||\"", strs(&["\"||\""])),
    ]
    .into_iter()
    .map(|(k, v)| (k.to_string(), v))
    .collect();
    assert_eq!(set_map(&ast, &first, false), expected);

    let follow = compute_follow(&ast, &nullable, &first);
    let expected: HashMap<String, HashSet<String>> = [
        ("P", strs(&["\")\""])),
        ("O", strs(&["\")\""])),
        ("OP", strs(&["\")\""])),
        ("A", strs(&["\"||\"", "\")\""])),
        ("AP", strs(&["\"||\"", "\")\""])),
        ("Z", strs(&["\"||\"", "\"&&\"", "\")\""])),
    ]
    .into_iter()
    .map(|(k, v)| (k.to_string(), v))
    .collect();
    assert_eq!(set_map(&ast, &follow, true), expected);

    let table = compute_parse_table(&ast, &nullable, &first, &follow);
    let productions: Vec<AstProduction> =
        ast.nonterminals.iter().flat_map(|n| n.productions.iter().cloned()).collect();
    let terms = ast.terminals();
    let nonterms = ast.nonterminals();
    let mut actual: HashMap<(String, String), HashSet<AstProduction>> = HashMap::new();
    for (a, row) in table.iter().enumerate() {
        for (t, cell) in row.iter().enumerate() {
            let set = cell.iter().map(|p| productions[*p].clone()).collect();
            actual.insert((nonterms[a].clone(), terms[t].clone()), set);
        }
    }

    let code = "()";
    let mut expected: HashMap<(String, String), HashSet<AstProduction>> = HashMap::new();
    for n in ["P", "O", "OP", "A", "AP", "Z"] {
        for t in ["\"var\"", "\"(\"", "\")\"", "\"!\"", "\"&&\"", "\"||\""] {
            expected.insert((n.to_string(), t.to_string()), HashSet::new());
        }
    }
    let mut put = |n: &str, t: &str, symbols: &[&str]| {
        expected.get_mut(&(n.to_string(), t.to_string())).unwrap().insert(prod(symbols, code));
    };
    put("P", "\"var\"", &["O"]);
    put("P", "\"!\"", &["O"]);
    put("P", "\"(\"", &["O"]);
    put("O", "\"var\"", &["A", "OP"]);
    put("O", "\"!\"", &["A", "OP"]);
    put("O", "\"(\"", &["A", "OP"]);
    put("OP", "\"||\"", &["'||", "A", "OP"]);
    put("OP", "\")\"", &[]);
    put("A", "\"var\"", &["Z", "AP"]);
    put("A", "\"!\"", &["Z", "AP"]);
    put("A", "\"(\"", &["Z", "AP"]);
    put("AP", "\"&&\"", &["'&&", "Z", "AP"]);
    put("AP", "\"||\"", &[]);
    put("AP", "\")\"", &[]);
    put("Z", "\"var\"", &["'var"]);
    put("Z", "\"!\"", &["'!", "Z"]);
    put("Z", "\"(\"", &["'(", "P", "')"]);
    assert_eq!(actual, expected);
}

#[test]
fn wrapped_boolean_grammar_analyses() {
    let mut ast = infix_grammar();
    assert_eq!(insert_wrapper_start_nonterm(&mut ast), Ok(()));
    let nullable = compute_nullable(&ast);
    let nullable_names: HashSet<String> = nullable_map(&ast, &nullable)
        .into_iter()
        .filter(|(_, b)| *b)
        .map(|(n, _)| n)
        .collect();
    assert_eq!(nullable_names, strs(&["OP", "AP"]));

    let first = compute_first(&ast, &nullable);
    let first = set_map(&ast, &first, true);
    let begin = strs(&["\"var\"", "\"!\"", "\"(\""]);
    for n in ["P", "O", "A", "Z", "__start_wrapper"] {
        assert_eq!(first[n], begin);
    }
    assert_eq!(first["OP"], strs(&["\"||\""]));
    assert_eq!(first["AP"], strs(&["\"&&\""]));

    let first_rows = compute_first(&ast, &nullable);
    let follow = compute_follow(&ast, &nullable, &first_rows);
    let follow = set_map(&ast, &follow, true);
    let eof = "\"__eof\"";
    for n in ["P", "O", "OP"] {
        assert_eq!(follow[n], strs(&["\")\"", eof]));
    }
    for n in ["A", "AP"] {
        assert_eq!(follow[n], strs(&["\"||\"", "\")\"", eof]));
    }
    assert_eq!(follow["Z"], strs(&["\"||\"", "\"&&\"", "\")\"", eof]));
    assert!(follow["__start_wrapper"].is_empty());
}

#[test]
fn boolean_grammar_has_no_conflict() {
    let ast = infix_grammar();
    let nullable = compute_nullable(&ast);
    let first = compute_first(&ast, &nullable);
    let follow = compute_follow(&ast, &nullable, &first);
    let table = compute_parse_table(&ast, &nullable, &first, &follow);
    assert!(find_conflict(&table).is_none());
}

#[test]
fn ambiguous_nullable_conflict_is_found() {
    // S -> A "a"; A -> "a" | ε: on "a" both choices of A apply.
    let ast = grammar(
        vec![alias("a", "A")],
        vec![
            nonterm(true, "S", vec![prod(&["A", "'a"], "()")]),
            nonterm(false, "A", vec![prod(&["'a"], "()"), prod(&[], "()")]),
        ],
    );
    let nullable = compute_nullable(&ast);
    let first = compute_first(&ast, &nullable);
    let follow = compute_follow(&ast, &nullable, &first);
    let table = compute_parse_table(&ast, &nullable, &first, &follow);
    let conflict = find_conflict(&table).unwrap();
    assert_eq!(conflict.nonterminal, 1);
    assert_eq!(conflict.lookahead, 0);
    assert_eq!(conflict.productions, vec![1, 2]);
}

#[test]
fn empty_grammar_analyses() {
    let ast = grammar(Vec::new(), Vec::new());
    assert!(compute_nullable(&ast).is_empty());
    let nullable = compute_nullable(&ast);
    let first = compute_first(&ast, &nullable);
    assert!(first.is_empty());
    let follow = compute_follow(&ast, &nullable, &first);
    assert!(follow.is_empty());
    assert!(compute_parse_table(&ast, &nullable, &first, &follow).is_empty());
}

#[test]
fn nullable_through_a_chain() {
    // A -> B C, B -> ε, C -> B: all nullable; D -> A "a" is not.
    let ast = grammar(
        vec![alias("a", "A")],
        vec![
            nonterm(false, "A", vec![prod(&["B", "C"], "()")]),
            nonterm(false, "B", vec![prod(&[], "()")]),
            nonterm(false, "C", vec![prod(&["B"], "()")]),
            nonterm(false, "D", vec![prod(&["A", "'a"], "()")]),
        ],
    );
    assert_eq!(compute_nullable(&ast), vec![false, true, true, true, false]);
}

#[test]
fn grammar_accessors() {
    let ast = infix_grammar();
    assert_eq!(ast.terminals()[0], "\"var\"");
    assert_eq!(ast.nonterminals(), vec!["P", "O", "OP", "A", "AP", "Z"]);
    let rules = ast.resolved_productions();
    assert_eq!(rules.len(), 10);
    // OP -> "||" A OP: symbols numbered terminals first.
    assert_eq!(rules[2].lhs, 6 + 2);
    assert_eq!(rules[2].rhs, vec![5, 6 + 3, 6 + 2]);
    assert!(rules[3].rhs.is_empty());
    assert_eq!(ast.symbol_index(&AstSymbol::Terminal("\"(\"".to_string())), 1);
    assert_eq!(ast.symbol_index(&AstSymbol::Named("x".to_string(), "Z".to_string())), 11);
    assert_eq!(AstSymbol::Named("x".to_string(), "Z".to_string()).term_or_nonterm(), "Z");
}

#[test]
fn simple_type_path() {
    let ty = AstTypeRef::simple_ty(vec!["std".to_string(), "string".to_string(), "String".to_string()]);
    match ty {
        AstTypeRef::Ty(path, generics) => {
            assert!(!path.is_absolute);
            assert_eq!(path.segments, vec!["std", "string", "String"]);
            assert!(generics.is_empty());
        }
        AstTypeRef::Tuple(_) => panic!("expected a path type"),
    }
}

#[test]
fn wrapper_keeps_the_start_type() {
    let mut ast = infix_grammar();
    ast.nonterminals[0].ty = AstTypeRef::simple_ty(vec!["Expr".to_string()]);
    insert_wrapper_start_nonterm(&mut ast).unwrap();
    assert!(!ast.nonterminals[0].is_pub);
    let w = ast.nonterminals.last().unwrap();
    assert!(w.is_pub);
    assert_eq!(w.name, "__start_wrapper");
    assert_eq!(w.ty, AstTypeRef::simple_ty(vec!["Expr".to_string()]));
    assert_eq!(
        w.productions,
        vec![AstProduction {
            symbols: vec![
                AstSymbol::Named("result".to_string(), "P".to_string()),
                AstSymbol::Terminal("\"__eof\"".to_string()),
            ],
            code: "result".to_string(),
        }]
    );
    let eof = ast.token_decl.aliases.last().unwrap();
    assert_eq!(eof.term, "\"__eof\"");
    assert_eq!(eof.pattern.ty, "Token");
    assert_eq!(eof.pattern.variant, "__eof");
}

#[test]
fn productions_with_owner_names() {
    let ast = infix_grammar();
    let prods = ast.productions();
    assert_eq!(prods.len(), 10);
    assert_eq!(prods[0].0, "P");
    assert_eq!(prods[0].1, prod(&["O"], "()"));
    assert_eq!(prods[2].0, "OP");
    assert_eq!(prods[2].1, prod(&["'||", "A", "OP"], "()"));
    assert_eq!(prods[3].0, "OP");
    assert!(prods[3].1.symbols.is_empty());
    assert_eq!(prods[9].0, "Z");
    assert_eq!(prods[9].1, prod(&["'(", "P", "')"], "()"));
}

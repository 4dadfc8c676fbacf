//! A hand-written predictive parser for parenthesized numbers, laid out as the
//! generator lays out its parsers: a work stack of symbols and reductions, and
//! a value stack of tagged results. Its grammar:
//!
//! ```text
//! pub Term: AstTerm = {
//!     <n:Number> => n,
//!     "(" <t:Term> ")" => AstTerm::Paren(Box::new(t)),
//! };
//! Number: AstTerm = "NUMBER" => AstTerm::Number;
//! ```
use vstd::prelude::*;

verus! {

/// The tokens of the input.
#[derive(Clone, Copy, Debug, PartialEq, Eq, Structural)]
pub enum Token {
    RParen,
    LParen,
    Number,
    Error,
}

/// A parsed term.
#[derive(Debug, PartialEq, Eq)]
pub enum AstTerm {
    Number,
    Paren(Box<AstTerm>),
}

/// Why the input is not a term.
#[derive(Debug)]
pub enum ParseError {
    UnexpectedEOF,
    ExtraToken(Token),
    UnrecognizedToken { expected: Vec<&'static str>, found: Token },
}

enum Symbol {
    Term0,  // "("
    Term1,  // ")"
    Term2,  // "NUMBER"
    Nonterm0,  // Term
    Nonterm1,  // Number
}

/// The reduction of one production, by nonterminal and production number.
enum Reduction {
    Nonterm0Prod0,
    Nonterm0Prod1,
    Nonterm1Prod0,
}

enum SymbolOrReduction {
    Symbol(Symbol),
    Reduction(Reduction),
}

enum ActionResult {
    Nonterm0(AstTerm),
    Nonterm1(AstTerm),
}

impl Symbol {
    fn is_terminal(&self) -> (r: bool)
        ensures
            r == (self is Term0 || self is Term1 || self is Term2),
    {
        matches!(self, Symbol::Term0 | Symbol::Term1 | Symbol::Term2)
    }

    fn name(&self) -> (r: &'static str)
        ensures
            self is Term0 ==> r@ == "("@,
            self is Term1 ==> r@ == ")"@,
            self is Term2 ==> r@ == "NUMBER"@,
            self is Nonterm0 ==> r@ == "Term"@,
            self is Nonterm1 ==> r@ == "Number"@,
    {
        match self {
            Symbol::Term0 => "(",
            Symbol::Term1 => ")",
            Symbol::Term2 => "NUMBER",
            Symbol::Nonterm0 => "Term",
            Symbol::Nonterm1 => "Number",
        }
    }

    /// Whether a terminal symbol matches the token; a nonterminal matches none.
    fn matches_token(&self, other: &Token) -> (r: bool)
        ensures
            r == ((self is Term0 && *other == Token::LParen) || (self is Term1 && *other
                == Token::RParen) || (self is Term2 && *other == Token::Number)),
    {
        match self {
            Symbol::Term0 => matches!(other, Token::LParen),
            Symbol::Term1 => matches!(other, Token::RParen),
            Symbol::Term2 => matches!(other, Token::Number),
            _ => false,
        }
    }
}

/// Where the parse of a term fails, by token position.
#[derive(Clone, Copy, Debug, PartialEq, Eq, Structural)]
pub enum TermFailure {
    EndOfInput,
    ExpectedClose(usize),
    ExpectedTerm(usize),
}

/// Closes a parenthesis after the inner term `inner`.
pub open spec fn close_paren(tokens: Seq<Token>, inner: Result<(AstTerm, int), TermFailure>) -> Result<
    (AstTerm, int),
    TermFailure,
> {
    match inner {
        Ok((t, j)) => if j >= tokens.len() {
            Err(TermFailure::EndOfInput)
        } else if tokens[j] == Token::RParen {
            Ok((AstTerm::Paren(Box::new(t)), j + 1))
        } else {
            Err(TermFailure::ExpectedClose(j as usize))
        },
        Err(e) => Err(e),
    }
}

/// The term that starts at position `i` and the position after it, or where
/// and why there is none.
pub open spec fn term_at(tokens: Seq<Token>, i: int) -> Result<(AstTerm, int), TermFailure>
    decreases tokens.len() - i,
{
    if i < 0 || i >= tokens.len() {
        Err(TermFailure::EndOfInput)
    } else if tokens[i] == Token::LParen {
        close_paren(tokens, term_at(tokens, i + 1))
    } else if tokens[i] == Token::Number {
        Ok((AstTerm::Number, i + 1))
    } else {
        Err(TermFailure::ExpectedTerm(i as usize))
    }
}

/// `d` parentheses closed around `inner`.
pub open spec fn close_parens(tokens: Seq<Token>, d: nat, inner: Result<(AstTerm, int), TermFailure>) -> Result<
    (AstTerm, int),
    TermFailure,
>
    decreases d,
{
    if d == 0 {
        inner
    } else {
        close_parens(tokens, (d - 1) as nat, close_paren(tokens, inner))
    }
}

/// The parser's result reports `o`: the term when it spans all the tokens,
/// the first token after it when it does not, or the error for the failure.
pub open spec fn reports(r: Result<AstTerm, ParseError>, tokens: Seq<Token>, o: Result<(AstTerm, int), TermFailure>) -> bool {
    match o {
        Ok((t, j)) => if j == tokens.len() {
            r == Ok::<AstTerm, ParseError>(t)
        } else {
            r matches Err(ParseError::ExtraToken(found)) && found == tokens[j]
        },
        Err(TermFailure::EndOfInput) => r matches Err(ParseError::UnexpectedEOF),
        Err(TermFailure::ExpectedClose(j)) => r matches Err(
            ParseError::UnrecognizedToken { expected, found },
        ) && found == tokens[j as int] && expected@.len() == 1 && expected@[0]@ == ")"@,
        Err(TermFailure::ExpectedTerm(j)) => r matches Err(
            ParseError::UnrecognizedToken { expected, found },
        ) && found == tokens[j as int] && expected@.len() == 2 && expected@[0]@ == "\"(\""@
            && expected@[1]@ == "\"NUMBER\""@,
    }
}


fn pop_nonterm0(results: &mut Vec<ActionResult>) -> (r: AstTerm)
    requires
        old(results)@.len() > 0,
        old(results)@.last() is Nonterm0,
    ensures
        final(results)@ == old(results)@.drop_last(),
        old(results)@.last() == ActionResult::Nonterm0(r),
{
    match results.pop() {
        Some(ActionResult::Nonterm0(value)) => value,
        _ => {
            proof {
                assert(false);
            }
            AstTerm::Number
        },
    }
}

fn pop_nonterm1(results: &mut Vec<ActionResult>) -> (r: AstTerm)
    requires
        old(results)@.len() > 0,
        old(results)@.last() is Nonterm1,
    ensures
        final(results)@ == old(results)@.drop_last(),
        old(results)@.last() == ActionResult::Nonterm1(r),
{
    match results.pop() {
        Some(ActionResult::Nonterm1(value)) => value,
        _ => {
            proof {
                assert(false);
            }
            AstTerm::Number
        },
    }
}

/// `Term = <n:Number>`: the number's value.
fn reduce_nonterm0_0(results: &mut Vec<ActionResult>)
    requires
        old(results)@.len() > 0,
        old(results)@.last() is Nonterm1,
    ensures
        exists|n: AstTerm|
            old(results)@.last() == ActionResult::Nonterm1(n) && final(results)@ == old(
                results,
            )@.drop_last().push(ActionResult::Nonterm0(n)),
{
    let n = pop_nonterm1(results);
    let result = action_nonterm0_0(n);
    results.push(ActionResult::Nonterm0(result));
}

fn action_nonterm0_0(n: AstTerm) -> (r: AstTerm)
    ensures
        r == n,
{
    n
}

/// `Term = "(" <t:Term> ")"`: the inner term in parentheses.
fn reduce_nonterm0_1(results: &mut Vec<ActionResult>)
    requires
        old(results)@.len() > 0,
        old(results)@.last() is Nonterm0,
    ensures
        exists|t: AstTerm|
            old(results)@.last() == ActionResult::Nonterm0(t) && final(results)@ == old(
                results,
            )@.drop_last().push(ActionResult::Nonterm0(AstTerm::Paren(Box::new(t)))),
{
    let t = pop_nonterm0(results);
    let result = action_nonterm0_1(t);
    results.push(ActionResult::Nonterm0(result));
}

fn action_nonterm0_1(t: AstTerm) -> (r: AstTerm)
    ensures
        r == AstTerm::Paren(Box::new(t)),
{
    AstTerm::Paren(Box::new(t))
}

/// `Number = "NUMBER"`.
fn reduce_nonterm1_0(results: &mut Vec<ActionResult>)
    ensures
        final(results)@ == old(results)@.push(ActionResult::Nonterm1(AstTerm::Number)),
{
    let result = action_nonterm1_0();
    results.push(ActionResult::Nonterm1(result));
}

fn action_nonterm1_0() -> (r: AstTerm)
    ensures
        r == AstTerm::Number,
{
    AstTerm::Number
}

/// The work stack below the current term: for each open parenthesis, the
/// reduction of `"(" Term ")"` under the `")"` still to be matched.
spec fn frames(d: nat) -> Seq<SymbolOrReduction>
    decreases d,
{
    if d == 0 {
        seq![]
    } else {
        frames((d - 1) as nat) + seq![
            SymbolOrReduction::Reduction(Reduction::Nonterm0Prod1),
            SymbolOrReduction::Symbol(Symbol::Term1),
        ]
    }
}

proof fn lemma_frames_len(d: nat)
    ensures
        frames(d).len() == 2 * d,
    decreases d,
{
    if d > 0 {
        lemma_frames_len((d - 1) as nat);
    }
}

proof fn lemma_close_err(tokens: Seq<Token>, d: nat, e: TermFailure)
    ensures
        close_parens(tokens, d, Err(e)) == Err::<(AstTerm, int), TermFailure>(e),
    decreases d,
{
    if d > 0 {
        lemma_close_err(tokens, (d - 1) as nat, e);
    }
}

/// The parser's state in one of its phases: the work stack above the open
/// parentheses, the value stack, and what the whole parse comes to from here.
spec fn state_ok(
    tokens: Seq<Token>,
    stack: Seq<SymbolOrReduction>,
    results: Seq<ActionResult>,
    pos: int,
    d: nat,
    ph: int,
    v: AstTerm,
    goal: Result<(AstTerm, int), TermFailure>,
) -> bool {
    let n = tokens.len();
    let s0 = SymbolOrReduction::Symbol(Symbol::Term0);
    let s2 = SymbolOrReduction::Symbol(Symbol::Term2);
    let n0 = SymbolOrReduction::Symbol(Symbol::Nonterm0);
    let n1 = SymbolOrReduction::Symbol(Symbol::Nonterm1);
    let r00 = SymbolOrReduction::Reduction(Reduction::Nonterm0Prod0);
    let r01 = SymbolOrReduction::Reduction(Reduction::Nonterm0Prod1);
    let r10 = SymbolOrReduction::Reduction(Reduction::Nonterm1Prod0);
    &&& 0 <= pos <= n
    &&& ph == 0 ==> stack == frames(d) + seq![n0] && results == Seq::<ActionResult>::empty()
        && close_parens(tokens, d, term_at(tokens, pos)) == goal
    &&& ph == 1 ==> stack == frames(d) + seq![n0, s0] && results == Seq::<ActionResult>::empty()
        && pos < n && tokens[pos] == Token::LParen && close_parens(tokens, d, term_at(tokens, pos + 1))
        == goal
    &&& ph == 2 ==> stack == frames(d) + seq![r00, n1] && results == Seq::<ActionResult>::empty()
        && pos < n && tokens[pos] == Token::Number && close_parens(
        tokens,
        d,
        Ok((AstTerm::Number, pos + 1)),
    ) == goal
    &&& ph == 3 ==> stack == frames(d) + seq![r00, r10, s2] && results
        == Seq::<ActionResult>::empty() && pos < n && tokens[pos] == Token::Number && close_parens(
        tokens,
        d,
        Ok((AstTerm::Number, pos + 1)),
    ) == goal
    &&& ph == 4 ==> stack == frames(d) + seq![r00, r10] && results == Seq::<ActionResult>::empty()
        && close_parens(tokens, d, Ok((AstTerm::Number, pos))) == goal
    &&& ph == 5 ==> stack == frames(d) + seq![r00] && results == seq![
        ActionResult::Nonterm1(AstTerm::Number),
    ] && close_parens(tokens, d, Ok((AstTerm::Number, pos))) == goal
    &&& ph == 6 ==> stack == frames(d) && results == seq![ActionResult::Nonterm0(v)]
        && close_parens(tokens, d, Ok((v, pos))) == goal
    &&& ph == 7 ==> stack == frames(d) + seq![r01] && results == seq![ActionResult::Nonterm0(v)]
        && close_parens(tokens, d, Ok((AstTerm::Paren(Box::new(v)), pos))) == goal
    &&& 0 <= ph <= 7
}

/// Decreases at every step: each token is consumed once, and between two
/// consumptions only a bounded number of steps happen.
spec fn potential(n: int, pos: int, d: nat, ph: int) -> int {
    10 * (n - pos) + 3 * d + if ph == 0 {
        8int
    } else if ph == 1 || ph == 2 {
        4int
    } else if ph == 3 {
        3int
    } else if ph == 4 {
        2int
    } else if ph == 6 {
        0int
    } else {
        1int
    }
}

/// Parses the tokens as a term; the term must take all of them.
pub fn parse(tokens: &Vec<Token>) -> (r: Result<AstTerm, ParseError>)
    ensures
        reports(r, tokens@, term_at(tokens@, 0)),
{
    let ghost goal = term_at(tokens@, 0);
    let mut stack: Vec<SymbolOrReduction> = Vec::new();
    stack.push(SymbolOrReduction::Symbol(Symbol::Nonterm0));
    let mut results: Vec<ActionResult> = Vec::new();
    let mut pos: usize = 0;
    let ghost mut d: nat = 0;
    let ghost mut ph: int = 0;
    let ghost mut v: AstTerm = AstTerm::Number;
    proof {
        assert(stack@ =~= frames(0) + seq![SymbolOrReduction::Symbol(Symbol::Nonterm0)]);
        assert(results@ =~= Seq::<ActionResult>::empty());
    }
    while stack.len() > 0
        invariant
            goal == term_at(tokens@, 0),
            state_ok(tokens@, stack@, results@, pos as int, d, ph, v, goal),
        ensures
            state_ok(tokens@, stack@, results@, pos as int, d, ph, v, goal),
            stack@.len() == 0,
        decreases potential(tokens@.len() as int, pos as int, d, ph),
    {
        proof {
            lemma_frames_len(d);
        }
        let ghost before = stack@;
        let item = stack.pop().unwrap();
        let symbol = match item {
            SymbolOrReduction::Symbol(symbol) => symbol,
            SymbolOrReduction::Reduction(reduction) => {
                match reduction {
                    Reduction::Nonterm0Prod0 => {
                        reduce_nonterm0_0(&mut results);
                        proof {
                            assert(ph == 5);
                            ph = 6;
                            v = AstTerm::Number;
                            assert(stack@ =~= frames(d));
                            assert(results@ =~= seq![ActionResult::Nonterm0(v)]);
                        }
                    },
                    Reduction::Nonterm0Prod1 => {
                        proof {
                            if d > 0 && ph != 7 {
                                assert(before.last() == SymbolOrReduction::Symbol(Symbol::Term1));
                            }
                            assert(ph == 7);
                        }
                        reduce_nonterm0_1(&mut results);
                        proof {
                            ph = 6;
                            v = AstTerm::Paren(Box::new(v));
                            assert(stack@ =~= frames(d));
                            assert(results@ =~= seq![ActionResult::Nonterm0(v)]);
                        }
                    },
                    Reduction::Nonterm1Prod0 => {
                        proof {
                            assert(ph == 4);
                        }
                        reduce_nonterm1_0(&mut results);
                        proof {
                            ph = 5;
                            assert(stack@ =~= frames(d) + seq![SymbolOrReduction::Reduction(Reduction::Nonterm0Prod0)]);
                            assert(results@ =~= seq![ActionResult::Nonterm1(AstTerm::Number)]);
                        }
                    },
                }
                continue;
            },
        };
        if symbol.is_terminal() {
            if pos >= tokens.len() {
                proof {
                    if ph == 6 {
                        assert(d > 0);
                        lemma_close_err(tokens@, (d - 1) as nat, TermFailure::EndOfInput);
                    }
                }
                return Err(ParseError::UnexpectedEOF);
            }
            let token = tokens[pos];
            pos += 1;
            if symbol.matches_token(&token) {
                proof {
                    if ph == 1 {
                        ph = 0;
                        assert(stack@ =~= frames(d) + seq![SymbolOrReduction::Symbol(Symbol::Nonterm0)]);
                    } else if ph == 3 {
                        ph = 4;
                        assert(stack@ =~= frames(d) + seq![
                            SymbolOrReduction::Reduction(Reduction::Nonterm0Prod0),
                            SymbolOrReduction::Reduction(Reduction::Nonterm1Prod0),
                        ]);
                    } else {
                        assert(ph == 6);
                        assert(d > 0);
                        d = (d - 1) as nat;
                        ph = 7;
                        assert(stack@ =~= frames(d) + seq![SymbolOrReduction::Reduction(Reduction::Nonterm0Prod1)]);
                    }
                }
                continue;
            } else {
                proof {
                    assert(ph == 6);
                    assert(d > 0);
                    lemma_close_err(
                        tokens@,
                        (d - 1) as nat,
                        TermFailure::ExpectedClose((pos - 1) as usize),
                    );
                }
                return Err(
                    ParseError::UnrecognizedToken { expected: vec![symbol.name()], found: token },
                );
            }
        } else {
            if pos >= tokens.len() {
                proof {
                    assert(ph == 0 || ph == 2);
                    lemma_close_err(tokens@, d, TermFailure::EndOfInput);
                }
                return Err(ParseError::UnexpectedEOF);
            }
            let next_token = tokens[pos];
            match (symbol, next_token) {
                (Symbol::Nonterm0, Token::LParen) => {
                    stack.push(SymbolOrReduction::Reduction(Reduction::Nonterm0Prod1));
                    stack.push(SymbolOrReduction::Symbol(Symbol::Term1));
                    stack.push(SymbolOrReduction::Symbol(Symbol::Nonterm0));
                    stack.push(SymbolOrReduction::Symbol(Symbol::Term0));
                    proof {
                        assert(ph == 0);
                        d = d + 1;
                        ph = 1;
                        assert(stack@ =~= frames(d) + seq![
                            SymbolOrReduction::Symbol(Symbol::Nonterm0),
                            SymbolOrReduction::Symbol(Symbol::Term0),
                        ]);
                    }
                },
                (Symbol::Nonterm0, Token::Number) => {
                    stack.push(SymbolOrReduction::Reduction(Reduction::Nonterm0Prod0));
                    stack.push(SymbolOrReduction::Symbol(Symbol::Nonterm1));
                    proof {
                        assert(ph == 0);
                        ph = 2;
                        assert(stack@ =~= frames(d) + seq![
                            SymbolOrReduction::Reduction(Reduction::Nonterm0Prod0),
                            SymbolOrReduction::Symbol(Symbol::Nonterm1),
                        ]);
                    }
                },
                (Symbol::Nonterm1, Token::Number) => {
                    stack.push(SymbolOrReduction::Reduction(Reduction::Nonterm1Prod0));
                    stack.push(SymbolOrReduction::Symbol(Symbol::Term2));
                    proof {
                        assert(ph == 2);
                        ph = 3;
                        assert(stack@ =~= frames(d) + seq![
                            SymbolOrReduction::Reduction(Reduction::Nonterm0Prod0),
                            SymbolOrReduction::Reduction(Reduction::Nonterm1Prod0),
                            SymbolOrReduction::Symbol(Symbol::Term2),
                        ]);
                    }
                },
                (symbol, _) => {
                    let expected = match symbol {
                        Symbol::Nonterm0 => {
                            // FIRST of Term
                            vec!["\"(\"", "\"NUMBER\""]
                        },
                        _ => {
                            // FIRST of Number
                            vec!["\"NUMBER\""]
                        },
                    };
                    proof {
                        assert(ph == 0);
                        lemma_close_err(tokens@, d, TermFailure::ExpectedTerm(pos));
                    }
                    return Err(ParseError::UnrecognizedToken { expected, found: tokens[pos] });
                },
            }
        }
    }
    proof {
        lemma_frames_len(d);
        assert(ph == 6 && d == 0);
    }
    if pos < tokens.len() {
        return Err(ParseError::ExtraToken(tokens[pos]));
    }
    Ok(pop_nonterm0(&mut results))
}

/// The tokens that spell a term.
pub open spec fn term_tokens(t: AstTerm) -> Seq<Token>
    decreases t,
{
    match t {
        AstTerm::Number => seq![Token::Number],
        AstTerm::Paren(inner) => seq![Token::LParen] + term_tokens(*inner) + seq![Token::RParen],
    }
}

proof fn lemma_term_at_spelled(t: AstTerm, s: Seq<Token>, i: int)
    requires
        0 <= i,
        i + term_tokens(t).len() <= s.len(),
        s.subrange(i, i + term_tokens(t).len()) == term_tokens(t),
    ensures
        term_at(s, i) == Ok::<(AstTerm, int), TermFailure>((t, i + term_tokens(t).len())),
    decreases t,
{
    let tt = term_tokens(t);
    assert(s[i] == tt[0]);
    match t {
        AstTerm::Number => {},
        AstTerm::Paren(inner) => {
            let ti = term_tokens(*inner);
            assert(s.subrange(i + 1, i + 1 + ti.len()) =~= ti) by {
                assert forall|k: int| 0 <= k < ti.len() implies s.subrange(i + 1, i + 1 + ti.len())[k]
                    == ti[k] by {
                    assert(s[i + 1 + k] == tt[1 + k]);
                }
            }
            lemma_term_at_spelled(*inner, s, i + 1);
            assert(s[i + 1 + ti.len() as int] == tt[1 + ti.len() as int]);
        },
    }
}

/// Every term is parsed from its tokens, whatever follows them.
pub proof fn lemma_parse_complete(t: AstTerm, rest: Seq<Token>)
    ensures
        term_at(term_tokens(t) + rest, 0) == Ok::<(AstTerm, int), TermFailure>(
            (t, term_tokens(t).len() as int),
        ),
{
    let s = term_tokens(t) + rest;
    assert(s.subrange(0, term_tokens(t).len() as int) =~= term_tokens(t));
    lemma_term_at_spelled(t, s, 0);
}

proof fn lemma_term_at_sound(s: Seq<Token>, i: int)
    requires
        term_at(s, i) is Ok,
    ensures
        ({
            let (t, j) = term_at(s, i)->Ok_0;
            &&& 0 <= i < j <= s.len()
            &&& s.subrange(i, j) == term_tokens(t)
        }),
    decreases s.len() - i,
{
    if 0 <= i < s.len() && s[i] == Token::LParen {
        lemma_term_at_sound(s, i + 1);
        let (b, m) = term_at(s, i + 1)->Ok_0;
        let (t, j) = term_at(s, i)->Ok_0;
        assert(t == AstTerm::Paren(Box::new(b)) && j == m + 1);
        assert(s.subrange(i, j) =~= seq![Token::LParen] + s.subrange(i + 1, m) + seq![Token::RParen]);
    } else if 0 <= i < s.len() && s[i] == Token::Number {
        assert(s.subrange(i, i + 1) =~= seq![Token::Number]);
    }
}

/// A parsed term is spelled by the tokens it was parsed from.
pub proof fn lemma_parse_sound(tokens: Seq<Token>, t: AstTerm, j: int)
    requires
        term_at(tokens, 0) == Ok::<(AstTerm, int), TermFailure>((t, j)),
    ensures
        tokens.take(j) == term_tokens(t),
{
    lemma_term_at_sound(tokens, 0);
    assert(tokens.take(j) =~= tokens.subrange(0, j));
}

/// The parser accepts exactly the token sequences that spell a term, and
/// gives back that term: `parse` returns `Ok(t)` exactly when the tokens are
/// `term_tokens(t)`.
pub proof fn lemma_accepts_exactly(tokens: Seq<Token>, t: AstTerm)
    ensures
        term_at(tokens, 0) == Ok::<(AstTerm, int), TermFailure>((t, tokens.len() as int)) <==> tokens
            == term_tokens(t),
{
    if term_at(tokens, 0) == Ok::<(AstTerm, int), TermFailure>((t, tokens.len() as int)) {
        lemma_parse_sound(tokens, t, tokens.len() as int);
        assert(tokens.take(tokens.len() as int) =~= tokens);
    }
    if tokens == term_tokens(t) {
        lemma_parse_complete(t, Seq::<Token>::empty());
        assert(term_tokens(t) + Seq::<Token>::empty() =~= tokens);
    }
}
} // verus!

//! The table-driven parse driver: a work stack of symbols and reduction
//! markers, a value stack of parse trees tagged with their nonterminal, and
//! one token of lookahead. Input tokens are given by terminal number.
use crate::ast::{rules_view, AstGrammar, IndexedRule};
use crate::generator::built_for;
use crate::derivation::{leftmost_derive, leftmost_nonterminal};
use crate::ll_table_gen::{matrix_shape, rows, rules_in_range};
use vstd::prelude::*;
use vstd::string::StrSliceExecFns;

verus! {

/// An entry of the work stack: a symbol by number, or the reduction marker of
/// a production by number.
#[derive(Clone, Copy, Debug, PartialEq, Eq, Structural)]
pub enum SymbolOrReduction {
    Symbol(usize),
    Reduction(usize),
}

/// The value of a reduced nonterminal: the production used and the values of
/// the nonterminals of its right-hand side, left to right.
#[derive(Debug, PartialEq, Eq)]
pub struct ParseTree {
    pub nonterminal: usize,
    pub production: usize,
    pub children: Vec<ParseTree>,
}

/// Why the input was refused. Tokens are terminal numbers.
#[derive(Debug, PartialEq, Eq)]
pub enum ParseError {
    UnexpectedEOF,
    ExtraToken(usize),
    UnrecognizedToken { expected: Vec<String>, found: usize },
}

/// What the driver reads: the productions, the predictive table by
/// nonterminal index and terminal, the FIRST sets, the terminal names, the
/// end-of-input terminal and the start nonterminal.
pub struct ParserTables {
    pub num_terms: usize,
    pub eof: usize,
    pub start: usize,
    pub rules: Vec<IndexedRule>,
    pub table: Vec<Vec<Vec<usize>>>,
    pub first: Vec<Vec<bool>>,
    pub terminal_names: Vec<String>,
}

impl ParserTables {
    pub open spec fn num_symbols(self) -> int {
        self.num_terms + self.table@.len()
    }

    pub open spec fn rs(self) -> Seq<(int, Seq<int>)> {
        rules_view(self.rules@)
    }

    /// The cell for nonterminal `x` (a symbol number) and terminal `t`.
    pub open spec fn cell(self, x: int, t: int) -> Seq<usize> {
        self.table@[x - self.num_terms]@[t]@
    }

    pub open spec fn wf(self) -> bool {
        let t = self.num_terms as int;
        &&& self.eof < t
        &&& t <= self.start < self.num_symbols()
        &&& self.num_symbols() < usize::MAX
        &&& rules_in_range(self.rs(), self.num_symbols())
        &&& forall|p: int| 0 <= p < self.rules@.len() ==> t <= (#[trigger] self.rs()[p]).0
        &&& forall|a: int| 0 <= a < self.table@.len() ==> (#[trigger] self.table@[a])@.len() == t
        &&& forall|a: int, u: int, k: int|
            0 <= a < self.table@.len() && 0 <= u < t && 0 <= k < self.table@[a]@[u]@.len() ==> {
                let p = #[trigger] self.table@[a]@[u]@[k] as int;
                &&& 0 <= p < self.rules@.len()
                &&& self.rs()[p].0 == t + a
            }
        &&& matrix_shape(rows(self.first@), self.num_symbols(), t)
        &&& self.terminal_names@.len() == t
    }

    /// The production chosen for nonterminal `x` on lookahead `t`, if any.
    pub open spec fn choice(self, x: int, t: int) -> Option<int> {
        if self.cell(x, t).len() == 0 {
            None
        } else {
            Some(self.cell(x, t)[0] as int)
        }
    }
}

/// The next token, or end of input.
pub open spec fn lookahead(tables: ParserTables, tokens: Seq<usize>, pos: int) -> int {
    if pos < tokens.len() {
        tokens[pos] as int
    } else {
        tables.eof as int
    }
}

/// The symbols of `syms` as work-stack entries, last symbol at the bottom, so
/// that they are popped left to right.
pub open spec fn expansion(syms: Seq<int>) -> Seq<SymbolOrReduction> {
    Seq::new(syms.len(), |i: int| SymbolOrReduction::Symbol(syms[syms.len() - 1 - i] as usize))
}

/// One step of the driver on the work stack and input position: pop the top;
/// a reduction marker goes; a terminal must match the next token (end of
/// input for the end-of-input terminal), which it consumes; a nonterminal is
/// replaced by the marker and the right-hand side of the production the
/// table chooses on the lookahead, which is only peeked at. `None` where the
/// driver stops: an empty stack or an error.
pub open spec fn next(tables: ParserTables, tokens: Seq<usize>, work: Seq<SymbolOrReduction>, pos: int) -> Option<
    (Seq<SymbolOrReduction>, int),
> {
    if work.len() == 0 {
        None
    } else {
        let rest = work.drop_last();
        match work.last() {
            SymbolOrReduction::Reduction(_) => Some((rest, pos)),
            SymbolOrReduction::Symbol(x) => if x < tables.num_terms {
                if x == tables.eof {
                    if pos < tokens.len() {
                        None
                    } else {
                        Some((rest, pos))
                    }
                } else if pos < tokens.len() && tokens[pos] == x {
                    Some((rest, pos + 1))
                } else {
                    None
                }
            } else {
                match tables.choice(x as int, lookahead(tables, tokens, pos)) {
                    None => None,
                    Some(p) => Some(
                        (
                            rest.push(SymbolOrReduction::Reduction(p as usize)) + expansion(
                                tables.rs()[p].1,
                            ),
                            pos,
                        ),
                    ),
                }
            },
        }
    }
}

/// The driver stops within `n` steps from this configuration.
pub open spec fn halts_within(
    tables: ParserTables,
    tokens: Seq<usize>,
    work: Seq<SymbolOrReduction>,
    pos: int,
    n: nat,
) -> bool
    decreases n,
{
    n > 0 && match next(tables, tokens, work, pos) {
        None => true,
        Some((w, q)) => halts_within(tables, tokens, w, q, (n - 1) as nat),
    }
}

/// The configuration at which the driver stops, following at most `n` steps.
pub open spec fn stop(
    tables: ParserTables,
    tokens: Seq<usize>,
    work: Seq<SymbolOrReduction>,
    pos: int,
    n: nat,
) -> (Seq<SymbolOrReduction>, int)
    decreases n,
{
    if n == 0 {
        (work, pos)
    } else {
        match next(tables, tokens, work, pos) {
            None => (work, pos),
            Some((w, q)) => stop(tables, tokens, w, q, (n - 1) as nat),
        }
    }
}

pub open spec fn initial_work(tables: ParserTables) -> Seq<SymbolOrReduction> {
    seq![SymbolOrReduction::Symbol(tables.start)]
}

/// The driver stops on this input.
pub open spec fn halts(tables: ParserTables, tokens: Seq<usize>) -> bool {
    exists|n: nat| halts_within(tables, tokens, initial_work(tables), 0, n)
}

/// Where the driver stops on this input.
pub open spec fn final_config(tables: ParserTables, tokens: Seq<usize>) -> (Seq<SymbolOrReduction>, int) {
    stop(
        tables,
        tokens,
        initial_work(tables),
        0,
        choose|n: nat| halts_within(tables, tokens, initial_work(tables), 0, n),
    )
}

/// The driver is deterministic: any two bounds within which it stops give
/// the same stopping configuration, so `final_config`, and with it the
/// result of `parse`, is a function of the tables and the tokens alone.
pub proof fn lemma_stop_unique(
    tables: ParserTables,
    tokens: Seq<usize>,
    work: Seq<SymbolOrReduction>,
    pos: int,
    n: nat,
    m: nat,
)
    requires
        halts_within(tables, tokens, work, pos, n),
        halts_within(tables, tokens, work, pos, m),
    ensures
        stop(tables, tokens, work, pos, n) == stop(tables, tokens, work, pos, m),
    decreases n,
{
    match next(tables, tokens, work, pos) {
        None => {},
        Some((w, q)) => {
            lemma_stop_unique(tables, tokens, w, q, (n - 1) as nat, (m - 1) as nat);
        },
    }
}

/// Peeking consumes nothing: a step advances the input by one exactly when
/// it pops a terminal other than end of input, and otherwise leaves it.
pub proof fn lemma_peek_purity(
    tables: ParserTables,
    tokens: Seq<usize>,
    work: Seq<SymbolOrReduction>,
    pos: int,
)
    requires
        next(tables, tokens, work, pos) is Some,
    ensures
        next(tables, tokens, work, pos) matches Some((w, q)) && q == pos + if work.last() matches SymbolOrReduction::Symbol(
            x,
        ) && x < tables.num_terms && x != tables.eof {
            1int
        } else {
            0int
        },
{
}


/// The nonterminals among `syms`, in order.
pub open spec fn nonterms_of(syms: Seq<int>, num_terms: int) -> Seq<int>
    decreases syms.len(),
{
    if syms.len() == 0 {
        seq![]
    } else {
        nonterms_of(syms.drop_last(), num_terms) + if syms.last() >= num_terms {
            seq![syms.last()]
        } else {
            seq![]
        }
    }
}

/// The terminal names listed for an unexpected token: those of `row` in
/// terminal order, end of input left out.
pub open spec fn listed(row: Seq<bool>, names: Seq<Seq<char>>, eof: int, k: int) -> Seq<Seq<char>>
    decreases k,
{
    if k <= 0 {
        seq![]
    } else {
        listed(row, names, eof, k - 1) + if row[k - 1] && k - 1 != eof {
            seq![names[k - 1]]
        } else {
            seq![]
        }
    }
}

/// The expected list for a set of terminals: their names in terminal order;
/// end of input shows only when it stands alone, as "end of input".
pub open spec fn expected_seq(row: Seq<bool>, names: Seq<Seq<char>>, eof: int) -> Seq<Seq<char>> {
    let l = listed(row, names, eof, names.len() as int);
    if l.len() == 0 && row[eof] {
        seq!["end of input"@]
    } else {
        l
    }
}

/// A terminal name without its quotes.
pub open spec fn unquoted(name: Seq<char>) -> Seq<char> {
    if name.len() >= 2 {
        name.subrange(1, name.len() - 1)
    } else {
        name
    }
}

/// What the driver returns when it stops at work stack `w` and position `q`.
pub open spec fn reports(
    tables: ParserTables,
    tokens: Seq<usize>,
    w: Seq<SymbolOrReduction>,
    q: int,
    r: Result<ParseTree, ParseError>,
) -> bool {
    let names = tables.terminal_names@.map_values(|s: String| s@);
    if w.len() == 0 {
        if q < tokens.len() {
            r == Err::<ParseTree, ParseError>(ParseError::ExtraToken(tokens[q]))
        } else {
            r matches Ok(t) && t.nonterminal == tables.start
        }
    } else {
        match w.last() {
            SymbolOrReduction::Reduction(_) => false,
            SymbolOrReduction::Symbol(x) => if q >= tokens.len() {
                r == Err::<ParseTree, ParseError>(ParseError::UnexpectedEOF)
            } else if x == tables.eof {
                r == Err::<ParseTree, ParseError>(ParseError::ExtraToken(tokens[q]))
            } else if x < tables.num_terms {
                r matches Err(ParseError::UnrecognizedToken { expected, found }) && found == tokens[q]
                    && expected@.map_values(|s: String| s@) == seq![unquoted(names[x as int])]
            } else {
                r matches Err(ParseError::UnrecognizedToken { expected, found }) && found == tokens[q]
                    && expected@.map_values(|s: String| s@) == expected_seq(
                    rows(tables.first@)[x as int],
                    names,
                    tables.eof as int,
                )
            },
        }
    }
}

/// The work stack of the open productions: for each, bottom to top, its
/// reduction marker and the symbols of its right-hand side not yet popped.
spec fn work_of(rs: Seq<(int, Seq<int>)>, frames: Seq<(int, int)>) -> Seq<SymbolOrReduction>
    decreases frames.len(),
{
    if frames.len() == 0 {
        seq![]
    } else {
        work_of(rs, frames.drop_last()).push(SymbolOrReduction::Reduction(frames.last().0 as usize))
            + expansion(rs[frames.last().0].1.skip(frames.last().1))
    }
}

/// The tags of the value stack below the top open production: for each open
/// production, the nonterminals popped from its right-hand side, but the one
/// being derived.
spec fn tags_below(rs: Seq<(int, Seq<int>)>, t: int, frames: Seq<(int, int)>) -> Seq<int>
    decreases frames.len(),
{
    if frames.len() == 0 {
        seq![]
    } else {
        tags_below(rs, t, frames.drop_last()) + nonterms_of(
            rs[frames.last().0].1.take(frames.last().1 - 1),
            t,
        )
    }
}

spec fn tags_of(rs: Seq<(int, Seq<int>)>, t: int, frames: Seq<(int, int)>) -> Seq<int> {
    if frames.len() == 0 {
        seq![]
    } else {
        tags_below(rs, t, frames.drop_last()) + nonterms_of(
            rs[frames.last().0].1.take(frames.last().1),
            t,
        )
    }
}

/// Each open production's last popped symbol is the nonterminal the next one
/// derives.
spec fn chain_ok(rs: Seq<(int, Seq<int>)>, frames: Seq<(int, int)>) -> bool {
    &&& forall|i: int|
        0 <= i < frames.len() ==> 0 <= (#[trigger] frames[i]).0 < rs.len() && 0 <= frames[i].1
            <= rs[frames[i].0].1.len()
    &&& forall|i: int|
        0 <= i < frames.len() - 1 ==> (#[trigger] frames[i]).1 >= 1 && rs[frames[i].0].1[frames[i].1
            - 1] == rs[frames[i + 1].0].0
}

pub open spec fn tags(values: Seq<ParseTree>) -> Seq<int> {
    values.map_values(|v: ParseTree| v.nonterminal as int)
}

proof fn lemma_nonterms_step(s: Seq<int>, k: int, t: int)
    requires
        0 <= k < s.len(),
    ensures
        nonterms_of(s.take(k + 1), t) == nonterms_of(s.take(k), t) + if s[k] >= t {
            seq![s[k]]
        } else {
            seq![]
        },
{
    assert(s.take(k + 1).drop_last() =~= s.take(k));
}

/// The driver state between steps.
spec fn driver_state(
    tables: ParserTables,
    stack: Seq<SymbolOrReduction>,
    values: Seq<ParseTree>,
    started: bool,
    frames: Seq<(int, int)>,
) -> bool {
    let rs = tables.rs();
    let t = tables.num_terms as int;
    &&& !started ==> frames.len() == 0 && stack == initial_work(tables) && values.len() == 0
    &&& started && frames.len() > 0 ==> {
        &&& stack == work_of(rs, frames)
        &&& tags(values) == tags_of(rs, t, frames)
        &&& chain_ok(rs, frames)
        &&& rs[frames[0].0].0 == tables.start
    }
    &&& started && frames.len() == 0 ==> stack.len() == 0 && tags(values) == seq![
        tables.start as int,
    ]
}

fn unquote(s: &String) -> (r: String)
    ensures
        r@ == unquoted(s@),
{
    let n = s.as_str().unicode_len();
    if n >= 2 {
        s.as_str().substring_char(1, n - 1).to_owned()
    } else {
        s.clone()
    }
}

/// The number of nonterminals in `syms`.
fn count_nonterminals(syms: &Vec<usize>, num_terms: usize) -> (k: usize)
    ensures
        k == nonterms_of(syms@.map_values(|x: usize| x as int), num_terms as int).len(),
{
    let ghost ss = syms@.map_values(|x: usize| x as int);
    let mut k: usize = 0;
    let mut i: usize = 0;
    while i < syms.len()
        invariant
            ss == syms@.map_values(|x: usize| x as int),
            i <= syms@.len(),
            k == nonterms_of(ss.take(i as int), num_terms as int).len(),
            k <= i,
        decreases syms@.len() - i,
    {
        proof {
            lemma_nonterms_step(ss, i as int, num_terms as int);
        }
        if syms[i] >= num_terms {
            k += 1;
        }
        i += 1;
    }
    assert(ss.take(i as int) =~= ss);
    k
}

/// The expected list for nonterminal `x`: the names of its FIRST set.
fn expected_names(tables: &ParserTables, x: usize) -> (r: Vec<String>)
    requires
        tables.wf(),
        x < tables.num_symbols(),
    ensures
        r@.map_values(|s: String| s@) == expected_seq(
            rows(tables.first@)[x as int],
            tables.terminal_names@.map_values(|s: String| s@),
            tables.eof as int,
        ),
{
    let ghost names = tables.terminal_names@.map_values(|s: String| s@);
    let row = &tables.first[x];
    let mut r: Vec<String> = Vec::new();
    let mut t: usize = 0;
    while t < tables.num_terms
        invariant
            tables.wf(),
            x < tables.num_symbols(),
            row == tables.first@[x as int],
            names == tables.terminal_names@.map_values(|s: String| s@),
            t <= tables.num_terms,
            r@.map_values(|s: String| s@) == listed(rows(tables.first@)[x as int], names, tables.eof as int, t as int),
        decreases tables.num_terms - t,
    {
        assert(rows(tables.first@)[x as int] == row@);
        if row[t] && t != tables.eof {
            let ghost before = r@;
            r.push(tables.terminal_names[t].clone());
            assert(r@.map_values(|s: String| s@) =~= before.map_values(|s: String| s@).push(names[t as int]));
        } else {
            assert(listed(row@, names, tables.eof as int, t + 1) =~= listed(row@, names, tables.eof as int, t as int));
        }
        t += 1;
    }
    assert(rows(tables.first@)[x as int] == row@);
    if r.len() == 0 && row[tables.eof] {
        let mut only: Vec<String> = Vec::new();
        only.push("end of input".to_owned());
        assert(only@.map_values(|s: String| s@) =~= seq!["end of input"@]);
        return only;
    }
    r
}

/// The productions of a parse tree in preorder: the order in which a
/// leftmost derivation uses them.
pub open spec fn preorder(t: ParseTree) -> Seq<int>
    decreases t, 1nat,
{
    seq![t.production as int] + preorder_all(t.children@)
}

/// The preorders of the trees, one after the other.
pub open spec fn preorder_all(ts: Seq<ParseTree>) -> Seq<int>
    decreases ts, 0nat,
{
    if ts.len() == 0 {
        seq![]
    } else {
        preorder_all(ts.drop_last()) + preorder(ts.last())
    }
}

/// The tree is the value of reductions: each node's nonterminal is the left
/// side of its production, and its children are, in number, order and
/// nonterminal, the nonterminals of that production's right-hand side, each
/// a tree of the same kind.
pub open spec fn reduction_tree(rs: Seq<(int, Seq<int>)>, num_terms: int, tree: ParseTree) -> bool
    decreases tree, 1nat,
{
    &&& 0 <= tree.production < rs.len()
    &&& tree.nonterminal == rs[tree.production as int].0
    &&& tags(tree.children@) == nonterms_of(rs[tree.production as int].1, num_terms)
    &&& reduction_trees(rs, num_terms, tree.children@)
}

/// Each of the trees is a reduction tree.
pub open spec fn reduction_trees(rs: Seq<(int, Seq<int>)>, num_terms: int, ts: Seq<ParseTree>) -> bool
    decreases ts, 0nat,
{
    ts.len() == 0 || (reduction_trees(rs, num_terms, ts.drop_last()) && reduction_tree(
        rs,
        num_terms,
        ts.last(),
    ))
}

proof fn lemma_reduction_trees(rs: Seq<(int, Seq<int>)>, num_terms: int, ts: Seq<ParseTree>)
    requires
        forall|i: int| 0 <= i < ts.len() ==> #[trigger] reduction_tree(rs, num_terms, ts[i]),
    ensures
        reduction_trees(rs, num_terms, ts),
    decreases ts.len(),
{
    if ts.len() > 0 {
        assert forall|i: int| 0 <= i < ts.drop_last().len() implies #[trigger] reduction_tree(
            rs,
            num_terms,
            ts.drop_last()[i],
        ) by {
            assert(ts.drop_last()[i] == ts[i]);
        }
        lemma_reduction_trees(rs, num_terms, ts.drop_last());
        assert(reduction_tree(rs, num_terms, ts[ts.len() - 1]));
        assert(ts.last() == ts[ts.len() - 1]);
        assert(reduction_trees(rs, num_terms, ts.drop_last()) && reduction_tree(rs, num_terms, ts.last()));
    }
}

/// The symbols still to be matched or derived, in input order: the work
/// stack from the top down, reduction markers left out.
pub open spec fn pending(work: Seq<SymbolOrReduction>) -> Seq<int>
    decreases work.len(),
{
    if work.len() == 0 {
        seq![]
    } else {
        (match work.last() {
            SymbolOrReduction::Symbol(x) => seq![x as int],
            SymbolOrReduction::Reduction(_) => seq![],
        }) + pending(work.drop_last())
    }
}

/// `w` with the end-of-input terminal left out.
pub open spec fn without_eof(w: Seq<int>, eof: int) -> Seq<int>
    decreases w.len(),
{
    if w.len() == 0 {
        seq![]
    } else {
        without_eof(w.drop_last(), eof) + if w.last() == eof {
            seq![]
        } else {
            seq![w.last()]
        }
    }
}

pub proof fn lemma_pending_concat(a: Seq<SymbolOrReduction>, b: Seq<SymbolOrReduction>)
    ensures
        pending(a + b) == pending(b) + pending(a),
    decreases b.len(),
{
    if b.len() == 0 {
        assert(a + b =~= a);
    } else {
        assert((a + b).drop_last() =~= a + b.drop_last());
        lemma_pending_concat(a, b.drop_last());
        let head = match b.last() {
            SymbolOrReduction::Symbol(x) => seq![x as int],
            SymbolOrReduction::Reduction(_) => seq![],
        };
        assert((a + b).last() == b.last());
        assert(head + (pending(b.drop_last()) + pending(a)) =~= (head + pending(b.drop_last()))
            + pending(a));
    }
}

pub proof fn lemma_pending_expansion(syms: Seq<int>)
    requires
        forall|k: int| 0 <= k < syms.len() ==> 0 <= #[trigger] syms[k] <= usize::MAX,
    ensures
        pending(expansion(syms)) == syms,
    decreases syms.len(),
{
    if syms.len() > 0 {
        let e = expansion(syms);
        assert(e.drop_last() =~= expansion(syms.skip(1)));
        assert(e.last() == SymbolOrReduction::Symbol(syms[0] as usize));
        lemma_pending_expansion(syms.skip(1));
        assert(seq![syms[0]] + syms.skip(1) =~= syms);
    }
}

pub proof fn lemma_leftmost(prefix: Seq<int>, a: int, rest: Seq<int>, num_terms: int)
    requires
        forall|k: int| 0 <= k < prefix.len() ==> #[trigger] prefix[k] < num_terms,
        a >= num_terms,
    ensures
        leftmost_nonterminal(prefix + seq![a] + rest, num_terms) == prefix.len(),
    decreases prefix.len(),
{
    let f = prefix + seq![a] + rest;
    if prefix.len() > 0 {
        assert(f.skip(1) =~= prefix.skip(1) + seq![a] + rest);
        lemma_leftmost(prefix.skip(1), a, rest, num_terms);
        assert(f[0] == prefix[0]);
    } else {
        assert(f[0] == a);
    }
}

/// What the symbols matched so far and the work stack say of the input: a
/// leftmost derivation from the start reaches them.
/// The tokens read before position `pos` are a viable prefix: with end of
/// input where it was matched, they followed by the pending symbols of
/// `work` form a sentential form that the start derives.
pub open spec fn viable(tables: ParserTables, tokens: Seq<usize>, work: Seq<SymbolOrReduction>, pos: int) -> bool {
    exists|log: Seq<int>, matched: Seq<int>| #[trigger] derivation_state(tables, tokens, work, pos, log, matched)
}

pub open spec fn derivation_state(
    tables: ParserTables,
    tokens: Seq<usize>,
    stack: Seq<SymbolOrReduction>,
    pos: int,
    log: Seq<int>,
    matched: Seq<int>,
) -> bool {
    &&& forall|k: int| 0 <= k < matched.len() ==> 0 <= #[trigger] matched[k] < tables.num_terms
    &&& without_eof(matched, tables.eof as int) == tokens.take(pos).map_values(|x: usize| x as int)
    &&& leftmost_derive(tables.rs(), tables.num_terms as int, seq![tables.start as int], log) == Some(
        matched + pending(stack),
    )
}

/// Matching terminal `x` at the top of the stack keeps the derivation.
proof fn lemma_match_terminal(
    tables: ParserTables,
    tokens: Seq<usize>,
    stack: Seq<SymbolOrReduction>,
    pos: int,
    new_pos: int,
    log: Seq<int>,
    matched: Seq<int>,
    x: int,
)
    requires
        derivation_state(tables, tokens, stack, pos, log, matched),
        stack.len() > 0,
        stack.last() == SymbolOrReduction::Symbol(x as usize),
        0 <= x < tables.num_terms,
        0 <= pos <= new_pos <= tokens.len(),
        x == tables.eof ==> new_pos == pos,
        x != tables.eof ==> new_pos == pos + 1 && tokens[pos] == x,
    ensures
        derivation_state(tables, tokens, stack.drop_last(), new_pos, log, matched.push(x)),
{
    let m2 = matched.push(x);
    assert(pending(stack) == seq![x] + pending(stack.drop_last()));
    assert(m2 + pending(stack.drop_last()) =~= matched + pending(stack));
    assert(m2.drop_last() =~= matched);
    assert(m2.last() == x);
    if x != tables.eof {
        assert(tokens.take(new_pos).map_values(|y: usize| y as int) =~= tokens.take(pos).map_values(
            |y: usize| y as int,
        ).push(x));
        assert(without_eof(m2, tables.eof as int) == without_eof(matched, tables.eof as int).push(x));
    } else {
        assert(without_eof(m2, tables.eof as int) =~= without_eof(matched, tables.eof as int));
    }
    assert forall|k: int| 0 <= k < m2.len() implies 0 <= #[trigger] m2[k] < tables.num_terms by {
        if k < matched.len() {
            assert(m2[k] == matched[k]);
        }
    }
}

/// Expanding nonterminal `a` at the top of the stack by production `q`
/// extends the derivation by one leftmost step.
proof fn lemma_expand_derivation(
    tables: ParserTables,
    tokens: Seq<usize>,
    stack: Seq<SymbolOrReduction>,
    new_stack: Seq<SymbolOrReduction>,
    pos: int,
    log: Seq<int>,
    matched: Seq<int>,
    a: int,
    q: int,
)
    requires
        tables.wf(),
        derivation_state(tables, tokens, stack, pos, log, matched),
        stack.len() > 0,
        stack.last() == SymbolOrReduction::Symbol(a as usize),
        tables.num_terms <= a < tables.num_symbols(),
        0 <= q < tables.rules@.len(),
        tables.rs()[q].0 == a,
        new_stack == stack.drop_last().push(SymbolOrReduction::Reduction(q as usize)) + expansion(
            tables.rs()[q].1,
        ),
    ensures
        derivation_state(tables, tokens, new_stack, pos, log.push(q), matched),
{
    let rs = tables.rs();
    let t = tables.num_terms as int;
    let rest = pending(stack.drop_last());
    assert(pending(stack) == seq![a] + rest);
    assert(matched + pending(stack) =~= matched + seq![a] + rest);
    lemma_leftmost(matched, a, rest, t);
    let f = matched + seq![a] + rest;
    assert(f.take(matched.len() as int) =~= matched);
    assert(f.skip(matched.len() as int + 1) =~= rest);
    assert(log.push(q).drop_last() =~= log);
    assert forall|k: int| 0 <= k < rs[q].1.len() implies 0 <= #[trigger] rs[q].1[k] <= usize::MAX by {
    }
    lemma_pending_expansion(rs[q].1);
    lemma_pending_concat(stack.drop_last().push(SymbolOrReduction::Reduction(q as usize)), expansion(rs[q].1));
    assert(pending(stack.drop_last().push(SymbolOrReduction::Reduction(q as usize))) == rest) by {
        assert(stack.drop_last().push(SymbolOrReduction::Reduction(q as usize)).drop_last() =~= stack.drop_last());
        assert(Seq::<int>::empty() + rest =~= rest);
    }
    assert(matched + rs[q].1 + rest =~= matched + pending(new_stack));
}

/// The productions used so far, in order, as the value stack and the open
/// productions record them: for each open production, the production, then
/// the trees of its right-hand side completed so far; for the open
/// productions below the top, the one being derived is not complete.
spec fn log_below(rs: Seq<(int, Seq<int>)>, t: int, frames: Seq<(int, int)>, values: Seq<ParseTree>) -> Seq<int>
    decreases frames.len(),
{
    if frames.len() == 0 {
        seq![]
    } else {
        let p = frames.last().0;
        let d = frames.last().1;
        let split = values.len() - nonterms_of(rs[p].1.take(d - 1), t).len();
        log_below(rs, t, frames.drop_last(), values.take(split)) + seq![p] + preorder_all(
            values.skip(split),
        )
    }
}

spec fn log_of(rs: Seq<(int, Seq<int>)>, t: int, frames: Seq<(int, int)>, values: Seq<ParseTree>) -> Seq<int> {
    if frames.len() == 0 {
        preorder_all(values)
    } else {
        let p = frames.last().0;
        let d = frames.last().1;
        let split = values.len() - nonterms_of(rs[p].1.take(d), t).len();
        log_below(rs, t, frames.drop_last(), values.take(split)) + seq![p] + preorder_all(
            values.skip(split),
        )
    }
}

proof fn lemma_log_terminal(
    rs: Seq<(int, Seq<int>)>,
    t: int,
    frames: Seq<(int, int)>,
    values: Seq<ParseTree>,
)
    requires
        frames.len() > 0,
        0 <= frames.last().1 < rs[frames.last().0].1.len(),
        rs[frames.last().0].1[frames.last().1] < t,
    ensures
        log_of(
            rs,
            t,
            frames.update(frames.len() - 1, (frames.last().0, frames.last().1 + 1)),
            values,
        ) == log_of(rs, t, frames, values),
{
    let p = frames.last().0;
    let d = frames.last().1;
    let f = frames.update(frames.len() - 1, (p, d + 1));
    lemma_nonterms_step(rs[p].1, d, t);
    assert(f.drop_last() =~= frames.drop_last());
    assert(f.last() == (p, d + 1));
}

proof fn lemma_log_expand(
    rs: Seq<(int, Seq<int>)>,
    t: int,
    frames: Seq<(int, int)>,
    values: Seq<ParseTree>,
    q: int,
)
    requires
        frames.len() > 0,
        0 <= frames.last().1 < rs[frames.last().0].1.len(),
        0 <= q < rs.len(),
        nonterms_of(rs[frames.last().0].1.take(frames.last().1), t).len() <= values.len(),
    ensures
        log_of(
            rs,
            t,
            frames.update(frames.len() - 1, (frames.last().0, frames.last().1 + 1)).push((q, 0int)),
            values,
        ) == log_of(rs, t, frames, values).push(q),
{
    let p = frames.last().0;
    let d = frames.last().1;
    let g = frames.update(frames.len() - 1, (p, d + 1));
    let f = g.push((q, 0int));
    assert(f.drop_last() =~= g);
    assert(f.last() == (q, 0int));
    assert(g.drop_last() =~= frames.drop_last());
    assert(g.last() == (p, d + 1));
    assert(rs[q].1.take(0) =~= Seq::<int>::empty());
    assert(nonterms_of(rs[q].1.take(0), t) =~= Seq::<int>::empty());
    assert(rs[p].1.take(d + 1 - 1) =~= rs[p].1.take(d));
    assert(values.take(values.len() as int) =~= values);
    assert(values.skip(values.len() as int) =~= Seq::<ParseTree>::empty());
    assert(preorder_all(Seq::<ParseTree>::empty()) =~= Seq::<int>::empty());
    assert(log_below(rs, t, g, values) == log_of(rs, t, frames, values));
    assert(log_of(rs, t, f, values) =~= log_of(rs, t, frames, values).push(q));
}

proof fn lemma_log_reduce(
    rs: Seq<(int, Seq<int>)>,
    t: int,
    frames: Seq<(int, int)>,
    old_values: Seq<ParseTree>,
    values: Seq<ParseTree>,
    node: ParseTree,
    q: int,
    k: int,
)
    requires
        frames.len() > 0,
        chain_ok(rs, frames),
        0 <= q < rs.len(),
        rs[q].0 >= t,
        frames.last() == (q, rs[q].1.len() as int),
        tags(old_values) == tags_of(rs, t, frames),
        k == nonterms_of(rs[q].1, t).len(),
        k <= old_values.len(),
        node.production == q,
        node.children@ == old_values.skip(old_values.len() - k),
        values == old_values.take(old_values.len() - k).push(node),
    ensures
        log_of(rs, t, frames.drop_last(), values) == log_of(rs, t, frames, old_values),
{
    let f = frames.drop_last();
    let at = old_values.len() - k;
    let v1 = old_values.take(at);
    assert(rs[q].1.take(rs[q].1.len() as int) =~= rs[q].1);
    assert(preorder(node) == seq![q] + preorder_all(old_values.skip(at)));
    let below = tags_below(rs, t, f);
    let mine = nonterms_of(rs[q].1, t);
    assert(tags_of(rs, t, frames) == below + nonterms_of(rs[q].1.take(rs[q].1.len() as int), t));
    assert(tags(old_values) == below + mine);
    assert(tags(old_values).len() == old_values.len());
    assert(below.len() == at);
    assert(tags(old_values).subrange(0, at) =~= below);
    assert(tags(v1) =~= tags(old_values).subrange(0, at));
    assert(values.drop_last() =~= v1);
    if f.len() > 0 {
        let p = f.last().0;
        let d = f.last().1;
        assert(frames[f.len() - 1] == f.last());
        assert(rs[p].1[d - 1] == rs[q].0);
        lemma_nonterms_step(rs[p].1, d - 1, t);
        assert(rs[p].1.take(d - 1 + 1) =~= rs[p].1.take(d));
        let kb = nonterms_of(rs[p].1.take(d - 1), t).len();
        assert(tags_below(rs, t, f) == tags_below(rs, t, f.drop_last()) + nonterms_of(
            rs[p].1.take(d - 1),
            t,
        ));
        assert(v1.len() >= kb);
        let split = v1.len() - kb;
        assert(values.take(split) =~= v1.take(split));
        assert(values.skip(split) =~= v1.skip(split).push(node));
        assert(values.skip(split).drop_last() =~= v1.skip(split));
        assert(preorder_all(values.skip(split)) == preorder_all(v1.skip(split)) + preorder(node));
        assert(log_of(rs, t, f, values) =~= log_below(rs, t, f, v1) + preorder(node));
        assert(log_of(rs, t, frames, old_values) =~= log_below(rs, t, f, v1) + seq![q] + preorder_all(
            old_values.skip(at),
        ));
    } else {
        assert(v1.len() == 0);
        assert(v1 =~= Seq::<ParseTree>::empty());
        assert(values =~= seq![node]);
        assert(values.drop_last() =~= Seq::<ParseTree>::empty());
        assert(preorder_all(values.drop_last()) =~= Seq::<int>::empty());
        assert(values.last() == node);
        assert(preorder_all(values) =~= preorder(node));
        assert(log_of(rs, t, frames, old_values) =~= log_below(rs, t, f, v1) + seq![q] + preorder_all(
            old_values.skip(at),
        ));
        assert(log_below(rs, t, f, v1) =~= Seq::<int>::empty());
    }
}

/// A reduction builds a reduction tree from the trees it pops.
proof fn lemma_reduce_tree(
    rs: Seq<(int, Seq<int>)>,
    t: int,
    frames: Seq<(int, int)>,
    old_values: Seq<ParseTree>,
    values: Seq<ParseTree>,
    node: ParseTree,
    q: int,
    k: int,
)
    requires
        frames.len() > 0,
        0 <= q < rs.len(),
        frames.last() == (q, rs[q].1.len() as int),
        tags(old_values) == tags_of(rs, t, frames),
        k == nonterms_of(rs[q].1, t).len(),
        k <= old_values.len(),
        node.production == q,
        node.nonterminal == rs[q].0,
        node.children@ == old_values.skip(old_values.len() - k),
        values == old_values.take(old_values.len() - k).push(node),
        forall|i: int| 0 <= i < old_values.len() ==> #[trigger] reduction_tree(rs, t, old_values[i]),
    ensures
        forall|i: int| 0 <= i < values.len() ==> #[trigger] reduction_tree(rs, t, values[i]),
{
    let at = old_values.len() - k;
    let below = tags_below(rs, t, frames.drop_last());
    assert(rs[q].1.take(rs[q].1.len() as int) =~= rs[q].1);
    assert(tags_of(rs, t, frames) == below + nonterms_of(rs[q].1.take(rs[q].1.len() as int), t));
    assert(tags(old_values) == below + nonterms_of(rs[q].1, t));
    assert(tags(old_values).len() == old_values.len());
    assert(tags(old_values).skip(at) =~= nonterms_of(rs[q].1, t));
    assert(tags(node.children@) =~= tags(old_values).skip(at));
    assert forall|i: int| 0 <= i < node.children@.len() implies #[trigger] reduction_tree(
        rs,
        t,
        node.children@[i],
    ) by {
        assert(node.children@[i] == old_values[at + i]);
    }
    lemma_reduction_trees(rs, t, node.children@);
    assert(node.production as int == q);
    assert(0 <= node.production < rs.len());
    assert(node.nonterminal == rs[node.production as int].0);
    assert(tags(node.children@) == nonterms_of(rs[node.production as int].1, t));
    assert(reduction_tree(rs, t, node));
    assert forall|i: int| 0 <= i < values.len() implies #[trigger] reduction_tree(rs, t, values[i]) by {
        if i < at {
            assert(values[i] == old_values[i]);
        }
    }
}

proof fn lemma_work_top(rs: Seq<(int, Seq<int>)>, frames: Seq<(int, int)>)
    requires
        frames.len() > 0,
        chain_ok(rs, frames),
    ensures
        ({
            let p = frames.last().0;
            let d = frames.last().1;
            let w = work_of(rs, frames);
            &&& 0 <= p < rs.len()
            &&& 0 <= d <= rs[p].1.len()
            &&& w.len() > 0
            &&& d < rs[p].1.len() ==> w.last() == SymbolOrReduction::Symbol(rs[p].1[d] as usize)
                && w.drop_last() == work_of(rs, frames.update(frames.len() - 1, (p, d + 1)))
            &&& d == rs[p].1.len() ==> w.last() == SymbolOrReduction::Reduction(p as usize)
                && w.drop_last() == work_of(rs, frames.drop_last())
        }),
{
    let p = frames.last().0;
    let d = frames.last().1;
    let r = rs[p].1;
    let below = work_of(rs, frames.drop_last()).push(SymbolOrReduction::Reduction(p as usize));
    assert(frames[frames.len() - 1] == frames.last());
    if d < r.len() {
        let g = frames.update(frames.len() - 1, (p, d + 1));
        assert(g.drop_last() =~= frames.drop_last());
        assert(expansion(r.skip(d)).drop_last() =~= expansion(r.skip(d + 1)));
        assert((below + expansion(r.skip(d))).drop_last() =~= below + expansion(r.skip(d + 1)));
    } else {
        assert(expansion(r.skip(d)) =~= Seq::<SymbolOrReduction>::empty());
        assert(below + expansion(r.skip(d)) =~= below);
    }
}

/// A reduction closes the top open production: its values leave the value
/// stack and one value of its nonterminal takes their place.
proof fn lemma_reduce_step(
    rs: Seq<(int, Seq<int>)>,
    t: int,
    start: int,
    frames: Seq<(int, int)>,
    old_values: Seq<ParseTree>,
    values: Seq<ParseTree>,
    q: int,
    k: int,
)
    requires
        frames.len() > 0,
        chain_ok(rs, frames),
        rs[frames[0].0].0 == start,
        0 <= q < rs.len(),
        rs[q].0 >= t,
        frames.last() == (q, rs[q].1.len() as int),
        tags(old_values) == tags_of(rs, t, frames),
        k == nonterms_of(rs[q].1, t).len(),
        k <= old_values.len(),
        tags(values) == tags(old_values.subrange(0, old_values.len() - k)).push(rs[q].0),
    ensures
        frames.drop_last().len() > 0 ==> {
            let f = frames.drop_last();
            &&& tags(values) == tags_of(rs, t, f)
            &&& chain_ok(rs, f)
            &&& rs[f[0].0].0 == start
        },
        frames.drop_last().len() == 0 ==> tags(values) == seq![start],
{
    let f = frames.drop_last();
    let below = tags_below(rs, t, f);
    assert(rs[q].1.take(rs[q].1.len() as int) =~= rs[q].1);
    let at = old_values.len() - k;
    assert(tags_of(rs, t, frames) == below + nonterms_of(rs[q].1.take(rs[q].1.len() as int), t));
    assert(tags(old_values) == below + nonterms_of(rs[q].1, t));
    assert(tags(old_values).len() == old_values.len());
    assert(below.len() == at);
    assert(tags(old_values).subrange(0, at) =~= below);
    assert(tags(old_values.subrange(0, at)) =~= tags(old_values).subrange(0, at));
    if f.len() > 0 {
        let p = f.last().0;
        let d = f.last().1;
        assert(frames[f.len() - 1] == f.last());
        assert(rs[p].1[d - 1] == rs[q].0);
        lemma_nonterms_step(rs[p].1, d - 1, t);
        assert(rs[p].1.take(d - 1 + 1) =~= rs[p].1.take(d));
        let a = tags_below(rs, t, f.drop_last());
        let b = nonterms_of(rs[p].1.take(d - 1), t);
        assert(below == a + b);
        assert(nonterms_of(rs[p].1.take(d), t) == b.push(rs[q].0));
        assert((a + b).push(rs[q].0) =~= a + b.push(rs[q].0));
        assert(tags(values) =~= tags_of(rs, t, f));
        assert(frames[0] == f[0]);
        assert forall|i: int| 0 <= i < f.len() implies (#[trigger] f[i]) == frames[i] by {}
    } else {
        assert(frames.len() == 1);
        assert(frames[0] == frames.last());
        assert(tags(values) =~= seq![start]);
    }
}

/// Matching a terminal moves the top open production one symbol on.
proof fn lemma_terminal_step(rs: Seq<(int, Seq<int>)>, t: int, frames: Seq<(int, int)>)
    requires
        frames.len() > 0,
        chain_ok(rs, frames),
        frames.last().1 < rs[frames.last().0].1.len(),
        rs[frames.last().0].1[frames.last().1] < t,
    ensures
        ({
            let f = frames.update(frames.len() - 1, (frames.last().0, frames.last().1 + 1));
            &&& tags_of(rs, t, f) == tags_of(rs, t, frames)
            &&& chain_ok(rs, f)
            &&& f[0].0 == frames[0].0
        }),
{
    let p = frames.last().0;
    let d = frames.last().1;
    let top = frames.len() - 1;
    let f = frames.update(top, (p, d + 1));
    assert(frames[top] == frames.last());
    lemma_nonterms_step(rs[p].1, d, t);
    assert(f.drop_last() =~= frames.drop_last());
    assert(tags_of(rs, t, f) =~= tags_of(rs, t, frames));
    assert forall|i: int| 0 <= i < top implies (#[trigger] f[i]) == frames[i] by {}
}

/// Expanding the nonterminal at the top opens a production for it.
proof fn lemma_expand_step(rs: Seq<(int, Seq<int>)>, t: int, frames: Seq<(int, int)>, q: int)
    requires
        frames.len() > 0,
        chain_ok(rs, frames),
        frames.last().1 < rs[frames.last().0].1.len(),
        0 <= q < rs.len(),
        rs[frames.last().0].1[frames.last().1] == rs[q].0,
    ensures
        ({
            let g = frames.update(frames.len() - 1, (frames.last().0, frames.last().1 + 1));
            let f = g.push((q, 0int));
            &&& tags_of(rs, t, f) == tags_of(rs, t, frames)
            &&& chain_ok(rs, f)
            &&& f[0].0 == frames[0].0
            &&& work_of(rs, f) == work_of(rs, g).push(SymbolOrReduction::Reduction(q as usize))
                + expansion(rs[q].1)
        }),
{
    let p = frames.last().0;
    let d = frames.last().1;
    let top = frames.len() - 1;
    let g = frames.update(top, (p, d + 1));
    let f = g.push((q, 0int));
    assert(frames[top] == frames.last());
    assert(f.drop_last() =~= g);
    assert(g.drop_last() =~= frames.drop_last());
    assert(rs[q].1.skip(0) =~= rs[q].1);
    assert(rs[q].1.take(0) =~= Seq::<int>::empty());
    assert(nonterms_of(rs[q].1.take(0), t) =~= Seq::<int>::empty());
    assert(rs[p].1.take(d + 1 - 1) =~= rs[p].1.take(d));
    assert(tags_of(rs, t, f) =~= tags_of(rs, t, frames));
    assert forall|i: int| 0 <= i < top implies (#[trigger] f[i]) == frames[i] by {}
    assert(f[top] == (p, d + 1));
}

/// Parses the tokens, given by terminal number, against tables that
/// `build_parser_tables` built. The driver stops on every input; what it
/// returns is decided by where it stops.
pub fn parse(tables: &ParserTables, tokens: &Vec<usize>) -> (r: Result<ParseTree, ParseError>)
    requires
        exists|g: AstGrammar| built_for(*tables, g),
        forall|i: int|
            0 <= i < tokens@.len() ==> #[trigger] tokens@[i] < tables.num_terms && tokens@[i]
                != tables.eof,
    ensures
        halts(*tables, tokens@),
        viable(*tables, tokens@, final_config(*tables, tokens@).0, final_config(*tables, tokens@).1),
        reports(*tables, tokens@, final_config(*tables, tokens@).0, final_config(*tables, tokens@).1, r),
        r is Ok ==> final_config(*tables, tokens@).1 == tokens@.len(),
        r matches Ok(tree) ==> reduction_tree(tables.rs(), tables.num_terms as int, tree),
        r matches Ok(tree) ==> exists|w: Seq<int>|
            {
                &&& leftmost_derive(tables.rs(), tables.num_terms as int, seq![tables.start as int], preorder(tree))
                    == Some(w)
                &&& forall|k: int| 0 <= k < w.len() ==> 0 <= #[trigger] w[k] < tables.num_terms
                &&& #[trigger] without_eof(w, tables.eof as int) == tokens@.map_values(
                    |x: usize| x as int,
                )
            },
{
    proof {
        let g = choose|g: AstGrammar| built_for(*tables, g);
        crate::completeness::lemma_built_tables_halt(g, *tables, tokens@);
    }
    let ghost rs = tables.rs();
    let ghost t = tables.num_terms as int;
    let ghost n0 = choose|n: nat| halts_within(*tables, tokens@, initial_work(*tables), 0, n);
    let mut stack: Vec<SymbolOrReduction> = Vec::new();
    stack.push(SymbolOrReduction::Symbol(tables.start));
    let mut values: Vec<ParseTree> = Vec::new();
    let mut pos: usize = 0;
    let ghost mut fuel: nat = n0;
    let ghost mut started = false;
    let ghost mut frames: Seq<(int, int)> = seq![];
    let ghost mut log: Seq<int> = seq![];
    let ghost mut matched: Seq<int> = seq![];
    proof {
        assert(stack@ =~= initial_work(*tables));
        assert(stack@.drop_last() =~= Seq::<SymbolOrReduction>::empty());
        assert(pending(stack@.drop_last()) =~= Seq::<int>::empty());
        assert(pending(stack@) =~= seq![tables.start as int]);
        assert(matched + pending(stack@) =~= seq![tables.start as int]);
        assert(tokens@.take(0).map_values(|x: usize| x as int) =~= Seq::<int>::empty());
        assert(preorder_all(values@) =~= Seq::<int>::empty());
    }
    while stack.len() > 0
        invariant
            tables.wf(),
            rs == tables.rs(),
            t == tables.num_terms,
            forall|i: int|
                0 <= i < tokens@.len() ==> #[trigger] tokens@[i] < tables.num_terms && tokens@[i]
                    != tables.eof,
            pos <= tokens@.len(),
            halts_within(*tables, tokens@, stack@, pos as int, fuel),
            stop(*tables, tokens@, stack@, pos as int, fuel) == final_config(*tables, tokens@),
            driver_state(*tables, stack@, values@, started, frames),
            derivation_state(*tables, tokens@, stack@, pos as int, log, matched),
            log == log_of(rs, t, frames, values@),
            forall|i: int| 0 <= i < values@.len() ==> #[trigger] reduction_tree(rs, t, values@[i]),
            halts(*tables, tokens@),
        ensures
            stack@.len() == 0,
            halts(*tables, tokens@),
            derivation_state(*tables, tokens@, stack@, pos as int, log, matched),
            log == log_of(rs, t, frames, values@),
            forall|i: int| 0 <= i < values@.len() ==> #[trigger] reduction_tree(rs, t, values@[i]),
            halts_within(*tables, tokens@, stack@, pos as int, fuel),
            stop(*tables, tokens@, stack@, pos as int, fuel) == final_config(*tables, tokens@),
            driver_state(*tables, stack@, values@, started, frames),
        decreases fuel,
    {
        let ghost before = stack@;
        let ghost old_values = values@;
        let ghost old_frames = frames;
        let ghost old_pos = pos as int;
        proof {
            if started && frames.len() > 0 {
                lemma_work_top(rs, frames);
            }
        }
        let item = stack.pop().unwrap();
        proof {
            assert(item == before.last());
            assert(stack@ == before.drop_last());
            if !started {
                assert(before.last() == SymbolOrReduction::Symbol(tables.start));
            }
        }
        match item {
            SymbolOrReduction::Reduction(q) => {
                proof {
                    assert(started && frames.len() > 0);
                    let p = frames.last().0;
                    let d = frames.last().1;
                    if d < rs[p].1.len() {
                        assert(before.last() == SymbolOrReduction::Symbol(rs[p].1[d] as usize));
                    }
                    assert(d == rs[p].1.len());
                    assert(0 <= p < tables.rules@.len());
                    vstd::std_specs::vec::axiom_spec_len(&tables.rules);
                    assert(p <= usize::MAX);
                    assert(before.last() == SymbolOrReduction::Reduction(p as usize));
                    assert(p == q);
                    assert(rs[q as int].1 =~= tables.rules@[q as int].rhs@.map_values(|x: usize| x as int));
                    assert(rs[q as int].1.take(d) =~= rs[q as int].1);
                    assert(tags(values@).len() == values@.len());
                }
                let k = count_nonterminals(&tables.rules[q].rhs, tables.num_terms);
                let at = values.len() - k;
                let children = values.split_off(at);
                let lhs = tables.rules[q].lhs;
                values.push(ParseTree { nonterminal: lhs, production: q, children });
                proof {
                    assert(tags(values@) =~= tags(old_values.subrange(0, at as int)).push(lhs as int));
                    assert(rs[q as int].0 >= t);
                    lemma_reduce_step(rs, t, tables.start as int, frames, old_values, values@, q as int, k as int);
                    let node = values@.last();
                    assert(node.children@ =~= old_values.skip(at as int));
                    assert(values@ =~= old_values.take(at as int).push(node));
                    lemma_log_reduce(rs, t, frames, old_values, values@, node, q as int, k as int);
                    lemma_reduce_tree(rs, t, frames, old_values, values@, node, q as int, k as int);
                    frames = frames.drop_last();
                    assert(next(*tables, tokens@, before, old_pos) == Some((stack@, pos as int)));
                    assert(pending(before) =~= pending(stack@));
                    fuel = (fuel - 1) as nat;
                }
            },
            SymbolOrReduction::Symbol(x) => {
                if x < tables.num_terms {
                    if x == tables.eof {
                        if pos < tokens.len() {
                            proof {
                                assert(derivation_state(*tables, tokens@, before, old_pos, log, matched));
                            }
                            return Err(ParseError::ExtraToken(tokens[pos]));
                        }
                    } else {
                        if pos >= tokens.len() {
                            proof {
                                assert(derivation_state(*tables, tokens@, before, old_pos, log, matched));
                            }
                            return Err(ParseError::UnexpectedEOF);
                        }
                        let token = tokens[pos];
                        pos += 1;
                        if token != x {
                            let name = unquote(&tables.terminal_names[x]);
                            let mut expected: Vec<String> = Vec::new();
                            expected.push(name);
                            proof {
                                assert(expected@.map_values(|s: String| s@) =~= seq![
                                    unquoted(tables.terminal_names@.map_values(|s: String| s@)[x as int]),
                                ]);
                            }
                            proof {
                                assert(derivation_state(*tables, tokens@, before, old_pos, log, matched));
                            }
                            return Err(ParseError::UnrecognizedToken { expected, found: token });
                        }
                    }
                    proof {
                        assert(started && frames.len() > 0);
                        let p = frames.last().0;
                        let d = frames.last().1;
                        assert(d < rs[p].1.len());
                        lemma_terminal_step(rs, t, frames);
                        lemma_log_terminal(rs, t, frames, values@);
                        frames = frames.update(frames.len() - 1, (p, d + 1));
                        lemma_match_terminal(*tables, tokens@, before, old_pos, pos as int, log, matched, x as int);
                        matched = matched.push(x as int);
                        assert(next(*tables, tokens@, before, old_pos) == Some((stack@, pos as int)));
                        fuel = (fuel - 1) as nat;
                    }
                } else {
                    let la = if pos < tokens.len() {
                        tokens[pos]
                    } else {
                        tables.eof
                    };
                    let cell = &tables.table[x - tables.num_terms];
                    if cell[la].len() == 0 {
                        if pos >= tokens.len() {
                            proof {
                                assert(derivation_state(*tables, tokens@, before, old_pos, log, matched));
                            }
                            return Err(ParseError::UnexpectedEOF);
                        }
                        let expected = expected_names(tables, x);
                        proof {
                            assert(derivation_state(*tables, tokens@, before, old_pos, log, matched));
                        }
                        return Err(ParseError::UnrecognizedToken { expected, found: tokens[pos] });
                    }
                    let q = cell[la][0];
                    let ghost rest = stack@;
                    stack.push(SymbolOrReduction::Reduction(q));
                    let rhs = &tables.rules[q].rhs;
                    let ghost base = stack@;
                    let mut i: usize = rhs.len();
                    while i > 0
                        invariant
                            i <= rhs@.len(),
                            stack@ == base + expansion(rhs@.map_values(|y: usize| y as int)).take(
                                (rhs@.len() - i) as int,
                            ),
                        decreases i,
                    {
                        i -= 1;
                        stack.push(SymbolOrReduction::Symbol(rhs[i]));
                        assert(stack@ =~= base + expansion(rhs@.map_values(|y: usize| y as int)).take(
                            (rhs@.len() - i) as int,
                        ));
                    }
                    proof {
                        let e = expansion(rhs@.map_values(|y: usize| y as int));
                        assert(e.take(rhs@.len() as int) =~= e);
                        assert(rs[q as int].1 =~= rhs@.map_values(|y: usize| y as int));
                        assert(stack@ == rest.push(SymbolOrReduction::Reduction(q)) + expansion(rs[q as int].1));
                        assert(next(*tables, tokens@, before, old_pos) == Some((stack@, pos as int)));
                        assert(cell@[la as int]@[0] == q);
                        assert(rs[q as int].0 == x);
                        lemma_expand_derivation(*tables, tokens@, before, stack@, old_pos, log, matched, x as int, q as int);
                        log = log.push(q as int);
                        if started {
                            let p = frames.last().0;
                            let d = frames.last().1;
                            assert(d < rs[p].1.len());
                            lemma_expand_step(rs, t, frames, q as int);
                            assert(tags(values@).len() == values@.len());
                            lemma_log_expand(rs, t, frames, values@, q as int);
                            frames = frames.update(frames.len() - 1, (p, d + 1)).push((q as int, 0int));
                        } else {
                            started = true;
                            frames = seq![(q as int, 0int)];
                            assert(frames.drop_last() =~= Seq::<(int, int)>::empty());
                            assert(frames.last() == (q as int, 0int));
                            assert(rest =~= Seq::<SymbolOrReduction>::empty());
                            assert(work_of(rs, frames.drop_last()) =~= Seq::<SymbolOrReduction>::empty());
                            assert(frames.last().0 as usize == q);
                            assert(rs[q as int].1.skip(0) =~= rs[q as int].1);
                            assert(stack@ =~= work_of(rs, frames));
                            assert(rs[q as int].1.take(0) =~= Seq::<int>::empty());
                            assert(nonterms_of(rs[q as int].1.take(0), t) =~= Seq::<int>::empty());
                            assert(tags(values@) =~= tags_of(rs, t, frames));
                        }
                        fuel = (fuel - 1) as nat;
                    }
                }
            },
        }
    }
    if pos < tokens.len() {
        proof {
            assert(derivation_state(*tables, tokens@, stack@, pos as int, log, matched));
        }
        return Err(ParseError::ExtraToken(tokens[pos]));
    }
    proof {
        if started && frames.len() > 0 {
            lemma_work_top(rs, frames);
        }
        assert(started && frames.len() == 0);
        assert(tags(values@).len() == 1);
        assert(values@.len() == 1);
        assert(tags(values@)[0] == tables.start);
        assert(matched + pending(stack@) =~= matched);
        assert(tokens@.take(pos as int) =~= tokens@);
        assert(values@.drop_last() =~= Seq::<ParseTree>::empty());
        assert(preorder_all(values@.drop_last()) =~= Seq::<int>::empty());
        assert(log =~= preorder(values@[0]));
    }
    Ok(values.pop().unwrap())
}

} // verus!

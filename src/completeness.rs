//! The driver accepts every input that the grammar derives: on the tables of
//! an LL(1) grammar, it follows the leftmost derivation of the input.
use crate::ast::AstGrammar;
use crate::derivation::{
    derives, leftmost_derive, leftmost_nonterminal, leftmost_step, lemma_derive_add_prefix,
    lemma_derive_concat_logs, lemma_derive_strip_prefix, lemma_derive_suffix, lemma_leftmost_range,
};
use crate::driver::{
    expansion, halts, halts_within, initial_work, lookahead, lemma_leftmost, lemma_pending_concat,
    lemma_pending_expansion, next, pending, stop, without_eof, ParserTables, SymbolOrReduction,
    final_config,
};
use crate::generator::built_for;
use crate::ll_table_gen::{
    all_nullable, conflict_free, first_of_seq, follow_holds_at, is_first_sets, is_follow_sets,
    is_nullable_set, is_parse_table, lemma_all_nullable_back, lemma_first_derives,
    lemma_first_derives_step, lemma_nullable_derives_empty, lemma_table_predicts,
    lemma_terminals_not_nullable, nullable_closed, predicts, rows, table_view,
};
use vstd::prelude::*;

verus! {

/// The end-of-input terminal stands only last in the start's productions,
/// and the start nonterminal stands in no right-hand side: the shape the
/// start wrapper gives a grammar.
pub open spec fn eof_at_end(rs: Seq<(int, Seq<int>)>, start: int, eof: int) -> bool {
    &&& forall|p: int, i: int|
        0 <= p < rs.len() && 0 <= i < rs[p].1.len() && #[trigger] rs[p].1[i] == eof ==> rs[p].0
            == start && i == rs[p].1.len() - 1
    &&& forall|p: int, i: int|
        0 <= p < rs.len() && 0 <= i < rs[p].1.len() ==> #[trigger] rs[p].1[i] != start
}

/// In a form derived from the start, end of input stands only last, and the
/// start itself only in the first form.
spec fn start_form_ok(form: Seq<int>, start: int, eof: int) -> bool {
    ||| form == seq![start]
    ||| (forall|k: int| 0 <= k < form.len() ==> #[trigger] form[k] != start) && (forall|k: int|
        0 <= k < form.len() && #[trigger] form[k] == eof ==> k == form.len() - 1)
}

proof fn lemma_start_forms(
    rs: Seq<(int, Seq<int>)>,
    t: int,
    start: int,
    eof: int,
    log: Seq<int>,
)
    requires
        eof_at_end(rs, start, eof),
        eof != start,
        leftmost_derive(rs, t, seq![start], log) is Some,
    ensures
        start_form_ok(leftmost_derive(rs, t, seq![start], log)->Some_0, start, eof),
    decreases log.len(),
{
    if log.len() > 0 {
        lemma_start_forms(rs, t, start, eof, log.drop_last());
        let m = leftmost_derive(rs, t, seq![start], log.drop_last())->Some_0;
        let p = log.last();
        assert(leftmost_derive(rs, t, seq![start], log) == leftmost_step(rs, t, m, p));
        let i = leftmost_nonterminal(m, t);
        lemma_leftmost_range(m, t);
        assert(i < m.len() && 0 <= p < rs.len() && m[i] == rs[p].0);
        let alpha = rs[p].1;
        let w = m.take(i) + alpha + m.skip(i + 1);
        assert(leftmost_derive(rs, t, seq![start], log) == Some(w));
        if m == seq![start] {
            assert(i == 0);
            assert(w =~= alpha);
            assert forall|k: int| 0 <= k < w.len() implies #[trigger] w[k] != start by {
                assert(w[k] == alpha[k]);
            }
            assert forall|k: int| 0 <= k < w.len() && #[trigger] w[k] == eof implies k == w.len() - 1 by {
                assert(w[k] == alpha[k]);
            }
        } else {
            assert(m[i] != start);
            assert forall|k: int| 0 <= k < w.len() implies #[trigger] w[k] != start by {
                if k < i {
                    assert(w[k] == m[k]);
                } else if k < i + alpha.len() {
                    assert(w[k] == alpha[k - i]);
                } else {
                    assert(w[k] == m[k - alpha.len() + 1]);
                }
            }
            assert forall|k: int| 0 <= k < w.len() && #[trigger] w[k] == eof implies k == w.len() - 1 by {
                if k < i {
                    assert(w[k] == m[k]);
                } else if k < i + alpha.len() {
                    assert(w[k] == alpha[k - i]);
                } else {
                    assert(w[k] == m[k - alpha.len() + 1]);
                }
            }
        }
    }
}

proof fn lemma_without_eof_plain(s: Seq<int>, eof: int)
    requires
        forall|k: int| 0 <= k < s.len() ==> #[trigger] s[k] != eof,
    ensures
        without_eof(s, eof) == s,
    decreases s.len(),
{
    if s.len() > 0 {
        lemma_without_eof_plain(s.drop_last(), eof);
        assert(s.drop_last() + seq![s.last()] =~= s);
    }
}

proof fn lemma_derive_empty(rs: Seq<(int, Seq<int>)>, t: int, log: Seq<int>)
    requires
        leftmost_derive(rs, t, Seq::<int>::empty(), log) is Some,
    ensures
        leftmost_derive(rs, t, Seq::<int>::empty(), log) == Some(Seq::<int>::empty()),
        log.len() == 0,
    decreases log.len(),
{
    if log.len() > 0 {
        lemma_derive_empty(rs, t, log.drop_last());
        let e = Seq::<int>::empty();
        assert(leftmost_derive(rs, t, e, log) == leftmost_step(rs, t, e, log.last()));
        assert(leftmost_nonterminal(e, t) == 0);
        assert(leftmost_step(rs, t, e, log.last()) is None);
    }
}

proof fn lemma_first_step(rs: Seq<(int, Seq<int>)>, t: int, form: Seq<int>, log: Seq<int>)
    requires
        log.len() > 0,
    ensures
        leftmost_derive(rs, t, form, log) == match leftmost_step(rs, t, form, log[0]) {
            Some(m) => leftmost_derive(rs, t, m, log.skip(1)),
            None => None,
        },
{
    let one = seq![log[0]];
    lemma_derive_concat_logs(rs, t, form, one, log.skip(1));
    assert(one + log.skip(1) =~= log);
    assert(one.drop_last() =~= Seq::<int>::empty());
    assert(one.last() == log[0]);
    assert(leftmost_derive(rs, t, form, Seq::<int>::empty()) == Some(form));
    assert(leftmost_derive(rs, t, form, one) == leftmost_step(rs, t, form, log[0]));
}

/// The driver's configuration lies on the derivation of the input: the
/// matched terminals and the pending symbols form a sentential form that the
/// start derives and that derives the input followed by end of input in at
/// most `m` steps.
spec fn on_track(
    ast: AstGrammar,
    tables: ParserTables,
    tokens: Seq<usize>,
    work: Seq<SymbolOrReduction>,
    pos: int,
    m: nat,
) -> bool {
    let rs = ast.rules();
    let t = ast.num_terms();
    let w = tokens.map_values(|x: usize| x as int).push(tables.eof as int);
    exists|matched: Seq<int>, log1: Seq<int>, log2: Seq<int>|
        {
            &&& log2.len() <= m
            &&& forall|k: int| 0 <= k < matched.len() ==> 0 <= #[trigger] matched[k] < t
            &&& without_eof(matched, tables.eof as int) == tokens.take(pos).map_values(
                |x: usize| x as int,
            )
            &&& #[trigger] leftmost_derive(rs, t, seq![tables.start as int], log1) == Some(
                matched + pending(work),
            )
            &&& #[trigger] leftmost_derive(rs, t, matched + pending(work), log2) == Some(w)
        }
}


/// Tables built for an LL(1) grammar, with the shape the start wrapper gives,
/// and an input of terminals other than end of input.
pub open spec fn complete_setup(
    ast: AstGrammar,
    n: Seq<bool>,
    f: Seq<Seq<bool>>,
    fo: Seq<Seq<bool>>,
    tables: ParserTables,
    tokens: Seq<usize>,
) -> bool {
    &&& ast.wf()
    &&& tables.wf()
    &&& tables.rs() == ast.rules()
    &&& tables.num_terms == ast.num_terms()
    &&& tables.table@.len() == ast.nonterminals@.len()
    &&& is_nullable_set(ast.rules(), ast.num_symbols(), n)
    &&& is_first_sets(ast.rules(), ast.num_symbols(), ast.num_terms(), n, f)
    &&& is_follow_sets(ast.rules(), ast.num_symbols(), ast.num_terms(), n, f, fo)
    &&& is_parse_table(
        ast.rules(),
        ast.num_terms(),
        ast.nonterminals@.len() as int,
        n,
        f,
        fo,
        table_view(tables.table@),
    )
    &&& conflict_free(table_view(tables.table@))
    &&& eof_at_end(ast.rules(), tables.start as int, tables.eof as int)
    &&& forall|i: int|
        0 <= i < tokens.len() ==> #[trigger] tokens[i] < tables.num_terms && tokens[i] != tables.eof
}

#[verifier::rlimit(60)]
proof fn lemma_track_step(
    ast: AstGrammar,
    n: Seq<bool>,
    f: Seq<Seq<bool>>,
    fo: Seq<Seq<bool>>,
    tables: ParserTables,
    tokens: Seq<usize>,
    work: Seq<SymbolOrReduction>,
    pos: int,
    m: nat,
)
    requires
        complete_setup(ast, n, f, fo, tables, tokens),
        on_track(ast, tables, tokens, work, pos, m),
        work.len() > 0,
        0 <= pos <= tokens.len(),
    ensures
        next(tables, tokens, work, pos) matches Some((w2, q2)) && 0 <= q2 <= tokens.len() && (
        (w2.len() < work.len() && on_track(ast, tables, tokens, w2, q2, m)) || (m > 0 && on_track(
            ast,
            tables,
            tokens,
            w2,
            q2,
            (m - 1) as nat,
        ))),
{
    let rs = ast.rules();
    let t = ast.num_terms();
    let eof = tables.eof as int;
    let start = tables.start as int;
    let w = tokens.map_values(|x: usize| x as int).push(eof);
    let (matched, log1, log2) = choose|matched: Seq<int>, log1: Seq<int>, log2: Seq<int>|
        {
            &&& log2.len() <= m
            &&& forall|k: int| 0 <= k < matched.len() ==> 0 <= #[trigger] matched[k] < t
            &&& without_eof(matched, eof) == tokens.take(pos).map_values(|x: usize| x as int)
            &&& #[trigger] leftmost_derive(rs, t, seq![start], log1) == Some(matched + pending(work))
            &&& #[trigger] leftmost_derive(rs, t, matched + pending(work), log2) == Some(w)
        };
    let rest = work.drop_last();
    let r = pending(rest);
    let form = matched + pending(work);
    // The matched terminals are the tokens before `pos`.
    lemma_start_forms(rs, t, start, eof, log1);
    assert(start >= t);
    let head = match work.last() {
        SymbolOrReduction::Symbol(x) => seq![x as int],
        SymbolOrReduction::Reduction(_) => Seq::<int>::empty(),
    };
    assert(pending(work) == head + r);
    if work.last() is Symbol {
        assert forall|k: int| 0 <= k < matched.len() implies #[trigger] matched[k] != eof by {
            if form == seq![start] {
                assert(matched.len() == 0);
            } else {
                assert(form[k] == matched[k]);
                assert(form.len() > matched.len());
            }
        }
        lemma_without_eof_plain(matched, eof);
        assert(matched.len() == pos);
        assert forall|k: int| 0 <= k < pos implies #[trigger] w[k] == matched[k] by {
            assert(w[k] == tokens[k] as int);
            assert(tokens.take(pos).map_values(|x: usize| x as int)[k] == tokens[k] as int);
        }
    }
    match work.last() {
        SymbolOrReduction::Reduction(_) => {
            assert(pending(work) =~= r);
            assert(next(tables, tokens, work, pos) == Some((rest, pos)));
        },
        SymbolOrReduction::Symbol(x) => {
            let xi = x as int;
            if x < tables.num_terms {
                let pm = matched + seq![xi];
                assert forall|k: int| 0 <= k < pm.len() implies #[trigger] pm[k] < t by {}
                assert(pm + r =~= form);
                lemma_derive_strip_prefix(rs, t, pm, r, log2);
                assert(w[pos] == pm[pos]);
                assert(pm.drop_last() =~= matched);
                if x == tables.eof {
                    if pos < tokens.len() {
                        assert(w[pos] == tokens[pos] as int);
                    }
                    assert(pos == tokens.len());
                    assert(next(tables, tokens, work, pos) == Some((rest, pos)));
                    assert(without_eof(pm, eof) == without_eof(matched, eof));
                    assert(forall|k: int| 0 <= k < pm.len() ==> 0 <= #[trigger] pm[k] < t);
                    assert(leftmost_derive(rs, t, seq![start], log1) == Some(pm + pending(rest)));
                    assert(leftmost_derive(rs, t, pm + pending(rest), log2) == Some(w));
                } else {
                    if pos == tokens.len() {
                        assert(w[pos] == eof);
                    }
                    assert(pos < tokens.len());
                    assert(w[pos] == tokens[pos] as int);
                    assert(next(tables, tokens, work, pos) == Some((rest, pos + 1)));
                    assert(without_eof(pm, eof) == without_eof(matched, eof).push(xi));
                    assert(tokens.take(pos + 1).map_values(|y: usize| y as int) =~= tokens.take(
                        pos,
                    ).map_values(|y: usize| y as int).push(xi));
                    assert(forall|k: int| 0 <= k < pm.len() ==> 0 <= #[trigger] pm[k] < t);
                    assert(leftmost_derive(rs, t, seq![start], log1) == Some(pm + pending(rest)));
                    assert(leftmost_derive(rs, t, pm + pending(rest), log2) == Some(w));
                }
            } else {
                let a = xi;
                assert(a < ast.num_symbols()) by {
                    lemma_start_forms(rs, t, start, eof, log1);
                    crate::derivation::lemma_derive_in_range(rs, t, ast.num_symbols(), seq![start], log1);
                    ast.lemma_rules_in_range();
                    assert(form[pos] == a);
                }
                assert(form =~= matched + seq![a] + r);
                lemma_leftmost(matched, a, r, t);
                if log2.len() == 0 {
                    assert(form == w);
                    assert(w[pos] < t);
                }
                lemma_first_step(rs, t, form, log2);
                let p = log2[0];
                assert(leftmost_step(rs, t, form, p) is Some);
                assert(0 <= p < rs.len() && rs[p].0 == a);
                let alpha = rs[p].1;
                let form2 = matched + alpha + r;
                assert(form.take(pos) + alpha + form.skip(pos + 1) =~= form2);
                assert(leftmost_derive(rs, t, form2, log2.skip(1)) == Some(w));
                assert(form2 =~= matched + (alpha + r));
                assert forall|k: int| 0 <= k < matched.len() implies #[trigger] matched[k] < t by {}
                lemma_derive_strip_prefix(rs, t, matched, alpha + r, log2.skip(1));
                let v = leftmost_derive(rs, t, alpha + r, log2.skip(1))->Some_0;
                assert(w == matched + v);
                assert(v.len() > 0);
                assert(v[0] == w[pos]);
                let la = if pos < tokens.len() {
                    tokens[pos] as int
                } else {
                    eof
                };
                assert(w[pos] == la);
                lemma_table_predicts(
                    ast,
                    n,
                    f,
                    fo,
                    table_view(tables.table@),
                    start,
                    log1,
                    matched,
                    a,
                    r,
                    p,
                    log2.skip(1),
                    v,
                );
                let cell = table_view(tables.table@)[a - t][la];
                assert(cell.contains(p));
                assert(cell.len() <= 1);
                assert(cell[0] == p);
                assert(cell == tables.table@[a - t]@[la]@.map_values(|q: usize| q as int));
                assert(tables.cell(a, la)[0] as int == p);
                assert(tables.choice(a, la) == Some(p));
                let w2 = rest.push(SymbolOrReduction::Reduction(p as usize)) + expansion(alpha);
                assert(next(tables, tokens, work, pos) == Some((w2, pos)));
                ast.lemma_rules_in_range();
                assert forall|k: int| 0 <= k < alpha.len() implies 0 <= #[trigger] alpha[k] <= usize::MAX by {}
                lemma_pending_expansion(alpha);
                lemma_pending_concat(rest.push(SymbolOrReduction::Reduction(p as usize)), expansion(alpha));
                assert(rest.push(SymbolOrReduction::Reduction(p as usize)).drop_last() =~= rest);
                assert(pending(rest.push(SymbolOrReduction::Reduction(p as usize))) =~= r);
                assert(pending(w2) == alpha + r);
                assert(matched + pending(w2) =~= form2);
                assert(log1.push(p).drop_last() =~= log1);
                assert(leftmost_derive(rs, t, seq![start], log1.push(p)) == Some(form2));
            }
        },
    }
}

proof fn lemma_track_end(
    ast: AstGrammar,
    n: Seq<bool>,
    f: Seq<Seq<bool>>,
    fo: Seq<Seq<bool>>,
    tables: ParserTables,
    tokens: Seq<usize>,
    pos: int,
    m: nat,
)
    requires
        complete_setup(ast, n, f, fo, tables, tokens),
        on_track(ast, tables, tokens, Seq::<SymbolOrReduction>::empty(), pos, m),
        0 <= pos <= tokens.len(),
    ensures
        pos == tokens.len(),
{
    let rs = ast.rules();
    let t = ast.num_terms();
    let eof = tables.eof as int;
    let toks = tokens.map_values(|x: usize| x as int);
    let w = toks.push(eof);
    let work = Seq::<SymbolOrReduction>::empty();
    let (matched, log1, log2) = choose|matched: Seq<int>, log1: Seq<int>, log2: Seq<int>|
        {
            &&& log2.len() <= m
            &&& forall|k: int| 0 <= k < matched.len() ==> 0 <= #[trigger] matched[k] < t
            &&& without_eof(matched, eof) == tokens.take(pos).map_values(|x: usize| x as int)
            &&& #[trigger] leftmost_derive(rs, t, seq![tables.start as int], log1) == Some(
                matched + pending(work),
            )
            &&& #[trigger] leftmost_derive(rs, t, matched + pending(work), log2) == Some(w)
        };
    assert(pending(work) =~= Seq::<int>::empty());
    assert(matched + Seq::<int>::empty() =~= matched);
    assert forall|k: int| 0 <= k < matched.len() implies #[trigger] matched[k] < t by {}
    lemma_derive_strip_prefix(rs, t, matched, Seq::<int>::empty(), log2);
    lemma_derive_empty(rs, t, log2);
    assert(w == matched);
    assert forall|k: int| 0 <= k < toks.len() implies #[trigger] toks[k] != eof by {
        assert(tokens[k] != tables.eof);
    }
    lemma_without_eof_plain(toks, eof);
    assert(w.drop_last() =~= toks);
    assert(without_eof(w, eof) == toks);
    assert(tokens.take(pos).map_values(|x: usize| x as int).len() == pos);
}

proof fn lemma_track_run(
    ast: AstGrammar,
    n: Seq<bool>,
    f: Seq<Seq<bool>>,
    fo: Seq<Seq<bool>>,
    tables: ParserTables,
    tokens: Seq<usize>,
    work: Seq<SymbolOrReduction>,
    pos: int,
    m: nat,
    fuel: nat,
)
    requires
        complete_setup(ast, n, f, fo, tables, tokens),
        on_track(ast, tables, tokens, work, pos, m),
        0 <= pos <= tokens.len(),
        halts_within(tables, tokens, work, pos, fuel),
    ensures
        stop(tables, tokens, work, pos, fuel).0.len() == 0,
        stop(tables, tokens, work, pos, fuel).1 == tokens.len(),
    decreases fuel,
{
    if work.len() == 0 {
        lemma_track_end(ast, n, f, fo, tables, tokens, pos, m);
        assert(work =~= Seq::<SymbolOrReduction>::empty());
    } else {
        lemma_track_step(ast, n, f, fo, tables, tokens, work, pos, m);
        let (w2, q2) = next(tables, tokens, work, pos)->Some_0;
        if w2.len() < work.len() && on_track(ast, tables, tokens, w2, q2, m) {
            lemma_track_run(ast, n, f, fo, tables, tokens, w2, q2, m, (fuel - 1) as nat);
        } else {
            lemma_track_run(ast, n, f, fo, tables, tokens, w2, q2, (m - 1) as nat, (fuel - 1) as nat);
        }
    }
}

/// On the derivation of the input the driver stops: each step either uses
/// up a step of the remaining derivation or shortens the work stack.
proof fn lemma_track_halts(
    ast: AstGrammar,
    n: Seq<bool>,
    f: Seq<Seq<bool>>,
    fo: Seq<Seq<bool>>,
    tables: ParserTables,
    tokens: Seq<usize>,
    work: Seq<SymbolOrReduction>,
    pos: int,
    m: nat,
) -> (k: nat)
    requires
        complete_setup(ast, n, f, fo, tables, tokens),
        on_track(ast, tables, tokens, work, pos, m),
        0 <= pos <= tokens.len(),
    ensures
        halts_within(tables, tokens, work, pos, k),
    decreases m, work.len(),
{
    if work.len() == 0 {
        assert(next(tables, tokens, work, pos) is None);
        1
    } else {
        lemma_track_step(ast, n, f, fo, tables, tokens, work, pos, m);
        let (w2, q2) = next(tables, tokens, work, pos)->Some_0;
        if w2.len() < work.len() && on_track(ast, tables, tokens, w2, q2, m) {
            let k = lemma_track_halts(ast, n, f, fo, tables, tokens, w2, q2, m);
            k + 1
        } else {
            let k = lemma_track_halts(ast, n, f, fo, tables, tokens, w2, q2, (m - 1) as nat);
            k + 1
        }
    }
}

/// The driver accepts every input that the start derives, followed by end of
/// input: on the tables of an LL(1) grammar it stops on that input, with an
/// empty stack after all the tokens, so `parse` returns `Ok`.
pub proof fn lemma_driver_complete(
    ast: AstGrammar,
    n: Seq<bool>,
    f: Seq<Seq<bool>>,
    fo: Seq<Seq<bool>>,
    tables: ParserTables,
    tokens: Seq<usize>,
    log: Seq<int>,
)
    requires
        complete_setup(ast, n, f, fo, tables, tokens),
        leftmost_derive(ast.rules(), ast.num_terms(), seq![tables.start as int], log) == Some(
            tokens.map_values(|x: usize| x as int).push(tables.eof as int),
        ),
    ensures
        halts(tables, tokens),
        final_config(tables, tokens).0.len() == 0,
        final_config(tables, tokens).1 == tokens.len(),
{
    let rs = ast.rules();
    let t = ast.num_terms();
    let start = tables.start as int;
    let work = initial_work(tables);
    let e = Seq::<int>::empty();
    assert(work.drop_last() =~= Seq::<SymbolOrReduction>::empty());
    assert(pending(work.drop_last()) =~= e);
    assert(pending(work) =~= seq![start]);
    assert(e + pending(work) =~= seq![start]);
    assert(leftmost_derive(rs, t, seq![start], e) == Some(seq![start]));
    assert(without_eof(e, tables.eof as int) =~= tokens.take(0).map_values(|x: usize| x as int));
    assert(on_track(ast, tables, tokens, work, 0, log.len()));
    let k = lemma_track_halts(ast, n, f, fo, tables, tokens, work, 0, log.len());
    assert(halts_within(tables, tokens, initial_work(tables), 0, k));
    let fuel = choose|k: nat| halts_within(tables, tokens, initial_work(tables), 0, k);
    lemma_track_run(ast, n, f, fo, tables, tokens, work, 0, log.len(), fuel);
}

/// On the tables that `build_parser_tables` gives for a grammar, the driver
/// accepts every input that the grammar's start derives followed by end of
/// input: it stops on that input, with an empty stack after all the tokens,
/// so `parse` returns `Ok`.
pub proof fn lemma_built_tables_complete(
    g: AstGrammar,
    tables: ParserTables,
    tokens: Seq<usize>,
    log: Seq<int>,
)
    requires
        built_for(tables, g),
        forall|i: int|
            0 <= i < tokens.len() ==> #[trigger] tokens[i] < tables.num_terms && tokens[i]
                != tables.eof,
        leftmost_derive(g.rules(), g.num_terms(), seq![tables.start as int], log) == Some(
            tokens.map_values(|x: usize| x as int).push(tables.eof as int),
        ),
    ensures
        halts(tables, tokens),
        final_config(tables, tokens).0.len() == 0,
        final_config(tables, tokens).1 == tokens.len(),
{
    let f = rows(tables.first@);
    let (n, fo) = choose|n: Seq<bool>, fo: Seq<Seq<bool>>|
        {
            &&& is_nullable_set(g.rules(), g.num_symbols(), n)
            &&& is_first_sets(g.rules(), g.num_symbols(), g.num_terms(), n, f)
            &&& is_follow_sets(g.rules(), g.num_symbols(), g.num_terms(), n, f, fo)
            &&& #[trigger] is_parse_table(
                g.rules(),
                g.num_terms(),
                g.nonterminals@.len() as int,
                n,
                f,
                fo,
                table_view(tables.table@),
            )
        };
    assert(complete_setup(g, n, f, fo, tables, tokens));
    lemma_driver_complete(g, n, f, fo, tables, tokens, log);
}

/// A configuration the driver can reach from the start: the matched
/// terminals spell the tokens read, and with the pending symbols they form a
/// sentential form that the start derives.
spec fn on_path(
    ast: AstGrammar,
    tables: ParserTables,
    tokens: Seq<usize>,
    work: Seq<SymbolOrReduction>,
    pos: int,
    matched: Seq<int>,
    log1: Seq<int>,
) -> bool {
    &&& 0 <= pos <= tokens.len()
    &&& forall|k: int| 0 <= k < matched.len() ==> 0 <= #[trigger] matched[k] < ast.num_terms()
    &&& without_eof(matched, tables.eof as int) == tokens.take(pos).map_values(|x: usize| x as int)
    &&& leftmost_derive(ast.rules(), ast.num_terms(), seq![tables.start as int], log1) == Some(
        matched + pending(work),
    )
}

/// Input still to be read: two per token, one for end of input.
spec fn to_read(tokens: Seq<usize>, pos: int, matched: Seq<int>, eof: int) -> nat {
    (2 * (tokens.len() - pos) + if matched.contains(eof) {
        0int
    } else {
        1int
    }) as nat
}

/// With symbols still pending, the matched terminals hold no end of input
/// and are exactly the tokens read.
proof fn lemma_path_matched(
    ast: AstGrammar,
    n: Seq<bool>,
    f: Seq<Seq<bool>>,
    fo: Seq<Seq<bool>>,
    tables: ParserTables,
    tokens: Seq<usize>,
    work: Seq<SymbolOrReduction>,
    pos: int,
    matched: Seq<int>,
    log1: Seq<int>,
)
    requires
        complete_setup(ast, n, f, fo, tables, tokens),
        on_path(ast, tables, tokens, work, pos, matched, log1),
        pending(work).len() > 0,
    ensures
        !matched.contains(tables.eof as int),
        matched.len() == pos,
        forall|k: int| 0 <= k < pos ==> #[trigger] matched[k] == tokens[k] as int,
{
    let rs = ast.rules();
    let t = ast.num_terms();
    let eof = tables.eof as int;
    let start = tables.start as int;
    let form = matched + pending(work);
    lemma_start_forms(rs, t, start, eof, log1);
    assert forall|k: int| 0 <= k < matched.len() implies #[trigger] matched[k] != eof by {
        assert(form.len() == matched.len() + pending(work).len());
        if form == seq![start] {
            assert(form.len() == 1);
            assert(matched.len() == 0);
        } else {
            assert(form[k] == matched[k]);
        }
    }
    lemma_without_eof_plain(matched, eof);
    assert forall|k: int| 0 <= k < pos implies #[trigger] matched[k] == tokens[k] as int by {
        assert(tokens.take(pos).map_values(|x: usize| x as int)[k] == tokens[k] as int);
    }
}

/// A step keeps the driver on its path: it matches a terminal, drops a
/// marker, or applies the chosen production as a leftmost step.
#[verifier::rlimit(80)]
proof fn lemma_path_step(
    ast: AstGrammar,
    n: Seq<bool>,
    f: Seq<Seq<bool>>,
    fo: Seq<Seq<bool>>,
    tables: ParserTables,
    tokens: Seq<usize>,
    work: Seq<SymbolOrReduction>,
    pos: int,
    matched: Seq<int>,
    log1: Seq<int>,
) -> (r: (Seq<int>, Seq<int>))
    requires
        complete_setup(ast, n, f, fo, tables, tokens),
        on_path(ast, tables, tokens, work, pos, matched, log1),
        next(tables, tokens, work, pos) is Some,
    ensures
        on_path(
            ast,
            tables,
            tokens,
            next(tables, tokens, work, pos)->Some_0.0,
            next(tables, tokens, work, pos)->Some_0.1,
            r.0,
            r.1,
        ),
        work.last() matches SymbolOrReduction::Symbol(x) && x < tables.num_terms ==> to_read(
            tokens,
            next(tables, tokens, work, pos)->Some_0.1,
            r.0,
            tables.eof as int,
        ) < to_read(tokens, pos, matched, tables.eof as int),
        !(work.last() matches SymbolOrReduction::Symbol(x) && x < tables.num_terms) ==> r.0
            == matched && next(tables, tokens, work, pos)->Some_0.1 == pos,
{
    let rs = ast.rules();
    let t = ast.num_terms();
    let eof = tables.eof as int;
    let start = tables.start as int;
    let rest = work.drop_last();
    let r = pending(rest);
    let (w2, q2) = next(tables, tokens, work, pos)->Some_0;
    match work.last() {
        SymbolOrReduction::Reduction(_) => {
            assert(pending(work) =~= r);
            (matched, log1)
        },
        SymbolOrReduction::Symbol(x) => {
            let xi = x as int;
            assert(pending(work) == seq![xi] + r);
            lemma_path_matched(ast, n, f, fo, tables, tokens, work, pos, matched, log1);
            if x < tables.num_terms {
                let pm = matched.push(xi);
                assert(matched + pending(work) =~= pm + r);
                assert(pm.drop_last() =~= matched);
                assert forall|k: int| 0 <= k < pm.len() implies 0 <= #[trigger] pm[k] < t by {}
                assert(pm[matched.len() as int] == xi);
                assert(pm.contains(xi));
                if x == tables.eof {
                    assert(q2 == pos);
                    assert(without_eof(pm, eof) == without_eof(matched, eof));
                } else {
                    assert(q2 == pos + 1);
                    assert(without_eof(pm, eof) == without_eof(matched, eof).push(xi));
                    assert(tokens.take(pos + 1).map_values(|y: usize| y as int) =~= tokens.take(
                        pos,
                    ).map_values(|y: usize| y as int).push(xi));
                    assert forall|k: int| 0 <= k < pm.len() implies #[trigger] pm[k] != eof by {
                        if k < matched.len() {
                            assert(pm[k] == matched[k]);
                            assert(!matched.contains(eof));
                        }
                    }
                }
                (pm, log1)
            } else {
                let a = xi;
                let la = lookahead(tables, tokens, pos);
                assert(tables.choice(a, la) is Some);
                let p = tables.choice(a, la)->Some_0;
                assert(a < ast.num_symbols()) by {
                    assert forall|k: int| 0 <= k < seq![start].len() implies 0 <= #[trigger] seq![start][k] < ast.num_symbols() by {}
                    ast.lemma_rules_in_range();
                    crate::derivation::lemma_derive_in_range(rs, t, ast.num_symbols(), seq![start], log1);
                    let form = matched + pending(work);
                    assert(leftmost_derive(rs, t, seq![start], log1)->Some_0 == form);
                    assert(form[matched.len() as int] == a);
                    assert(0 <= form[matched.len() as int] < ast.num_symbols());
                }
                assert(0 <= p < rs.len() && rs[p].0 == a) by {
                    assert(tables.cell(a, la).len() > 0);
                    assert(tables.table@[a - t]@[la]@[0] as int == p);
                }
                let alpha = rs[p].1;
                let form = matched + pending(work);
                assert(form =~= matched + seq![a] + r);
                lemma_leftmost(matched, a, r, t);
                assert(form.take(matched.len() as int) + alpha + form.skip(matched.len() as int + 1) =~= matched + alpha + r);
                assert(log1.push(p).drop_last() =~= log1);
                ast.lemma_rules_in_range();
                assert forall|k: int| 0 <= k < alpha.len() implies 0 <= #[trigger] alpha[k] <= usize::MAX by {}
                lemma_pending_expansion(alpha);
                lemma_pending_concat(rest.push(SymbolOrReduction::Reduction(p as usize)), expansion(alpha));
                assert(rest.push(SymbolOrReduction::Reduction(p as usize)).drop_last() =~= rest);
                assert(pending(rest.push(SymbolOrReduction::Reduction(p as usize))) =~= r);
                assert(w2 == rest.push(SymbolOrReduction::Reduction(p as usize)) + expansion(alpha));
                assert(matched + pending(w2) =~= matched + alpha + r);
                (matched, log1.push(p))
            }
        },
    }
}

/// What the driver is doing with the current lookahead: anything (phase 0);
/// following a derivation of the pending symbols to a form that begins with
/// the lookahead (phase 1); or deriving the empty string from the pending
/// symbols above the first `lower` entries of the stack, nullable
/// nonterminals whose FOLLOW sets hold the lookahead (phase 2).
spec fn phase_ok(
    ast: AstGrammar,
    n: Seq<bool>,
    fo: Seq<Seq<bool>>,
    tables: ParserTables,
    tokens: Seq<usize>,
    phase: int,
    work: Seq<SymbolOrReduction>,
    pos: int,
    log: Seq<int>,
    v: Seq<int>,
    lower: nat,
) -> bool {
    let rs = ast.rules();
    let t = ast.num_terms();
    let la = lookahead(tables, tokens, pos);
    let seg = pending(work.skip(lower as int));
    ||| phase == 0
    ||| phase == 1 && leftmost_derive(rs, t, pending(work), log) == Some(v) && v.len() > 0 && v[0] == la
    ||| phase == 2 && lower <= work.len() && leftmost_derive(rs, t, seg, log) == Some(
        Seq::<int>::empty(),
    ) && forall|k: int|
        0 <= k < seg.len() ==> t <= #[trigger] seg[k] < ast.num_symbols() && n[seg[k]] && fo[seg[k]][la]
}

spec fn rank_a(phase: int, work: Seq<SymbolOrReduction>, lower: nat) -> int {
    if phase == 0 {
        work.len() as int
    } else if phase == 1 {
        0
    } else {
        lower as int
    }
}

spec fn rank_b(phase: int, log: Seq<int>) -> int {
    if phase == 0 {
        2
    } else if phase == 1 {
        log.len() as int
    } else {
        3 + log.len() as int
    }
}

spec fn rank_c(phase: int, work: Seq<SymbolOrReduction>) -> int {
    if phase == 0 {
        0
    } else {
        work.len() as int
    }
}

/// The cell the driver reads holds the production `p` exactly when it
/// predicts `p`, and then holds nothing else.
proof fn lemma_choice(
    ast: AstGrammar,
    n: Seq<bool>,
    f: Seq<Seq<bool>>,
    fo: Seq<Seq<bool>>,
    tables: ParserTables,
    tokens: Seq<usize>,
    a: int,
    la: int,
    p: int,
)
    requires
        complete_setup(ast, n, f, fo, tables, tokens),
        ast.num_terms() <= a < ast.num_symbols(),
        0 <= la < ast.num_terms(),
        0 <= p < ast.rules().len(),
        ast.rules()[p].0 == a,
        predicts(ast.rules(), n, f, fo, p, la),
    ensures
        tables.choice(a, la) == Some(p),
{
    let t = ast.num_terms();
    let cell = table_view(tables.table@)[a - t][la];
    assert(cell.contains(p));
    assert(cell.len() <= 1);
    assert(cell[0] == p);
    assert(cell == tables.table@[a - t]@[la]@.map_values(|q: usize| q as int));
}

proof fn lemma_choice_predicts(
    ast: AstGrammar,
    n: Seq<bool>,
    f: Seq<Seq<bool>>,
    fo: Seq<Seq<bool>>,
    tables: ParserTables,
    tokens: Seq<usize>,
    a: int,
    la: int,
)
    requires
        complete_setup(ast, n, f, fo, tables, tokens),
        ast.num_terms() <= a < ast.num_symbols(),
        0 <= la < ast.num_terms(),
        tables.choice(a, la) is Some,
    ensures
        ({
            let p = tables.choice(a, la)->Some_0;
            0 <= p < ast.rules().len() && ast.rules()[p].0 == a && predicts(ast.rules(), n, f, fo, p, la)
        }),
{
    let t = ast.num_terms();
    let p = tables.choice(a, la)->Some_0;
    let cell = table_view(tables.table@)[a - t][la];
    assert(cell == tables.table@[a - t]@[la]@.map_values(|q: usize| q as int));
    assert(cell[0] == p);
    assert(cell.contains(p));
}

/// On conflict-free tables built for a grammar the driver stops, whatever
/// the input: between two tokens it either follows a derivation towards the
/// lookahead or derives the empty string, each of finite length.
#[verifier::rlimit(80)]
proof fn lemma_halts_from(
    ast: AstGrammar,
    n: Seq<bool>,
    f: Seq<Seq<bool>>,
    fo: Seq<Seq<bool>>,
    tables: ParserTables,
    tokens: Seq<usize>,
    phase: int,
    work: Seq<SymbolOrReduction>,
    pos: int,
    matched: Seq<int>,
    log1: Seq<int>,
    log: Seq<int>,
    v: Seq<int>,
    lower: nat,
) -> (k: nat)
    requires
        complete_setup(ast, n, f, fo, tables, tokens),
        on_path(ast, tables, tokens, work, pos, matched, log1),
        phase_ok(ast, n, fo, tables, tokens, phase, work, pos, log, v, lower),
    ensures
        halts_within(tables, tokens, work, pos, k),
    decreases to_read(tokens, pos, matched, tables.eof as int), rank_a(phase, work, lower), rank_b(
        phase,
        log,
    ), rank_c(phase, work),
{
    let rs = ast.rules();
    let t = ast.num_terms();
    let eof = tables.eof as int;
    let la = lookahead(tables, tokens, pos);
    assert(0 <= la < t);
    if phase == 2 && lower == work.len() {
        // Nothing left above `lower`: carry on with anything.
        return lemma_halts_from(ast, n, f, fo, tables, tokens, 0, work, pos, matched, log1, log, v, 0);
    }
    if work.len() == 0 {
        assert(next(tables, tokens, work, pos) is None);
        return 1;
    }
    if next(tables, tokens, work, pos) is None {
        return 1;
    }
    let (w2, q2) = next(tables, tokens, work, pos)->Some_0;
    let rest = work.drop_last();
    let r = pending(rest);
    let (m2, l2) = lemma_path_step(ast, n, f, fo, tables, tokens, work, pos, matched, log1);
    match work.last() {
        SymbolOrReduction::Reduction(_) => {
            assert(w2 == rest && q2 == pos);
            assert(pending(work) =~= r);
            let k = if phase == 1 {
                lemma_halts_from(ast, n, f, fo, tables, tokens, 1, w2, q2, m2, l2, log, v, lower)
            } else if phase == 2 {
                assert(work.skip(lower as int).drop_last() =~= w2.skip(lower as int));
                assert(pending(work.skip(lower as int)) =~= pending(w2.skip(lower as int)));
                lemma_halts_from(ast, n, f, fo, tables, tokens, 2, w2, q2, m2, l2, log, v, lower)
            } else {
                lemma_halts_from(ast, n, f, fo, tables, tokens, 0, w2, q2, m2, l2, log, v, lower)
            };
            k + 1
        },
        SymbolOrReduction::Symbol(x) => {
            let xi = x as int;
            assert(pending(work) == seq![xi] + r);
            if x < tables.num_terms {
                let k = lemma_halts_from(ast, n, f, fo, tables, tokens, 0, w2, q2, m2, l2, log, v, 0);
                k + 1
            } else {
                let a = xi;
                assert(a < ast.num_symbols()) by {
                    let start = tables.start as int;
                    assert forall|j: int| 0 <= j < seq![start].len() implies 0 <= #[trigger] seq![start][j] < ast.num_symbols() by {}
                    ast.lemma_rules_in_range();
                    crate::derivation::lemma_derive_in_range(rs, t, ast.num_symbols(), seq![start], log1);
                    let form = matched + pending(work);
                    assert(leftmost_derive(rs, t, seq![start], log1)->Some_0 == form);
                    assert(form[matched.len() as int] == a);
                    assert(0 <= form[matched.len() as int] < ast.num_symbols());
                }
                lemma_choice_predicts(ast, n, f, fo, tables, tokens, a, la);
                let p = tables.choice(a, la)->Some_0;
                let alpha = rs[p].1;
                assert(w2 == rest.push(SymbolOrReduction::Reduction(p as usize)) + expansion(alpha));
                assert(q2 == pos && m2 == matched);
                assert(pending(w2) == alpha + r) by {
                    ast.lemma_rules_in_range();
                    assert forall|j: int| 0 <= j < alpha.len() implies 0 <= #[trigger] alpha[j] <= usize::MAX by {}
                    lemma_pending_expansion(alpha);
                    lemma_pending_concat(rest.push(SymbolOrReduction::Reduction(p as usize)), expansion(alpha));
                    assert(rest.push(SymbolOrReduction::Reduction(p as usize)).drop_last() =~= rest);
                    assert(pending(rest.push(SymbolOrReduction::Reduction(p as usize))) =~= r);
                }
                if phase == 1 {
                    // The derivation's next production is the table's.
                    let pw = pending(work);
                    if log.len() == 0 {
                        assert(v == pw);
                        assert(v[0] == a);
                    }
                    lemma_first_step(rs, t, pw, log);
                    let q = log[0];
                    lemma_leftmost(Seq::<int>::empty(), a, r, t);
                    assert(Seq::<int>::empty() + seq![a] + r =~= pw);
                    assert(leftmost_step(rs, t, pw, q) is Some);
                    assert(0 <= q < rs.len() && rs[q].0 == a);
                    assert(pw.take(0) + rs[q].1 + pw.skip(1) =~= rs[q].1 + r);
                    assert(leftmost_derive(rs, t, rs[q].1 + r, log.skip(1)) == Some(v));
                    assert forall|j: int| 0 <= j < matched.len() implies #[trigger] matched[j] < t by {}
                    lemma_derive_add_prefix(rs, t, matched, rs[q].1 + r, log.skip(1));
                    assert(matched + (rs[q].1 + r) =~= matched + rs[q].1 + r);
                    assert(matched + pw =~= matched + seq![a] + r);
                    lemma_table_predicts(
                        ast,
                        n,
                        f,
                        fo,
                        table_view(tables.table@),
                        tables.start as int,
                        log1,
                        matched,
                        a,
                        r,
                        q,
                        log.skip(1),
                        v,
                    );
                    let cell = table_view(tables.table@)[a - t][la];
                    assert(cell.contains(q));
                    assert(cell.len() <= 1);
                    assert(cell == tables.table@[a - t]@[la]@.map_values(|z: usize| z as int));
                    assert(p == q);
                    let k = lemma_halts_from(ast, n, f, fo, tables, tokens, 1, w2, q2, m2, l2, log.skip(1), v, lower);
                    k + 1
                } else if phase == 2 {
                    let up = work.skip(lower as int);
                    let seg = pending(up);
                    assert(work =~= work.take(lower as int) + up);
                    assert(up.last() == work.last());
                    assert(up.drop_last() =~= rest.skip(lower as int));
                    assert(seg == seq![a] + pending(up.drop_last()));
                    let sr = pending(up.drop_last());
                    if log.len() == 0 {
                        assert(seg.len() == 0);
                    }
                    lemma_first_step(rs, t, seg, log);
                    let q = log[0];
                    lemma_leftmost(Seq::<int>::empty(), a, sr, t);
                    assert(Seq::<int>::empty() + seq![a] + sr =~= seg);
                    assert(leftmost_step(rs, t, seg, q) is Some);
                    assert(0 <= q < rs.len() && rs[q].0 == a);
                    let seg2 = rs[q].1 + sr;
                    assert(seg.take(0) + rs[q].1 + seg.skip(1) =~= seg2);
                    assert(leftmost_derive(rs, t, seg2, log.skip(1)) == Some(Seq::<int>::empty()));
                    assert(is_nullable_set(rs, ast.num_symbols(), n));
                    lemma_all_nullable_back(rs, t, n, seg2, log.skip(1));
                    assert forall|j: int| 0 <= j < rs[q].1.len() implies n[#[trigger] rs[q].1[j]] by {
                        assert(seg2[j] == rs[q].1[j]);
                    }
                    assert(seg[0] == a);
                    assert(fo[a][la]);
                    assert(predicts(rs, n, f, fo, q, la));
                    lemma_choice(ast, n, f, fo, tables, tokens, a, la, q);
                    assert(p == q);
                    let up2 = w2.skip(lower as int);
                    assert(up2 =~= up.drop_last().push(SymbolOrReduction::Reduction(p as usize)) + expansion(alpha));
                    assert(pending(up2) == seg2) by {
                        ast.lemma_rules_in_range();
                        assert forall|j: int| 0 <= j < alpha.len() implies 0 <= #[trigger] alpha[j] <= usize::MAX by {}
                        lemma_pending_expansion(alpha);
                        lemma_pending_concat(up.drop_last().push(SymbolOrReduction::Reduction(p as usize)), expansion(alpha));
                        assert(up.drop_last().push(SymbolOrReduction::Reduction(p as usize)).drop_last() =~= up.drop_last());
                        assert(pending(up.drop_last().push(SymbolOrReduction::Reduction(p as usize))) =~= sr);
                    }
                    lemma_terminals_not_nullable(ast, n);
                    ast.lemma_rules_in_range();
                    assert forall|j: int| 0 <= j < seg2.len() implies t <= #[trigger] seg2[j] < ast.num_symbols()
                        && n[seg2[j]] && fo[seg2[j]][la] by {
                        if j < alpha.len() {
                            assert(seg2[j] == alpha[j]);
                            assert(n[alpha[j]]);
                            assert(follow_holds_at(rs, t, n, f, fo, q, j));
                            assert forall|z: int| 0 <= z < alpha.skip(j + 1).len() implies n[#[trigger] alpha.skip(j + 1)[z]] by {
                                assert(alpha.skip(j + 1)[z] == alpha[j + 1 + z]);
                            }
                        } else {
                            assert(seg2[j] == seg[j - alpha.len() + 1]);
                        }
                    }
                    let k = lemma_halts_from(ast, n, f, fo, tables, tokens, 2, w2, q2, m2, l2, log.skip(1), v, lower);
                    k + 1
                } else {
                    // Start following a derivation, or deriving the empty string.
                    if first_of_seq(n, f, alpha, la) {
                        let i = choose|i: int| 0 <= i < alpha.len() && all_nullable(n, alpha.take(i)) && #[trigger] f[alpha[i]][la];
                        ast.lemma_rules_in_range();
                        lemma_first_derives(ast, n, f, alpha[i], la);
                        let beta = choose|beta: Seq<int>| derives(rs, t, seq![alpha[i]], seq![la] + beta);
                        lemma_first_derives_step(ast, n, p, i, la, beta);
                        let v0 = seq![la] + (beta + alpha.skip(i + 1));
                        let la0 = choose|l: Seq<int>| #[trigger] leftmost_derive(rs, t, seq![a], l) == Some(v0);
                        lemma_derive_suffix(rs, t, seq![a], r, la0);
                        assert(seq![a] + r =~= pending(work));
                        let v1 = v0 + r;
                        assert(v1[0] == la);
                        lemma_halts_from(ast, n, f, fo, tables, tokens, 1, work, pos, matched, log1, la0, v1, 0)
                    } else {
                        assert(all_nullable(n, alpha) && fo[a][la]);
                        assert(nullable_closed(rs, n));
                        assert(n[a]);
                        lemma_nullable_derives_empty(ast, n, a);
                        let le = choose|l: Seq<int>| #[trigger] leftmost_derive(rs, t, seq![a], l) == Some(Seq::<int>::empty());
                        let low = (work.len() - 1) as nat;
                        let up = work.skip(low as int);
                        assert(up =~= seq![SymbolOrReduction::Symbol(x)]);
                        assert(up.drop_last() =~= Seq::<SymbolOrReduction>::empty());
                        assert(pending(up.drop_last()) =~= Seq::<int>::empty());
                        assert(up.last() == SymbolOrReduction::Symbol(x));
                        assert(pending(up) =~= seq![a]);
                        lemma_halts_from(ast, n, f, fo, tables, tokens, 2, work, pos, matched, log1, le, v, low)
                    }
                }
            }
        },
    }
}

/// On the tables that `build_parser_tables` gives for a grammar, the driver
/// stops on every input of terminals other than end of input.
pub proof fn lemma_built_tables_halt(g: AstGrammar, tables: ParserTables, tokens: Seq<usize>)
    requires
        built_for(tables, g),
        forall|i: int|
            0 <= i < tokens.len() ==> #[trigger] tokens[i] < tables.num_terms && tokens[i]
                != tables.eof,
    ensures
        halts(tables, tokens),
{
    let f = rows(tables.first@);
    let (n, fo) = choose|n: Seq<bool>, fo: Seq<Seq<bool>>|
        {
            &&& is_nullable_set(g.rules(), g.num_symbols(), n)
            &&& is_first_sets(g.rules(), g.num_symbols(), g.num_terms(), n, f)
            &&& is_follow_sets(g.rules(), g.num_symbols(), g.num_terms(), n, f, fo)
            &&& #[trigger] is_parse_table(
                g.rules(),
                g.num_terms(),
                g.nonterminals@.len() as int,
                n,
                f,
                fo,
                table_view(tables.table@),
            )
        };
    assert(complete_setup(g, n, f, fo, tables, tokens));
    let start = tables.start as int;
    let work = initial_work(tables);
    let e = Seq::<int>::empty();
    assert(work.drop_last() =~= Seq::<SymbolOrReduction>::empty());
    assert(pending(work.drop_last()) =~= e);
    assert(pending(work) =~= seq![start]);
    assert(e + pending(work) =~= seq![start]);
    assert(leftmost_derive(g.rules(), g.num_terms(), seq![start], e) == Some(seq![start]));
    assert(without_eof(e, tables.eof as int) =~= tokens.take(0).map_values(|x: usize| x as int));
    assert(on_path(g, tables, tokens, work, 0, e, e));
    let k = lemma_halts_from(g, n, f, fo, tables, tokens, 0, work, 0, e, e, e, e, 0);
    assert(halts_within(tables, tokens, initial_work(tables), 0, k));
}
} // verus!

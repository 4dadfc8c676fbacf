//! From a grammar to the tables of its parser: the start wrapper, the
//! analyses, the predictive table and its conflict check.
use crate::ast::{rules_view, AstGrammar};
use crate::driver::ParserTables;
use crate::ll_table_gen::{
    compute_first, compute_follow, compute_nullable, compute_parse_table, conflict_free,
    find_conflict, is_first_sets, is_follow_sets, is_nullable_set, is_parse_table, rows,
    table_view, LlConflict, matrix_shape, first_conflict,
};
use crate::completeness::eof_at_end;
use crate::start_wrapper::{
    has_reserved_name, insert_wrapper_start_nonterm, lemma_wrapped_eof_at_end, no_public,
    only_public, several_public, wrapped, GrammarError,
};
use vstd::prelude::*;

verus! {

/// Why no parser can be generated for a grammar.
#[derive(Debug, PartialEq, Eq)]
pub enum GeneratorError {
    Grammar(GrammarError),
    Conflict(LlConflict),
}

/// `tables` are the parser tables of the wrapped grammar `g`: its resolved
/// productions, its FIRST sets and conflict-free predictive table over its
/// least nullable, FIRST and FOLLOW sets, its terminal names, end of input
/// only last in the wrapper's production and the wrapper as the start.
pub open spec fn built_for(tables: ParserTables, g: AstGrammar) -> bool {
    &&& g.wf()
    &&& tables.wf()
    &&& tables.num_terms == g.num_terms()
    &&& tables.start == g.num_symbols() - 1
    &&& tables.rs() == g.rules()
    &&& tables.table@.len() == g.nonterminals@.len()
    &&& tables.terminal_names@.map_values(|s: String| s@) == g.term_names()
    &&& exists|n: Seq<bool>, fo: Seq<Seq<bool>>|
        {
            &&& is_nullable_set(g.rules(), g.num_symbols(), n)
            &&& is_first_sets(g.rules(), g.num_symbols(), g.num_terms(), n, rows(tables.first@))
            &&& is_follow_sets(g.rules(), g.num_symbols(), g.num_terms(), n, rows(tables.first@), fo)
            &&& #[trigger] is_parse_table(
                g.rules(),
                g.num_terms(),
                g.nonterminals@.len() as int,
                n,
                rows(tables.first@),
                fo,
                table_view(tables.table@),
            )
        }
    &&& conflict_free(table_view(tables.table@))
    &&& eof_at_end(g.rules(), tables.start as int, tables.eof as int)
}

/// Wraps the start nonterminal, runs the analyses and builds the predictive
/// table; fails on a structural defect or on an LL(1) conflict. On success
/// the tables are those of the wrapped grammar: its resolved productions, its
/// FIRST sets and predictive table over its least nullable, FIRST and FOLLOW
/// sets, end of input as the last terminal and the wrapper as the start.
pub fn build_parser_tables(ast: &mut AstGrammar) -> (r: Result<ParserTables, GeneratorError>)
    requires
        old(ast).wf(),
        old(ast).num_symbols() + 2 < usize::MAX,
        old(ast).rules().len() + 1 < usize::MAX,
    ensures
        r matches Err(GeneratorError::Grammar(e)) ==> {
            &&& *final(ast) == *old(ast)
            &&& e == GrammarError::ReservedName <==> has_reserved_name(*old(ast))
            &&& e == GrammarError::NoPublicStart <==> !has_reserved_name(*old(ast)) && no_public(
                *old(ast),
            )
            &&& e == GrammarError::MultiplePublicStarts <==> !has_reserved_name(*old(ast))
                && several_public(*old(ast))
        },
        (r matches Err(GeneratorError::Grammar(_))) <==> (has_reserved_name(*old(ast)) || no_public(
            *old(ast),
        ) || several_public(*old(ast))),
        r is Ok ==> built_for(r->Ok_0, *final(ast)) && r->Ok_0.eof == old(ast).num_terms(),
        !(r matches Err(GeneratorError::Grammar(_))) ==> exists|k: int|
            only_public(*old(ast), k) && #[trigger] wrapped(*old(ast), *final(ast), k),
        r matches Err(GeneratorError::Conflict(c)) ==> ({
            let g = *final(ast);
            &&& g.wf()
            &&& exists|n: Seq<bool>, f: Seq<Seq<bool>>, fo: Seq<Seq<bool>>, table: Seq<Seq<Seq<int>>>|
                {
                    &&& is_nullable_set(g.rules(), g.num_symbols(), n)
                    &&& is_first_sets(g.rules(), g.num_symbols(), g.num_terms(), n, f)
                    &&& is_follow_sets(g.rules(), g.num_symbols(), g.num_terms(), n, f, fo)
                    &&& #[trigger] is_parse_table(
                        g.rules(),
                        g.num_terms(),
                        g.nonterminals@.len() as int,
                        n,
                        f,
                        fo,
                        table,
                    )
                    &&& first_conflict(table, c)
                }
        }),
{
    let eof = ast.token_decl.aliases.len();
    let ghost g0 = *ast;
    match insert_wrapper_start_nonterm(ast) {
        Err(e) => {
            return Err(GeneratorError::Grammar(e));
        },
        Ok(()) => {},
    }
    let nullable = compute_nullable(ast);
    let first = compute_first(ast, &nullable);
    let follow = compute_follow(ast, &nullable, &first);
    let table = compute_parse_table(ast, &nullable, &first, &follow);
    if let Some(c) = find_conflict(&table) {
        return Err(GeneratorError::Conflict(c));
    }
    let rules = ast.resolved_productions();
    let terminal_names = ast.terminals();
    let num_terms = ast.token_decl.aliases.len();
    let start = num_terms + ast.nonterminals.len() - 1;
    proof {
        ast.lemma_rules_in_range();
        let g = *ast;
        let k = choose|k: int| crate::start_wrapper::only_public(g0, k) && #[trigger] crate::start_wrapper::wrapped(g0, g, k);
        assert(crate::start_wrapper::wrapped(g0, g, k));
        assert(g.token_decl.aliases@.len() == g0.token_decl.aliases@.len() + 1);
        assert(g.nonterminals@.len() == g0.nonterminals@.len() + 1);
        assert(is_parse_table(g.rules(), g.num_terms(), g.nonterminals@.len() as int, nullable@, rows(first@), rows(follow@), table_view(table@)));
        let tv = table_view(table@);
        assert forall|a: int| 0 <= a < table@.len() implies (#[trigger] table@[a])@.len()
            == num_terms by {
            assert(tv[a].len() == table@[a]@.len());
        }
        assert forall|a: int, u: int, k: int|
            0 <= a < table@.len() && 0 <= u < num_terms && 0 <= k < table@[a]@[u]@.len() implies {
            let p = #[trigger] table@[a]@[u]@[k] as int;
            &&& 0 <= p < rules@.len()
            &&& rules_view(rules@)[p].0 == num_terms + a
        } by {
            let p = table@[a]@[u]@[k] as int;
            assert(tv[a][u] == table@[a]@[u]@.map_values(|q: usize| q as int));
            assert(tv[a][u][k] == p);
            assert(tv[a][u].contains(p));
        }
    }
    let tables = ParserTables { num_terms, eof, start, rules, table, first, terminal_names };
    proof {
        assert(matrix_shape(rows(tables.first@), tables.num_symbols(), tables.num_terms as int));
        assert(tables.wf());
        let k = choose|k: int| crate::start_wrapper::only_public(g0, k) && #[trigger] crate::start_wrapper::wrapped(g0, *ast, k);
        lemma_wrapped_eof_at_end(g0, *ast, k);
        assert(built_for(tables, *ast));
    }
    Ok(tables)
}

} // verus!

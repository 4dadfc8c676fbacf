//! The start wrapper: a synthetic start nonterminal `__start_wrapper` that
//! derives the user's start nonterminal followed by the end-of-input terminal
//! `"__eof"`, so that the table decides acceptance like any other choice.
use crate::ast::{
    distinct_names, position_of, AstGrammar, AstNonterminal, AstProduction, AstSymbol, AstTokenAlias, AstTokenPattern,
    AstTypePath, AstTypeRef,
};
use crate::completeness::eof_at_end;
use vstd::prelude::*;

verus! {

/// The name of the synthetic start nonterminal.
pub open spec fn wrapper_name() -> Seq<char> {
    "__start_wrapper"@
}

/// The name of the synthetic end-of-input terminal, quotes included.
pub open spec fn eof_name() -> Seq<char> {
    "\"__eof\""@
}

/// A structural defect found before analysis.
#[derive(Debug, Clone, Copy, PartialEq, Eq, Structural)]
pub enum GrammarError {
    NoPublicStart,
    MultiplePublicStarts,
    ReservedName,
}

impl AstTypeRef {
    /// The two types are written alike.
    pub open spec fn same_as(self, other: AstTypeRef) -> bool
        decreases self,
    {
        match (self, other) {
            (AstTypeRef::Ty(p1, g1), AstTypeRef::Ty(p2, g2)) => {
                &&& p1.is_absolute == p2.is_absolute
                &&& p1.segments@.map_values(|s: String| s@) == p2.segments@.map_values(
                    |s: String| s@,
                )
                &&& g1@.len() == g2@.len()
                &&& forall|i: int| 0 <= i < g1@.len() ==> (#[trigger] g1@[i]).same_as(g2@[i])
            },
            (AstTypeRef::Tuple(t1), AstTypeRef::Tuple(t2)) => {
                &&& t1@.len() == t2@.len()
                &&& forall|i: int| 0 <= i < t1@.len() ==> (#[trigger] t1@[i]).same_as(t2@[i])
            },
            _ => false,
        }
    }

    /// A copy of the type.
    pub fn duplicate(&self) -> (r: AstTypeRef)
        ensures
            self.same_as(r),
        decreases self,
    {
        match self {
            AstTypeRef::Ty(path, generics) => {
                let segments = copy_strings(&path.segments);
                let args = duplicate_all(generics);
                AstTypeRef::Ty(AstTypePath { is_absolute: path.is_absolute, segments }, args)
            },
            AstTypeRef::Tuple(tys) => AstTypeRef::Tuple(duplicate_all(tys)),
        }
    }
}

fn duplicate_all(tys: &Vec<AstTypeRef>) -> (r: Vec<AstTypeRef>)
    ensures
        r@.len() == tys@.len(),
        forall|i: int| 0 <= i < tys@.len() ==> (#[trigger] tys@[i]).same_as(r@[i]),
    decreases tys,
{
    let mut r: Vec<AstTypeRef> = Vec::new();
    let mut i: usize = 0;
    while i < tys.len()
        invariant
            i <= tys@.len(),
            r@.len() == i,
            forall|j: int| 0 <= j < i ==> (#[trigger] tys@[j]).same_as(r@[j]),
        decreases tys@.len() - i,
    {
        proof {
            vstd::std_specs::vec::axiom_vec_index_decreases(*tys, i as int);
        }
        r.push(tys[i].duplicate());
        i += 1;
    }
    r
}

fn copy_strings(v: &Vec<String>) -> (r: Vec<String>)
    ensures
        r@.map_values(|s: String| s@) == v@.map_values(|s: String| s@),
{
    let mut r: Vec<String> = Vec::new();
    let mut i: usize = 0;
    while i < v.len()
        invariant
            i <= v@.len(),
            r@.len() == i,
            forall|j: int| 0 <= j < i ==> (#[trigger] r@[j])@ == v@[j]@,
        decreases v@.len() - i,
    {
        r.push(v[i].clone());
        i += 1;
    }
    assert(r@.map_values(|s: String| s@) =~= v@.map_values(|s: String| s@));
    r
}


/// A reserved name is declared: the end-of-input terminal or the wrapper
/// nonterminal.
pub open spec fn has_reserved_name(g: AstGrammar) -> bool {
    g.term_names().contains(eof_name()) || g.nonterm_names().contains(wrapper_name())
}

pub open spec fn no_public(g: AstGrammar) -> bool {
    forall|i: int| 0 <= i < g.nonterminals@.len() ==> !(#[trigger] g.nonterminals@[i]).is_pub
}

pub open spec fn several_public(g: AstGrammar) -> bool {
    exists|i: int, j: int|
        0 <= i < j < g.nonterminals@.len() && (#[trigger] g.nonterminals@[i]).is_pub
            && (#[trigger] g.nonterminals@[j]).is_pub
}

/// `k` is the only public nonterminal.
pub open spec fn only_public(g: AstGrammar, k: int) -> bool {
    &&& 0 <= k < g.nonterminals@.len()
    &&& g.nonterminals@[k].is_pub
    &&& forall|i: int|
        0 <= i < g.nonterminals@.len() && (#[trigger] g.nonterminals@[i]).is_pub ==> i == k
}

/// `new` is `old` with the start wrapper around the public nonterminal `k`:
/// `k` is no longer public, the end-of-input alias closes the token
/// declaration, and the public `__start_wrapper`, of `k`'s type, derives
/// `<result:k> "__eof"` with the action `result`.
pub open spec fn wrapped(old: AstGrammar, new: AstGrammar, k: int) -> bool {
    let oa = old.token_decl.aliases@;
    let na = new.token_decl.aliases@;
    let on = old.nonterminals@;
    let nn = new.nonterminals@;
    &&& new.imports == old.imports
    &&& new.token_decl.name == old.token_decl.name
    &&& na.len() == oa.len() + 1
    &&& forall|i: int| 0 <= i < oa.len() ==> #[trigger] na[i] == oa[i]
    &&& na.last().term@ == eof_name()
    &&& na.last().pattern.ty@ == old.token_decl.name@
    &&& na.last().pattern.variant@ == "__eof"@
    &&& nn.len() == on.len() + 1
    &&& forall|i: int| 0 <= i < on.len() && i != k ==> #[trigger] nn[i] == on[i]
    &&& !nn[k].is_pub && nn[k].name == on[k].name && nn[k].ty == on[k].ty && nn[k].productions
        == on[k].productions
    &&& nn.last().is_pub
    &&& nn.last().name@ == wrapper_name()
    &&& on[k].ty.same_as(nn.last().ty)
    &&& nn.last().productions@.len() == 1
    &&& nn.last().productions@[0].code@ == "result"@
    &&& nn.last().productions@[0].symbols@.len() == 2
    &&& nn.last().productions@[0].symbols@[0] matches AstSymbol::Named(b, s) && b@ == "result"@
        && s@ == on[k].name@
    &&& nn.last().productions@[0].symbols@[1] matches AstSymbol::Terminal(e) && e@ == eof_name()
}

proof fn lemma_rules_len_eq(g1: AstGrammar, g2: AstGrammar, k: nat)
    requires
        k <= g1.nonterminals@.len(),
        k <= g2.nonterminals@.len(),
        forall|i: int|
            0 <= i < k ==> (#[trigger] g1.nonterminals@[i]).productions@.len()
                == g2.nonterminals@[i].productions@.len(),
    ensures
        g1.rules_upto(k).len() == g2.rules_upto(k).len(),
    decreases k,
{
    if k > 0 {
        lemma_rules_len_eq(g1, g2, (k - 1) as nat);
        assert(g1.nonterminals@[k - 1].productions@.len() == g2.nonterminals@[k
            - 1].productions@.len());
    }
}

/// Adds the synthetic start nonterminal and the end-of-input terminal around
/// the single public nonterminal, which stops being public. Fails, leaving
/// the grammar as it was, on a declared reserved name, then on no public
/// nonterminal, then on more than one.
pub fn insert_wrapper_start_nonterm(ast: &mut AstGrammar) -> (r: Result<(), GrammarError>)
    requires
        old(ast).wf(),
        old(ast).num_symbols() + 2 < usize::MAX,
        old(ast).rules().len() + 1 < usize::MAX,
    ensures
        r == Err::<(), GrammarError>(GrammarError::ReservedName) <==> has_reserved_name(*old(ast)),
        r == Err::<(), GrammarError>(GrammarError::NoPublicStart) <==> !has_reserved_name(*old(ast))
            && no_public(*old(ast)),
        r == Err::<(), GrammarError>(GrammarError::MultiplePublicStarts) <==> !has_reserved_name(
            *old(ast),
        ) && several_public(*old(ast)),
        r is Err ==> *final(ast) == *old(ast),
        r is Ok ==> exists|k: int|
            only_public(*old(ast), k) && #[trigger] wrapped(*old(ast), *final(ast), k),
        r is Ok ==> final(ast).wf(),
{
    let eof = "\"__eof\"".to_owned();
    let wrapper = "__start_wrapper".to_owned();
    let mut i: usize = 0;
    while i < ast.token_decl.aliases.len()
        invariant
            ast == old(ast),
            eof@ == eof_name(),
            i <= ast.token_decl.aliases@.len(),
            forall|j: int| 0 <= j < i ==> ast.term_names()[j] != eof_name(),
        decreases ast.token_decl.aliases@.len() - i,
    {
        if ast.token_decl.aliases[i].term == eof {
            assert(ast.term_names()[i as int] == eof_name());
            return Err(GrammarError::ReservedName);
        }
        i += 1;
    }
    let mut i: usize = 0;
    while i < ast.nonterminals.len()
        invariant
            ast == old(ast),
            wrapper@ == wrapper_name(),
            i <= ast.nonterminals@.len(),
            forall|j: int| 0 <= j < i ==> ast.nonterm_names()[j] != wrapper_name(),
        decreases ast.nonterminals@.len() - i,
    {
        if ast.nonterminals[i].name == wrapper {
            assert(ast.nonterm_names()[i as int] == wrapper_name());
            return Err(GrammarError::ReservedName);
        }
        i += 1;
    }
    assert(!has_reserved_name(*ast)) by {
        if ast.term_names().contains(eof_name()) {
            let j = choose|j: int| 0 <= j < ast.term_names().len() && ast.term_names()[j] == eof_name();
        }
        if ast.nonterm_names().contains(wrapper_name()) {
            let j = choose|j: int|
                0 <= j < ast.nonterm_names().len() && ast.nonterm_names()[j] == wrapper_name();
        }
    }
    let mut count: usize = 0;
    let mut start: usize = 0;
    let mut second: usize = 0;
    let mut i: usize = 0;
    while i < ast.nonterminals.len()
        invariant
            ast == old(ast),
            i <= ast.nonterminals@.len(),
            count <= 2,
            count == 0 ==> forall|j: int| 0 <= j < i ==> !(#[trigger] ast.nonterminals@[j]).is_pub,
            count >= 1 ==> start < i && ast.nonterminals@[start as int].is_pub,
            count == 1 ==> forall|j: int|
                0 <= j < i && (#[trigger] ast.nonterminals@[j]).is_pub ==> j == start,
            count == 2 ==> start < second < i && ast.nonterminals@[second as int].is_pub,
        decreases ast.nonterminals@.len() - i,
    {
        if ast.nonterminals[i].is_pub {
            if count == 0 {
                start = i;
                count = 1;
            } else if count == 1 {
                second = i;
                count = 2;
            }
        }
        i += 1;
    }
    if count == 0 {
        assert(!several_public(*ast));
        return Err(GrammarError::NoPublicStart);
    }
    if count == 2 {
        assert(ast.nonterminals@[start as int].is_pub && ast.nonterminals@[second as int].is_pub);
        assert(several_public(*ast));
        assert(!no_public(*ast));
        return Err(GrammarError::MultiplePublicStarts);
    }
    assert(only_public(*ast, start as int));
    assert(!several_public(*ast));
    assert(!no_public(*ast));
    let ghost g0 = *ast;
    let ty = ast.nonterminals[start].ty.duplicate();
    let name = ast.nonterminals[start].name.clone();
    let tok_name = ast.token_decl.name.clone();
    let mut nt = ast.nonterminals.remove(start);
    nt.is_pub = false;
    ast.nonterminals.insert(start, nt);
    ast.token_decl.aliases.push(
        AstTokenAlias {
            term: eof.clone(),
            pattern: AstTokenPattern { ty: tok_name, variant: "__eof".to_owned() },
        },
    );
    let mut symbols: Vec<AstSymbol> = Vec::new();
    symbols.push(AstSymbol::Named("result".to_owned(), name));
    symbols.push(AstSymbol::Terminal(eof));
    let mut productions: Vec<AstProduction> = Vec::new();
    productions.push(AstProduction { symbols, code: "result".to_owned() });
    ast.nonterminals.push(AstNonterminal { is_pub: true, name: wrapper, ty, productions });
    proof {
        let g1 = *ast;
        let k = start as int;
        assert(g1.nonterminals@.len() == g0.nonterminals@.len() + 1);
        assert forall|i: int| 0 <= i < g0.nonterminals@.len() && i != k implies #[trigger] g1.nonterminals@[i]
            == g0.nonterminals@[i] by {}
        assert(wrapped(g0, g1, k));
        // The result is well formed.
        assert(g1.term_names() =~= g0.term_names().push(eof_name()));
        assert(g1.nonterm_names() =~= g0.nonterm_names().push(wrapper_name()));
        lemma_distinct_push(g0.term_names(), eof_name());
        lemma_distinct_push(g0.nonterm_names(), wrapper_name());
        assert forall|a: int, q: int, j: int|
            0 <= a < g1.nonterminals@.len() && 0 <= q < g1.nonterminals@[a].productions@.len() && 0
                <= j < g1.nonterminals@[a].productions@[q].symbols@.len() implies g1.resolves(
            #[trigger] g1.nonterminals@[a].productions@[q].symbols@[j],
        ) by {
            let s = g1.nonterminals@[a].productions@[q].symbols@[j];
            if a < g0.nonterminals@.len() {
                assert(g0.nonterminals@[a].productions@[q].symbols@[j] == s);
                assert(g0.resolves(s));
                if s is Terminal {
                    let w = choose|w: int| 0 <= w < g0.term_names().len() && g0.term_names()[w] == s.spec_name();
                    assert(g1.term_names()[w] == s.spec_name());
                } else {
                    let w = choose|w: int| 0 <= w < g0.nonterm_names().len() && g0.nonterm_names()[w] == s.spec_name();
                    assert(g1.nonterm_names()[w] == s.spec_name());
                }
            } else if j == 0 {
                assert(g1.nonterm_names()[k] == s.spec_name());
            } else {
                assert(g1.term_names()[g0.term_names().len() as int] == s.spec_name());
            }
        }
        lemma_rules_len_eq(g0, g1, g0.nonterminals@.len());
        assert(g1.rules_upto(g1.nonterminals@.len() as nat).len() == g1.rules_upto(
            g0.nonterminals@.len(),
        ).len() + 1);
    }
    Ok(())
}

/// Appending a name that was absent keeps the names distinct.
proof fn lemma_distinct_push(names: Seq<Seq<char>>, x: Seq<char>)
    requires
        crate::ast::distinct_names(names),
        !names.contains(x),
    ensures
        crate::ast::distinct_names(names.push(x)),
{
    let n = names.push(x);
    assert forall|i: int, j: int|
        0 <= i < n.len() && 0 <= j < n.len() && n[i] == n[j] implies i == j by {
        if i < names.len() && j == names.len() {
            assert(names[i] == x);
        }
        if j < names.len() && i == names.len() {
            assert(names[j] == x);
        }
    }
}


/// After the start wrapper, end of input stands only last in the wrapper's
/// production, and the wrapper in no right-hand side.
pub proof fn lemma_wrapped_eof_at_end(g0: AstGrammar, g1: AstGrammar, k: int)
    requires
        g0.wf(),
        g1.wf(),
        !has_reserved_name(g0),
        only_public(g0, k),
        wrapped(g0, g1, k),
    ensures
        eof_at_end(g1.rules(), g1.num_symbols() - 1, g0.num_terms()),
{
    let rs = g1.rules();
    let t0 = g0.num_terms();
    let t1 = g1.num_terms();
    let n0 = g0.nonterminals@.len() as int;
    let start = g1.num_symbols() - 1;
    assert(t1 == t0 + 1);
    assert(start == t1 + n0);
    assert(g1.term_names().len() == t1);
    assert(g1.nonterm_names().len() == n0 + 1);
    assert forall|j: int| 0 <= j < t0 implies #[trigger] g1.term_names()[j] == g0.term_names()[j] by {
        assert(g1.token_decl.aliases@[j] == g0.token_decl.aliases@[j]);
    }
    assert forall|j: int| 0 <= j < n0 implies #[trigger] g1.nonterm_names()[j] == g0.nonterm_names()[j] by {
        if j != k {
            assert(g1.nonterminals@[j] == g0.nonterminals@[j]);
        }
    }
    assert(g1.term_names()[t0] == eof_name());
    assert(g1.nonterm_names()[n0] == wrapper_name());
    assert(distinct_names(g1.term_names()));
    assert(distinct_names(g1.nonterm_names()));
    assert forall|p: int, i: int| 0 <= p < rs.len() && 0 <= i < rs[p].1.len() implies (#[trigger] rs[p].1[i]
        == t0 ==> rs[p].0 == start && i == rs[p].1.len() - 1) && rs[p].1[i] != start by {
        let (kk, q) = g1.lemma_rule_origin(g1.nonterminals@.len(), p);
        let prod = g1.nonterminals@[kk].productions@[q];
        let s = prod.symbols@[i];
        assert(rs[p].1[i] == g1.symbol_id(s));
        assert(rs[p].0 == t1 + kk);
        if kk < n0 {
            if kk != k {
                assert(g1.nonterminals@[kk] == g0.nonterminals@[kk]);
            }
            assert(g1.nonterminals@[kk].productions == g0.nonterminals@[kk].productions);
            assert(g0.nonterminals@[kk].productions@[q].symbols@[i] == s);
            assert(g0.resolves(s));
            let name = s.spec_name();
            if s is Terminal {
                let j = choose|j: int| 0 <= j < g0.term_names().len() && g0.term_names()[j] == name;
                assert(g1.term_names()[j] == name);
                let c = position_of(g1.term_names(), name);
                assert(g1.term_names()[c] == name);
                assert(c == j);
            } else {
                let j = choose|j: int| 0 <= j < g0.nonterm_names().len() && g0.nonterm_names()[j] == name;
                assert(g1.nonterm_names()[j] == name);
                let c = position_of(g1.nonterm_names(), name);
                assert(g1.nonterm_names()[c] == name);
                assert(c == j);
            }
        } else {
            assert(kk == n0);
            assert(q == 0);
            let name = s.spec_name();
            if i == 0 {
                assert(g1.nonterm_names()[k] == name);
                let c = position_of(g1.nonterm_names(), name);
                assert(g1.nonterm_names()[c] == name);
                assert(c == k);
            } else {
                assert(i == 1);
                let c = position_of(g1.term_names(), name);
                assert(g1.term_names()[c] == name);
                assert(c == t0);
            }
        }
    }
}
} // verus!

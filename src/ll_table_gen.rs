//! The LL(1) analyses over a resolved grammar: nullable symbols, FIRST and
//! FOLLOW sets, and the predictive parse table.
//!
//! Symbols are numbered as in `AstGrammar::symbol_id`: the terminals first,
//! then the nonterminals. A set of terminals is a row of booleans indexed by
//! terminal number.
use crate::ast::{rules_view, AstGrammar, IndexedRule};
use crate::derivation::{
    lemma_leftmost_reaches, lemma_reaches_context, lemma_reaches_step, lemma_reaches_trans, reaches,
    rewrite_at,
    derives, leftmost_derive, leftmost_nonterminal, leftmost_step, lemma_derive_in_range,
    lemma_derive_strip_prefix, lemma_leftmost_range, lemma_derive_concat_logs, lemma_derive_production, lemma_derive_suffix,
    lemma_seq_derives_empty,
};
use vstd::prelude::*;

verus! {

/// Every production has a left-hand side and right-hand-side symbols below
/// `num_symbols`.
pub open spec fn rules_in_range(rules: Seq<(int, Seq<int>)>, num_symbols: int) -> bool {
    &&& forall|p: int| 0 <= p < rules.len() ==> 0 <= (#[trigger] rules[p]).0 < num_symbols
    &&& forall|p: int, i: int|
        0 <= p < rules.len() && 0 <= i < rules[p].1.len() ==> 0 <= #[trigger] rules[p].1[i]
            < num_symbols
}

/// Every symbol of `syms` is nullable according to `n`.
pub open spec fn all_nullable(n: Seq<bool>, syms: Seq<int>) -> bool {
    forall|k: int| 0 <= k < syms.len() ==> n[#[trigger] syms[k]]
}

/// Whatever `a` holds, `b` holds.
pub open spec fn row_subset(a: Seq<bool>, b: Seq<bool>) -> bool {
    forall|i: int| 0 <= i < a.len() && #[trigger] a[i] ==> b[i]
}

/// No production has an all-nullable right-hand side and a left-hand side
/// outside `n`: one more pass would add nothing.
pub open spec fn nullable_closed(rules: Seq<(int, Seq<int>)>, n: Seq<bool>) -> bool {
    forall|p: int|
        0 <= p < rules.len() && all_nullable(n, (#[trigger] rules[p]).1) ==> n[rules[p].0]
}

/// `n` is the set of nullable symbols: the least set closed under the
/// productions.
pub open spec fn is_nullable_set(rules: Seq<(int, Seq<int>)>, num_symbols: int, n: Seq<bool>) -> bool {
    &&& n.len() == num_symbols
    &&& nullable_closed(rules, n)
    &&& forall|m: Seq<bool>|
        m.len() == num_symbols && #[trigger] nullable_closed(rules, m) ==> row_subset(n, m)
}

/// The number of `true` entries.
pub open spec fn count_true(s: Seq<bool>) -> nat
    decreases s.len(),
{
    if s.len() == 0 {
        0
    } else {
        count_true(s.drop_last()) + (if s.last() {
            1nat
        } else {
            0nat
        })
    }
}

proof fn lemma_count_bound(s: Seq<bool>)
    ensures
        count_true(s) <= s.len(),
    decreases s.len(),
{
    if s.len() > 0 {
        lemma_count_bound(s.drop_last());
    }
}

proof fn lemma_count_mono(a: Seq<bool>, b: Seq<bool>)
    requires
        a.len() == b.len(),
        row_subset(a, b),
    ensures
        count_true(a) <= count_true(b),
    decreases a.len(),
{
    if a.len() > 0 {
        assert(row_subset(a.drop_last(), b.drop_last()));
        lemma_count_mono(a.drop_last(), b.drop_last());
        assert(a.last() ==> b.last());
    }
}

proof fn lemma_count_grows(a: Seq<bool>, b: Seq<bool>, i: int)
    requires
        a.len() == b.len(),
        row_subset(a, b),
        0 <= i < a.len(),
        !a[i],
        b[i],
    ensures
        count_true(a) < count_true(b),
    decreases a.len(),
{
    assert(row_subset(a.drop_last(), b.drop_last()));
    if i == a.len() - 1 {
        lemma_count_mono(a.drop_last(), b.drop_last());
    } else {
        lemma_count_grows(a.drop_last(), b.drop_last(), i);
        assert(a.last() ==> b.last());
    }
}

proof fn lemma_all_nullable_push(n: Seq<bool>, syms: Seq<int>, i: int)
    requires
        0 <= i < syms.len(),
    ensures
        all_nullable(n, syms.take(i + 1)) == (all_nullable(n, syms.take(i)) && n[syms[i]]),
{
    let a = syms.take(i);
    let b = syms.take(i + 1);
    assert(b[i] == syms[i]);
    if all_nullable(n, a) && n[syms[i]] {
        assert forall|k: int| 0 <= k < b.len() implies n[#[trigger] b[k]] by {
            if k < i {
                assert(b[k] == a[k]);
            }
        }
    }
    if all_nullable(n, b) {
        assert forall|k: int| 0 <= k < a.len() implies n[#[trigger] a[k]] by {
            assert(b[k] == a[k]);
        }
    }
}

/// Whether every symbol of `syms` is nullable according to `n`.
fn all_nullable_exec(n: &Vec<bool>, syms: &Vec<usize>) -> (r: bool)
    requires
        forall|k: int| 0 <= k < syms@.len() ==> #[trigger] syms@[k] < n@.len(),
    ensures
        r == all_nullable(n@, syms@.map_values(|x: usize| x as int)),
{
    let ghost ss = syms@.map_values(|x: usize| x as int);
    let mut k: usize = 0;
    while k < syms.len()
        invariant
            k <= syms@.len(),
            ss == syms@.map_values(|x: usize| x as int),
            forall|j: int| 0 <= j < syms@.len() ==> #[trigger] syms@[j] < n@.len(),
            forall|j: int| 0 <= j < k ==> n@[#[trigger] ss[j]],
        decreases syms@.len() - k,
    {
        if !n[syms[k]] {
            assert(!n@[ss[k as int]]);
            return false;
        }
        k += 1;
    }
    true
}

/// One pass of the nullable analysis over all productions.
fn nullable_pass(rules: &Vec<IndexedRule>, n: &mut Vec<bool>) -> (changed: bool)
    requires
        rules_in_range(rules_view(rules@), old(n)@.len() as int),
    ensures
        final(n)@.len() == old(n)@.len(),
        row_subset(old(n)@, final(n)@),
        changed ==> count_true(old(n)@) < count_true(final(n)@),
        !changed ==> final(n)@ == old(n)@ && nullable_closed(rules_view(rules@), final(n)@),
        forall|m: Seq<bool>|
            m.len() == old(n)@.len() && nullable_closed(rules_view(rules@), m) && row_subset(
                old(n)@,
                m,
            ) ==> #[trigger] row_subset(final(n)@, m),
{
    let ghost rs = rules_view(rules@);
    let ghost start = n@;
    let mut changed = false;
    let mut p: usize = 0;
    while p < rules.len()
        invariant
            rs == rules_view(rules@),
            rules_in_range(rs, start.len() as int),
            p <= rules@.len(),
            n@.len() == start.len(),
            row_subset(start, n@),
            changed ==> count_true(start) < count_true(n@),
            !changed ==> n@ == start,
            !changed ==> forall|q: int|
                0 <= q < p && all_nullable(n@, (#[trigger] rs[q]).1) ==> n@[rs[q].0],
            forall|m: Seq<bool>|
                m.len() == start.len() && nullable_closed(rs, m) && row_subset(start, m)
                    ==> #[trigger] row_subset(n@, m),
        decreases rules@.len() - p,
    {
        let lhs = rules[p].lhs;
        assert(rs[p as int].0 == lhs);
        if !n[lhs] {
            let ghost rhs = rules@[p as int].rhs@;
            assert forall|k: int| 0 <= k < rhs.len() implies #[trigger] rhs[k] < n@.len() by {
                assert(rs[p as int].1[k] == rhs[k]);
            }
            if all_nullable_exec(n, &rules[p].rhs) {
                let ghost before = n@;
                n.set(lhs, true);
                proof {
                    assert(row_subset(before, n@));
                    lemma_count_mono(start, before);
                    lemma_count_grows(before, n@, lhs as int);
                    assert forall|m: Seq<bool>|
                        m.len() == start.len() && nullable_closed(rs, m) && row_subset(
                            start,
                            m,
                        ) implies #[trigger] row_subset(n@, m) by {
                        assert(row_subset(before, m));
                        assert(all_nullable(m, rs[p as int].1));
                    }
                }
                changed = true;
            }
        }
        p += 1;
    }
    changed
}

/// The nullable symbols, by symbol number: the least set that holds the
/// left-hand side of every production whose right-hand side it holds whole.
pub fn compute_nullable(ast: &AstGrammar) -> (r: Vec<bool>)
    requires
        ast.wf(),
    ensures
        is_nullable_set(ast.rules(), ast.num_symbols(), r@),
{
    let rules = ast.resolved_productions();
    let ns = ast.token_decl.aliases.len() + ast.nonterminals.len();
    proof {
        ast.lemma_rules_in_range();
    }
    let mut nullable: Vec<bool> = Vec::new();
    while nullable.len() < ns
        invariant
            nullable@.len() <= ns,
            forall|i: int| 0 <= i < nullable@.len() ==> !#[trigger] nullable@[i],
        decreases ns - nullable@.len(),
    {
        nullable.push(false);
    }
    loop
        invariant
            ns == ast.num_symbols(),
            rules_view(rules@) == ast.rules(),
            rules_in_range(ast.rules(), ns as int),
            nullable@.len() == ns,
            forall|m: Seq<bool>|
                m.len() == ns && #[trigger] nullable_closed(ast.rules(), m) ==> row_subset(
                    nullable@,
                    m,
                ),
        ensures
            is_nullable_set(ast.rules(), ast.num_symbols(), nullable@),
        decreases ns - count_true(nullable@),
    {
        proof {
            lemma_count_bound(nullable@);
        }
        let changed = nullable_pass(&rules, &mut nullable);
        proof {
            lemma_count_bound(nullable@);
        }
        if !changed {
            break;
        }
    }
    nullable
}


/// The rows of a matrix of booleans.
pub open spec fn rows(m: Seq<Vec<bool>>) -> Seq<Seq<bool>> {
    m.map_values(|r: Vec<bool>| r@)
}

pub open spec fn matrix_shape(m: Seq<Seq<bool>>, num_rows: int, num_cols: int) -> bool {
    &&& m.len() == num_rows
    &&& forall|x: int| 0 <= x < num_rows ==> (#[trigger] m[x]).len() == num_cols
}

pub open spec fn matrix_subset(a: Seq<Seq<bool>>, b: Seq<Seq<bool>>) -> bool {
    forall|x: int| 0 <= x < a.len() ==> row_subset(#[trigger] a[x], b[x])
}

pub open spec fn count_matrix(m: Seq<Seq<bool>>) -> nat
    decreases m.len(),
{
    if m.len() == 0 {
        0
    } else {
        count_matrix(m.drop_last()) + count_true(m.last())
    }
}

proof fn lemma_matrix_update(m: Seq<Seq<bool>>, r: int, row: Seq<bool>)
    requires
        0 <= r < m.len(),
    ensures
        count_matrix(m.update(r, row)) + count_true(m[r]) == count_matrix(m) + count_true(row),
    decreases m.len(),
{
    let u = m.update(r, row);
    if r == m.len() - 1 {
        assert(u.drop_last() =~= m.drop_last());
    } else {
        assert(u.drop_last() =~= m.drop_last().update(r, row));
        lemma_matrix_update(m.drop_last(), r, row);
    }
}

proof fn lemma_matrix_bound(m: Seq<Seq<bool>>, num_cols: int)
    requires
        num_cols >= 0,
        forall|x: int| 0 <= x < m.len() ==> (#[trigger] m[x]).len() == num_cols,
    ensures
        count_matrix(m) <= m.len() * num_cols,
    decreases m.len(),
{
    if m.len() > 0 {
        lemma_matrix_bound(m.drop_last(), num_cols);
        lemma_count_bound(m.last());
        let k = m.len() - 1;
        assert(k * num_cols + num_cols == m.len() * num_cols) by (nonlinear_arith)
            requires
                k == m.len() - 1,
        ;
    }
}

/// FIRST is closed: each terminal begins itself, and for every production
/// `A -> X1 .. Xn` and every `i` with `X1 .. Xi` nullable, FIRST(X(i+1)) lies
/// within FIRST(A). One more pass would add nothing.
pub open spec fn first_closed(
    rules: Seq<(int, Seq<int>)>,
    num_terms: int,
    n: Seq<bool>,
    f: Seq<Seq<bool>>,
) -> bool {
    &&& forall|t: int| 0 <= t < num_terms ==> #[trigger] f[t][t]
    &&& forall|p: int, i: int|
        0 <= p < rules.len() && 0 <= i < rules[p].1.len() && all_nullable(n, rules[p].1.take(i))
            ==> row_subset(f[#[trigger] rules[p].1[i]], f[rules[p].0])
}

/// `f` holds the FIRST sets: the least closed sets.
pub open spec fn is_first_sets(
    rules: Seq<(int, Seq<int>)>,
    num_symbols: int,
    num_terms: int,
    n: Seq<bool>,
    f: Seq<Seq<bool>>,
) -> bool {
    &&& matrix_shape(f, num_symbols, num_terms)
    &&& first_closed(rules, num_terms, n, f)
    &&& forall|g: Seq<Seq<bool>>|
        matrix_shape(g, num_symbols, num_terms) && #[trigger] first_closed(rules, num_terms, n, g)
            ==> matrix_subset(f, g)
}

/// The union of two rows, and whether it is larger than `dst`.
fn union_row(dst: &Vec<bool>, src: &Vec<bool>) -> (r: (Vec<bool>, bool))
    requires
        dst@.len() == src@.len(),
    ensures
        r.0@.len() == dst@.len(),
        forall|i: int| 0 <= i < dst@.len() ==> #[trigger] r.0@[i] == (dst@[i] || src@[i]),
        r.1 == !row_subset(src@, dst@),
{
    let mut out: Vec<bool> = Vec::new();
    let mut grew = false;
    let mut i: usize = 0;
    while i < dst.len()
        invariant
            dst@.len() == src@.len(),
            i <= dst@.len(),
            out@.len() == i,
            forall|j: int| 0 <= j < i ==> #[trigger] out@[j] == (dst@[j] || src@[j]),
            grew == exists|j: int| 0 <= j < i && src@[j] && !dst@[j],
        decreases dst@.len() - i,
    {
        if src[i] && !dst[i] {
            grew = true;
        }
        out.push(dst[i] || src[i]);
        i += 1;
    }
    (out, grew)
}

/// Adds row `src` of `m` into row `dst`; says whether row `dst` grew.
fn add_row_into(m: &mut Vec<Vec<bool>>, dst: usize, src: usize) -> (grew: bool)
    requires
        dst < old(m)@.len(),
        src < old(m)@.len(),
        old(m)@[dst as int]@.len() == old(m)@[src as int]@.len(),
    ensures
        rows(final(m)@) == rows(old(m)@).update(
            dst as int,
            Seq::new(
                old(m)@[dst as int]@.len(),
                |i: int| old(m)@[dst as int]@[i] || old(m)@[src as int]@[i],
            ),
        ),
        grew == !row_subset(old(m)@[src as int]@, old(m)@[dst as int]@),
        grew ==> count_matrix(rows(old(m)@)) < count_matrix(rows(final(m)@)),
        !grew ==> final(m)@ == old(m)@,
{
    let (row, grew) = union_row(&m[dst], &m[src]);
    let ghost before = rows(m@);
    if grew {
        let ghost newrow = row@;
        m.set(dst, row);
        proof {
            let d = dst as int;
            let w = choose|j: int|
                0 <= j < before[src as int].len() && before[src as int][j] && !before[d][j];
            assert(row_subset(before[d], newrow));
            lemma_count_grows(before[d], newrow, w);
            lemma_matrix_update(before, d, newrow);
            assert(rows(m@) =~= before.update(d, newrow));
            assert(newrow =~= Seq::new(before[d].len(), |i: int| before[d][i] || before[src as int][i]));
        }
    } else {
        proof {
            let d = dst as int;
            assert(before[d] =~= Seq::new(before[d].len(), |i: int| before[d][i] || before[src as int][i]));
            assert(rows(m@) =~= before.update(d, before[d]));
        }
    }
    grew
}

/// One pass of the FIRST analysis over all productions.
fn first_pass(rules: &Vec<IndexedRule>, n: &Vec<bool>, f: &mut Vec<Vec<bool>>, num_terms: usize) -> (changed: bool)
    requires
        rules_in_range(rules_view(rules@), n@.len() as int),
        matrix_shape(rows(old(f)@), n@.len() as int, num_terms as int),
    ensures
        matrix_shape(rows(final(f)@), n@.len() as int, num_terms as int),
        matrix_subset(rows(old(f)@), rows(final(f)@)),
        changed ==> count_matrix(rows(old(f)@)) < count_matrix(rows(final(f)@)),
        !changed ==> final(f)@ == old(f)@,
        !changed ==> forall|p: int, i: int|
            0 <= p < rules@.len() && 0 <= i < rules_view(rules@)[p].1.len() && all_nullable(
                n@,
                rules_view(rules@)[p].1.take(i),
            ) ==> row_subset(
                rows(final(f)@)[#[trigger] rules_view(rules@)[p].1[i]],
                rows(final(f)@)[rules_view(rules@)[p].0],
            ),
        forall|g: Seq<Seq<bool>>|
            matrix_shape(g, n@.len() as int, num_terms as int) && first_closed(
                rules_view(rules@),
                num_terms as int,
                n@,
                g,
            ) && matrix_subset(rows(old(f)@), g) ==> #[trigger] matrix_subset(rows(final(f)@), g),
{
    let ghost rs = rules_view(rules@);
    let ghost start = rows(f@);
    let ghost ns = n@.len() as int;
    let ghost nt = num_terms as int;
    let mut changed = false;
    let mut p: usize = 0;
    while p < rules.len()
        invariant
            rs == rules_view(rules@),
            rules_in_range(rs, ns),
            ns == n@.len(),
            nt == num_terms,
            p <= rules@.len(),
            matrix_shape(rows(f@), ns, nt),
            matrix_subset(start, rows(f@)),
            count_matrix(start) <= count_matrix(rows(f@)),
            changed ==> count_matrix(start) < count_matrix(rows(f@)),
            !changed ==> f@ == old(f)@,
            !changed ==> forall|q: int, i: int|
                0 <= q < p && 0 <= i < rs[q].1.len() && all_nullable(n@, rs[q].1.take(i))
                    ==> row_subset(rows(f@)[#[trigger] rs[q].1[i]], rows(f@)[rs[q].0]),
            forall|g: Seq<Seq<bool>>|
                matrix_shape(g, ns, nt) && first_closed(rs, nt, n@, g) && matrix_subset(start, g)
                    ==> #[trigger] matrix_subset(rows(f@), g),
            start == rows(old(f)@),
            matrix_shape(start, ns, nt),
        decreases rules@.len() - p,
    {
        let lhs = rules[p].lhs;
        let rhs = &rules[p].rhs;
        assert(rs[p as int].0 == lhs);
        let mut prefix = true;
        let mut i: usize = 0;
        while i < rhs.len()
            invariant
                rs == rules_view(rules@),
                rules_in_range(rs, ns),
                ns == n@.len(),
                nt == num_terms,
                p < rules@.len(),
                rhs == rules@[p as int].rhs,
                lhs == rs[p as int].0,
                i <= rhs@.len(),
                prefix == all_nullable(n@, rs[p as int].1.take(i as int)),
                matrix_shape(rows(f@), ns, nt),
                matrix_subset(start, rows(f@)),
                count_matrix(start) <= count_matrix(rows(f@)),
                changed ==> count_matrix(start) < count_matrix(rows(f@)),
                !changed ==> f@ == old(f)@,
                !changed ==> forall|q: int, j: int|
                    0 <= q < p && 0 <= j < rs[q].1.len() && all_nullable(n@, rs[q].1.take(j))
                        ==> row_subset(rows(f@)[#[trigger] rs[q].1[j]], rows(f@)[rs[q].0]),
                !changed ==> forall|j: int|
                    0 <= j < i && all_nullable(n@, rs[p as int].1.take(j)) ==> row_subset(
                        rows(f@)[#[trigger] rs[p as int].1[j]],
                        rows(f@)[lhs as int],
                    ),
                forall|g: Seq<Seq<bool>>|
                    matrix_shape(g, ns, nt) && first_closed(rs, nt, n@, g) && matrix_subset(
                        start,
                        g,
                    ) ==> #[trigger] matrix_subset(rows(f@), g),
                start == rows(old(f)@),
                matrix_shape(start, ns, nt),
            decreases rhs@.len() - i,
        {
            let y = rhs[i];
            assert(rs[p as int].1[i as int] == y);
            if prefix {
                let ghost before = rows(f@);
                proof {
                    assert(before[lhs as int] == f@[lhs as int]@);
                    assert(before[y as int] == f@[y as int]@);
                }
                let grew = add_row_into(f, lhs, y);
                proof {
                    let after = rows(f@);
                    assert(matrix_shape(after, ns, nt));
                    assert(matrix_subset(before, after));
                    assert forall|x: int| 0 <= x < start.len() implies row_subset(
                        #[trigger] start[x],
                        after[x],
                    ) by {
                        assert(row_subset(start[x], before[x]));
                        assert(row_subset(before[x], after[x]));
                    }
                    assert forall|g: Seq<Seq<bool>>|
                        matrix_shape(g, ns, nt) && first_closed(rs, nt, n@, g) && matrix_subset(
                            start,
                            g,
                        ) implies #[trigger] matrix_subset(after, g) by {
                        assert(matrix_subset(before, g));
                        assert(row_subset(g[y as int], g[lhs as int]));
                        assert(row_subset(before[y as int], g[y as int]));
                        assert(row_subset(before[lhs as int], g[lhs as int]));
                    }
                }
                if grew {
                    changed = true;
                }
            }
            proof {
                lemma_all_nullable_push(n@, rs[p as int].1, i as int);
            }
            prefix = prefix && n[y];
            i += 1;
        }
        proof {
            assert(rs[p as int].1.len() == rhs@.len());
        }
        p += 1;
    }
    changed
}

/// The FIRST sets, one row of terminals per symbol: the least sets in which
/// each terminal begins itself and FIRST(A) holds FIRST(X(i+1)) for every
/// production `A -> X1 .. Xn` whose `X1 .. Xi` are nullable under `nullable`.
pub fn compute_first(ast: &AstGrammar, nullable: &Vec<bool>) -> (r: Vec<Vec<bool>>)
    requires
        ast.wf(),
        nullable@.len() == ast.num_symbols(),
    ensures
        is_first_sets(ast.rules(), ast.num_symbols(), ast.num_terms(), nullable@, rows(r@)),
{
    let rules = ast.resolved_productions();
    let nt = ast.token_decl.aliases.len();
    let ns = nt + ast.nonterminals.len();
    proof {
        ast.lemma_rules_in_range();
    }
    let mut first: Vec<Vec<bool>> = Vec::new();
    while first.len() < ns
        invariant
            first@.len() <= ns,
            nt <= ns,
            forall|x: int|
                0 <= x < first@.len() ==> (#[trigger] first@[x])@.len() == nt && forall|t: int|
                    0 <= t < nt ==> first@[x]@[t] == (t == x),
        decreases ns - first@.len(),
    {
        let x = first.len();
        let mut row: Vec<bool> = Vec::new();
        while row.len() < nt
            invariant
                row@.len() <= nt,
                forall|t: int| 0 <= t < row@.len() ==> row@[t] == (t == x),
            decreases nt - row@.len(),
        {
            row.push(row.len() == x);
        }
        first.push(row);
    }
    proof {
        assert forall|g: Seq<Seq<bool>>|
            matrix_shape(g, ns as int, nt as int) && #[trigger] first_closed(
                ast.rules(),
                nt as int,
                nullable@,
                g,
            ) implies matrix_subset(rows(first@), g) by {
            assert forall|x: int| 0 <= x < ns implies row_subset(#[trigger] rows(first@)[x], g[x]) by {
                assert forall|t: int| 0 <= t < rows(first@)[x].len() && #[trigger] rows(first@)[x][t] implies g[x][t] by {
                    assert(t == x);
                    assert(g[t][t]);
                }
            }
        }
    }
    loop
        invariant
            nt == ast.num_terms(),
            ns == ast.num_symbols(),
            nullable@.len() == ns,
            rules_view(rules@) == ast.rules(),
            rules_in_range(ast.rules(), ns as int),
            matrix_shape(rows(first@), ns as int, nt as int),
            forall|t: int| 0 <= t < nt ==> #[trigger] rows(first@)[t][t],
            forall|g: Seq<Seq<bool>>|
                matrix_shape(g, ns as int, nt as int) && #[trigger] first_closed(
                    ast.rules(),
                    nt as int,
                    nullable@,
                    g,
                ) ==> matrix_subset(rows(first@), g),
        ensures
            is_first_sets(ast.rules(), ns as int, nt as int, nullable@, rows(first@)),
        decreases ns * nt - count_matrix(rows(first@)),
    {
        proof {
            lemma_matrix_bound(rows(first@), nt as int);
        }
        let ghost before = rows(first@);
        let changed = first_pass(&rules, nullable, &mut first, nt);
        proof {
            lemma_matrix_bound(rows(first@), nt as int);
            assert(matrix_subset(before, rows(first@)));
            assert forall|t: int| 0 <= t < nt implies #[trigger] rows(first@)[t][t] by {
                assert(before[t][t]);
                assert(row_subset(before[t], rows(first@)[t]));
            }
        }
        if !changed {
            break;
        }
    }
    first
}

/// The FOLLOW rules at position `i` of production `p`, where a nonterminal
/// stands: FOLLOW(A) lies within its FOLLOW when everything after it is
/// nullable, and FIRST of each later symbol reachable over nullable symbols
/// lies within its FOLLOW.
pub open spec fn follow_holds_at(
    rules: Seq<(int, Seq<int>)>,
    num_terms: int,
    n: Seq<bool>,
    f: Seq<Seq<bool>>,
    fo: Seq<Seq<bool>>,
    p: int,
    i: int,
) -> bool {
    let rhs = rules[p].1;
    rhs[i] >= num_terms ==> {
        &&& all_nullable(n, rhs.skip(i + 1)) ==> row_subset(fo[rules[p].0], fo[rhs[i]])
        &&& forall|j: int|
            i < j < rhs.len() && all_nullable(n, rhs.subrange(i + 1, j)) ==> row_subset(
                f[#[trigger] rhs[j]],
                fo[rhs[i]],
            )
    }
}

/// FOLLOW is closed under the productions: one more pass would add nothing.
pub open spec fn follow_closed(
    rules: Seq<(int, Seq<int>)>,
    num_terms: int,
    n: Seq<bool>,
    f: Seq<Seq<bool>>,
    fo: Seq<Seq<bool>>,
) -> bool {
    forall|p: int, i: int|
        0 <= p < rules.len() && 0 <= i < rules[p].1.len() ==> #[trigger] follow_holds_at(
            rules,
            num_terms,
            n,
            f,
            fo,
            p,
            i,
        )
}

/// `fo` holds the FOLLOW sets: the least closed sets.
pub open spec fn is_follow_sets(
    rules: Seq<(int, Seq<int>)>,
    num_symbols: int,
    num_terms: int,
    n: Seq<bool>,
    f: Seq<Seq<bool>>,
    fo: Seq<Seq<bool>>,
) -> bool {
    &&& matrix_shape(fo, num_symbols, num_terms)
    &&& follow_closed(rules, num_terms, n, f, fo)
    &&& forall|g: Seq<Seq<bool>>|
        matrix_shape(g, num_symbols, num_terms) && #[trigger] follow_closed(
            rules,
            num_terms,
            n,
            f,
            g,
        ) ==> matrix_subset(fo, g)
}

/// Whether `syms[lo..hi]` are all nullable.
fn all_nullable_range(n: &Vec<bool>, syms: &Vec<usize>, lo: usize, hi: usize) -> (r: bool)
    requires
        lo <= hi <= syms@.len(),
        forall|k: int| 0 <= k < syms@.len() ==> #[trigger] syms@[k] < n@.len(),
    ensures
        r == all_nullable(n@, syms@.map_values(|x: usize| x as int).subrange(lo as int, hi as int)),
{
    let ghost ss = syms@.map_values(|x: usize| x as int).subrange(lo as int, hi as int);
    let mut k: usize = lo;
    while k < hi
        invariant
            lo <= k <= hi <= syms@.len(),
            ss == syms@.map_values(|x: usize| x as int).subrange(lo as int, hi as int),
            forall|j: int| 0 <= j < syms@.len() ==> #[trigger] syms@[j] < n@.len(),
            forall|j: int| 0 <= j < k - lo ==> n@[#[trigger] ss[j]],
        decreases hi - k,
    {
        if !n[syms[k]] {
            assert(!n@[ss[k - lo]]);
            return false;
        }
        k += 1;
    }
    true
}

/// Adds row `src` into row `dst` of `m`; says whether row `dst` grew.
fn add_into(m: &mut Vec<Vec<bool>>, dst: usize, src: &Vec<bool>) -> (grew: bool)
    requires
        dst < old(m)@.len(),
        old(m)@[dst as int]@.len() == src@.len(),
    ensures
        rows(final(m)@) == rows(old(m)@).update(
            dst as int,
            Seq::new(src@.len(), |i: int| old(m)@[dst as int]@[i] || src@[i]),
        ),
        grew == !row_subset(src@, old(m)@[dst as int]@),
        grew ==> count_matrix(rows(old(m)@)) < count_matrix(rows(final(m)@)),
        !grew ==> final(m)@ == old(m)@,
{
    let (row, grew) = union_row(&m[dst], src);
    let ghost before = rows(m@);
    if grew {
        let ghost newrow = row@;
        m.set(dst, row);
        proof {
            let d = dst as int;
            let w = choose|j: int| 0 <= j < src@.len() && src@[j] && !before[d][j];
            assert(row_subset(before[d], newrow));
            lemma_count_grows(before[d], newrow, w);
            lemma_matrix_update(before, d, newrow);
            assert(rows(m@) =~= before.update(d, newrow));
            assert(newrow =~= Seq::new(src@.len(), |i: int| before[d][i] || src@[i]));
        }
    } else {
        proof {
            let d = dst as int;
            assert(before[d] =~= Seq::new(src@.len(), |i: int| before[d][i] || src@[i]));
            assert(rows(m@) =~= before.update(d, before[d]));
        }
    }
    grew
}

/// What a pass of the FOLLOW analysis keeps: shape, growth, leastness.
pub open spec fn follow_step(
    rs: Seq<(int, Seq<int>)>,
    ns: int,
    nt: int,
    n: Seq<bool>,
    f: Seq<Seq<bool>>,
    start: Seq<Seq<bool>>,
    cur: Seq<Seq<bool>>,
) -> bool {
    &&& matrix_shape(cur, ns, nt)
    &&& matrix_subset(start, cur)
    &&& count_matrix(start) <= count_matrix(cur)
    &&& forall|g: Seq<Seq<bool>>|
        matrix_shape(g, ns, nt) && follow_closed(rs, nt, n, f, g) && matrix_subset(start, g)
            ==> #[trigger] matrix_subset(cur, g)
}

proof fn lemma_follow_step_add(
    rs: Seq<(int, Seq<int>)>,
    ns: int,
    nt: int,
    n: Seq<bool>,
    f: Seq<Seq<bool>>,
    start: Seq<Seq<bool>>,
    before: Seq<Seq<bool>>,
    after: Seq<Seq<bool>>,
    dst: int,
    src: Seq<bool>,
)
    requires
        follow_step(rs, ns, nt, n, f, start, before),
        matrix_shape(start, ns, nt),
        0 <= dst < ns,
        src.len() == nt,
        after == before.update(dst, Seq::new(src.len(), |i: int| before[dst][i] || src[i])),
        count_matrix(before) <= count_matrix(after),
        forall|g: Seq<Seq<bool>>|
            matrix_shape(g, ns, nt) && follow_closed(rs, nt, n, f, g) && matrix_subset(start, g)
                ==> #[trigger] row_subset(src, g[dst]),
    ensures
        follow_step(rs, ns, nt, n, f, start, after),
{
    assert forall|x: int| 0 <= x < ns implies (#[trigger] after[x]).len() == nt by {
        assert(before[x].len() == nt);
    }
    assert forall|x: int| 0 <= x < start.len() implies row_subset(#[trigger] start[x], after[x]) by {
        assert(row_subset(start[x], before[x]));
    }
    assert forall|g: Seq<Seq<bool>>|
        matrix_shape(g, ns, nt) && follow_closed(rs, nt, n, f, g) && matrix_subset(start, g)
            implies #[trigger] matrix_subset(after, g) by {
        assert(matrix_subset(before, g));
        assert(row_subset(src, g[dst]));
        assert forall|x: int| 0 <= x < after.len() implies row_subset(#[trigger] after[x], g[x]) by {
            assert(row_subset(before[x], g[x]));
        }
    }
}

/// One pass of the FOLLOW analysis over all productions.
fn follow_pass(
    rules: &Vec<IndexedRule>,
    n: &Vec<bool>,
    f: &Vec<Vec<bool>>,
    fo: &mut Vec<Vec<bool>>,
    num_terms: usize,
) -> (changed: bool)
    requires
        rules_in_range(rules_view(rules@), n@.len() as int),
        matrix_shape(rows(f@), n@.len() as int, num_terms as int),
        matrix_shape(rows(old(fo)@), n@.len() as int, num_terms as int),
    ensures
        follow_step(
            rules_view(rules@),
            n@.len() as int,
            num_terms as int,
            n@,
            rows(f@),
            rows(old(fo)@),
            rows(final(fo)@),
        ),
        changed ==> count_matrix(rows(old(fo)@)) < count_matrix(rows(final(fo)@)),
        !changed ==> final(fo)@ == old(fo)@ && follow_closed(
            rules_view(rules@),
            num_terms as int,
            n@,
            rows(f@),
            rows(final(fo)@),
        ),
{
    let ghost rs = rules_view(rules@);
    let ghost start = rows(fo@);
    let ghost ns = n@.len() as int;
    let ghost nt = num_terms as int;
    let ghost fr = rows(f@);
    let mut changed = false;
    let mut p: usize = 0;
    while p < rules.len()
        invariant
            rs == rules_view(rules@),
            rules_in_range(rs, ns),
            ns == n@.len(),
            nt == num_terms,
            fr == rows(f@),
            matrix_shape(fr, ns, nt),
            matrix_shape(start, ns, nt),
            p <= rules@.len(),
            follow_step(rs, ns, nt, n@, fr, start, rows(fo@)),
            changed ==> count_matrix(start) < count_matrix(rows(fo@)),
            !changed ==> rows(fo@) == start && fo@ == old(fo)@,
            !changed ==> forall|q: int, i: int|
                0 <= q < p && 0 <= i < rs[q].1.len() ==> #[trigger] follow_holds_at(
                    rs,
                    nt,
                    n@,
                    fr,
                    rows(fo@),
                    q,
                    i,
                ),
            start == rows(old(fo)@),
        decreases rules@.len() - p,
    {
        let lhs = rules[p].lhs;
        let rhs = &rules[p].rhs;
        let ghost r = rs[p as int].1;
        assert(rs[p as int].0 == lhs);
        assert forall|k: int| 0 <= k < rhs@.len() implies #[trigger] rhs@[k] < n@.len() by {
            assert(r[k] == rhs@[k]);
        }
        assert(r =~= rhs@.map_values(|x: usize| x as int));
        let mut i: usize = 0;
        while i < rhs.len()
            invariant
                rs == rules_view(rules@),
                rules_in_range(rs, ns),
                ns == n@.len(),
                nt == num_terms,
                fr == rows(f@),
                matrix_shape(fr, ns, nt),
                matrix_shape(start, ns, nt),
                p < rules@.len(),
                rhs == rules@[p as int].rhs,
                r == rs[p as int].1,
                r == rhs@.map_values(|x: usize| x as int),
                forall|k: int| 0 <= k < rhs@.len() ==> #[trigger] rhs@[k] < n@.len(),
                lhs == rs[p as int].0,
                i <= rhs@.len(),
                follow_step(rs, ns, nt, n@, fr, start, rows(fo@)),
                changed ==> count_matrix(start) < count_matrix(rows(fo@)),
                !changed ==> rows(fo@) == start && fo@ == old(fo)@,
                !changed ==> forall|q: int, j: int|
                    0 <= q < p && 0 <= j < rs[q].1.len() ==> #[trigger] follow_holds_at(
                        rs,
                        nt,
                        n@,
                        fr,
                        rows(fo@),
                        q,
                        j,
                    ),
                !changed ==> forall|j: int|
                    0 <= j < i ==> #[trigger] follow_holds_at(
                        rs,
                        nt,
                        n@,
                        fr,
                        rows(fo@),
                        p as int,
                        j,
                    ),
                start == rows(old(fo)@),
            decreases rhs@.len() - i,
        {
            let x = rhs[i];
            assert(r[i as int] == x);
            if x >= num_terms {
                let ghost changed_before = changed;
                // FOLLOW(A) into FOLLOW(x) when the rest is nullable.
                let rest = all_nullable_range(n, rhs, i + 1, rhs.len());
                assert(r.skip(i + 1) =~= r.subrange(i + 1, r.len() as int));
                if rest {
                    let ghost before = rows(fo@);
                    proof {
                        assert(before[lhs as int] == fo@[lhs as int]@);
                        assert(before[x as int] == fo@[x as int]@);
                    }
                    let row = copy_row(&fo[lhs]);
                    let grew = add_into(fo, x, &row);
                    proof {
                        lemma_matrix_update(before, x as int, rows(fo@)[x as int]);
                        assert(row_subset(before[x as int], rows(fo@)[x as int]));
                        lemma_count_mono(before[x as int], rows(fo@)[x as int]);
                        assert forall|g: Seq<Seq<bool>>|
                            matrix_shape(g, ns, nt) && follow_closed(rs, nt, n@, fr, g)
                                && matrix_subset(start, g) implies #[trigger] row_subset(
                            row@,
                            g[x as int],
                        ) by {
                            assert(matrix_subset(before, g));
                            assert(follow_holds_at(rs, nt, n@, fr, g, p as int, i as int));
                            assert(row_subset(before[lhs as int], g[lhs as int]));
                        }
                        lemma_follow_step_add(
                            rs,
                            ns,
                            nt,
                            n@,
                            fr,
                            start,
                            before,
                            rows(fo@),
                            x as int,
                            row@,
                        );
                    }
                    if grew {
                        changed = true;
                    }
                }
                // FIRST of each later symbol reachable over nullable symbols.
                let mut j: usize = i + 1;
                let mut between = true;
                while j < rhs.len()
                    invariant
                        rs == rules_view(rules@),
                        rules_in_range(rs, ns),
                        ns == n@.len(),
                        nt == num_terms,
                        fr == rows(f@),
                        matrix_shape(fr, ns, nt),
                        matrix_shape(start, ns, nt),
                        p < rules@.len(),
                        rhs == rules@[p as int].rhs,
                        r == rs[p as int].1,
                        r == rhs@.map_values(|x: usize| x as int),
                        forall|k: int| 0 <= k < rhs@.len() ==> #[trigger] rhs@[k] < n@.len(),
                        lhs == rs[p as int].0,
                        i < rhs@.len(),
                        x == rhs@[i as int],
                        x >= num_terms,
                        i + 1 <= j <= rhs@.len(),
                        between == all_nullable(n@, r.subrange(i + 1, j as int)),
                        follow_step(rs, ns, nt, n@, fr, start, rows(fo@)),
                        changed ==> count_matrix(start) < count_matrix(rows(fo@)),
                        !changed ==> rows(fo@) == start && fo@ == old(fo)@,
                        !changed ==> (all_nullable(n@, r.skip(i + 1)) ==> row_subset(
                            rows(fo@)[lhs as int],
                            rows(fo@)[x as int],
                        )),
                        !changed ==> forall|k: int|
                            i < k < j && all_nullable(n@, r.subrange(i + 1, k)) ==> row_subset(
                                fr[#[trigger] r[k]],
                                rows(fo@)[x as int],
                            ),
                        !changed ==> forall|q: int, k: int|
                            0 <= q < p && 0 <= k < rs[q].1.len() ==> #[trigger] follow_holds_at(
                                rs,
                                nt,
                                n@,
                                fr,
                                rows(fo@),
                                q,
                                k,
                            ),
                        !changed ==> forall|k: int|
                            0 <= k < i ==> #[trigger] follow_holds_at(
                                rs,
                                nt,
                                n@,
                                fr,
                                rows(fo@),
                                p as int,
                                k,
                            ),
                        start == rows(old(fo)@),
                    decreases rhs@.len() - j,
                {
                    let y = rhs[j];
                    assert(r[j as int] == y);
                    if between {
                        let ghost before = rows(fo@);
                        proof {
                            assert(before[x as int] == fo@[x as int]@);
                            assert(fr[y as int] == f@[y as int]@);
                        }
                        let grew = add_into(fo, x, &f[y]);
                        proof {
                            lemma_matrix_update(before, x as int, rows(fo@)[x as int]);
                            assert(row_subset(before[x as int], rows(fo@)[x as int]));
                            lemma_count_mono(before[x as int], rows(fo@)[x as int]);
                            assert forall|g: Seq<Seq<bool>>|
                                matrix_shape(g, ns, nt) && follow_closed(rs, nt, n@, fr, g)
                                    && matrix_subset(start, g) implies #[trigger] row_subset(
                                fr[y as int],
                                g[x as int],
                            ) by {
                                assert(follow_holds_at(rs, nt, n@, fr, g, p as int, i as int));
                                assert(r[j as int] == y);
                            }
                            lemma_follow_step_add(
                                rs,
                                ns,
                                nt,
                                n@,
                                fr,
                                start,
                                before,
                                rows(fo@),
                                x as int,
                                fr[y as int],
                            );
                        }
                        if grew {
                            changed = true;
                        }
                    }
                    proof {
                        assert(r.subrange(i + 1, j + 1) =~= r.subrange(i + 1, j as int).push(
                            y as int,
                        ));
                        lemma_all_nullable_push(n@, r.subrange(i + 1, j + 1), (j - i - 1) as int);
                        assert(r.subrange(i + 1, j + 1).take((j - i - 1) as int) =~= r.subrange(
                            i + 1,
                            j as int,
                        ));
                        assert(r.subrange(i + 1, j + 1).take((j - i) as int) =~= r.subrange(
                            i + 1,
                            j + 1,
                        ));
                    }
                    between = between && n[y];
                    j += 1;
                }
                proof {
                    if !changed {
                        assert(follow_holds_at(rs, nt, n@, fr, rows(fo@), p as int, i as int));
                    }
                }
            } else {
                proof {
                    assert(follow_holds_at(rs, nt, n@, fr, rows(fo@), p as int, i as int));
                }
            }
            i += 1;
        }
        p += 1;
    }
    proof {
        if !changed {
            assert(follow_closed(rs, nt, n@, fr, rows(fo@)));
        }
    }
    changed
}

/// A copy of a row.
fn copy_row(v: &Vec<bool>) -> (r: Vec<bool>)
    ensures
        r@ == v@,
{
    let mut r: Vec<bool> = Vec::new();
    let mut i: usize = 0;
    while i < v.len()
        invariant
            i <= v@.len(),
            r@ == v@.take(i as int),
        decreases v@.len() - i,
    {
        r.push(v[i]);
        i += 1;
        assert(r@ =~= v@.take(i as int));
    }
    assert(v@.take(i as int) =~= v@);
    r
}

/// The FOLLOW sets, one row of terminals per symbol (terminal rows stay
/// empty): the least sets closed under the FOLLOW rules for the given
/// nullable and FIRST sets.
pub fn compute_follow(ast: &AstGrammar, nullable: &Vec<bool>, first: &Vec<Vec<bool>>) -> (r: Vec<
    Vec<bool>,
>)
    requires
        ast.wf(),
        nullable@.len() == ast.num_symbols(),
        matrix_shape(rows(first@), ast.num_symbols(), ast.num_terms()),
    ensures
        is_follow_sets(
            ast.rules(),
            ast.num_symbols(),
            ast.num_terms(),
            nullable@,
            rows(first@),
            rows(r@),
        ),
{
    let rules = ast.resolved_productions();
    let nt = ast.token_decl.aliases.len();
    let ns = nt + ast.nonterminals.len();
    proof {
        ast.lemma_rules_in_range();
    }
    let mut follow: Vec<Vec<bool>> = Vec::new();
    while follow.len() < ns
        invariant
            follow@.len() <= ns,
            forall|x: int|
                0 <= x < follow@.len() ==> (#[trigger] follow@[x])@.len() == nt && forall|t: int|
                    0 <= t < nt ==> !follow@[x]@[t],
        decreases ns - follow@.len(),
    {
        let mut row: Vec<bool> = Vec::new();
        while row.len() < nt
            invariant
                row@.len() <= nt,
                forall|t: int| 0 <= t < row@.len() ==> !row@[t],
            decreases nt - row@.len(),
        {
            row.push(false);
        }
        follow.push(row);
    }
    let ghost start = rows(follow@);
    proof {
        assert forall|g: Seq<Seq<bool>>|
            matrix_shape(g, ns as int, nt as int) && #[trigger] follow_closed(
                ast.rules(),
                nt as int,
                nullable@,
                rows(first@),
                g,
            ) implies matrix_subset(rows(follow@), g) by {
            assert forall|x: int| 0 <= x < ns implies row_subset(#[trigger] rows(follow@)[x], g[x]) by {
                assert forall|t: int| 0 <= t < rows(follow@)[x].len() implies !#[trigger] rows(follow@)[x][t] by {
                    assert(!follow@[x]@[t]);
                }
            }
        }
    }
    loop
        invariant
            nt == ast.num_terms(),
            ns == ast.num_symbols(),
            nullable@.len() == ns,
            rules_view(rules@) == ast.rules(),
            rules_in_range(ast.rules(), ns as int),
            matrix_shape(rows(first@), ns as int, nt as int),
            matrix_shape(rows(follow@), ns as int, nt as int),
            forall|g: Seq<Seq<bool>>|
                matrix_shape(g, ns as int, nt as int) && #[trigger] follow_closed(
                    ast.rules(),
                    nt as int,
                    nullable@,
                    rows(first@),
                    g,
                ) ==> matrix_subset(rows(follow@), g),
        ensures
            is_follow_sets(ast.rules(), ns as int, nt as int, nullable@, rows(first@), rows(follow@)),
        decreases ns * nt - count_matrix(rows(follow@)),
    {
        proof {
            lemma_matrix_bound(rows(follow@), nt as int);
        }
        let ghost before = rows(follow@);
        let changed = follow_pass(&rules, nullable, first, &mut follow, nt);
        proof {
            lemma_matrix_bound(rows(follow@), nt as int);
            assert forall|g: Seq<Seq<bool>>|
                matrix_shape(g, ns as int, nt as int) && #[trigger] follow_closed(
                    ast.rules(),
                    nt as int,
                    nullable@,
                    rows(first@),
                    g,
                ) implies matrix_subset(rows(follow@), g) by {
                assert(matrix_subset(before, g));
            }
        }
        if !changed {
            break;
        }
    }
    follow
}

/// Terminal `t` begins FIRST of the symbol sequence `syms`: FIRST of some
/// symbol of it that only nullable symbols precede holds `t`.
pub open spec fn first_of_seq(n: Seq<bool>, f: Seq<Seq<bool>>, syms: Seq<int>, t: int) -> bool {
    exists|i: int| 0 <= i < syms.len() && all_nullable(n, syms.take(i)) && #[trigger] f[syms[i]][t]
}

/// Production `p` is chosen on lookahead `t`: `t` begins its right-hand side,
/// or the right-hand side is nullable and `t` follows its nonterminal.
pub open spec fn predicts(
    rules: Seq<(int, Seq<int>)>,
    n: Seq<bool>,
    f: Seq<Seq<bool>>,
    fo: Seq<Seq<bool>>,
    p: int,
    t: int,
) -> bool {
    first_of_seq(n, f, rules[p].1, t) || (all_nullable(n, rules[p].1) && fo[rules[p].0][t])
}

pub open spec fn cell_view(c: Vec<usize>) -> Seq<int> {
    c@.map_values(|p: usize| p as int)
}

/// The table as numbers: by nonterminal index, then terminal number, the
/// production numbers of the cell.
pub open spec fn table_view(table: Seq<Vec<Vec<usize>>>) -> Seq<Seq<Seq<int>>> {
    table.map_values(|row: Vec<Vec<usize>>| row@.map_values(|c: Vec<usize>| cell_view(c)))
}

pub open spec fn strictly_increasing(s: Seq<int>) -> bool {
    forall|i: int, j: int| 0 <= i < j < s.len() ==> s[i] < s[j]
}

/// `table[a][t]` lists, in grammar order, exactly the productions of the
/// `a`-th nonterminal that are chosen on terminal `t`.
pub open spec fn is_parse_table(
    rules: Seq<(int, Seq<int>)>,
    num_terms: int,
    num_nonterms: int,
    n: Seq<bool>,
    f: Seq<Seq<bool>>,
    fo: Seq<Seq<bool>>,
    table: Seq<Seq<Seq<int>>>,
) -> bool {
    &&& table.len() == num_nonterms
    &&& forall|a: int| 0 <= a < num_nonterms ==> (#[trigger] table[a]).len() == num_terms
    &&& forall|a: int, t: int|
        0 <= a < num_nonterms && 0 <= t < num_terms ==> strictly_increasing(
            #[trigger] table[a][t],
        )
    &&& forall|a: int, t: int, p: int|
        0 <= a < num_nonterms && 0 <= t < num_terms ==> (#[trigger] table[a][t].contains(p) <==> (
        0 <= p < rules.len() && rules[p].0 == num_terms + a && predicts(rules, n, f, fo, p, t)))
}

proof fn lemma_all_nullable_prefix(n: Seq<bool>, syms: Seq<int>, i: int, k: int)
    requires
        0 <= i <= k <= syms.len(),
        all_nullable(n, syms.take(k)),
    ensures
        all_nullable(n, syms.take(i)),
{
    assert forall|j: int| 0 <= j < i implies n[#[trigger] syms.take(i)[j]] by {
        assert(syms.take(i)[j] == syms.take(k)[j]);
    }
}

/// The terminals that begin the symbol sequence `symbols`: FIRST of each
/// symbol up to and including the first one that is not nullable.
fn first_range(symbols: &Vec<usize>, first: &Vec<Vec<bool>>, nullable: &Vec<bool>, num_terms: usize) -> (r: Vec<bool>)
    requires
        forall|k: int| 0 <= k < symbols@.len() ==> #[trigger] symbols@[k] < nullable@.len(),
        matrix_shape(rows(first@), nullable@.len() as int, num_terms as int),
    ensures
        r@.len() == num_terms,
        forall|t: int|
            0 <= t < num_terms ==> #[trigger] r@[t] == first_of_seq(
                nullable@,
                rows(first@),
                symbols@.map_values(|x: usize| x as int),
                t,
            ),
{
    let ghost ss = symbols@.map_values(|x: usize| x as int);
    let ghost fr = rows(first@);
    let mut acc: Vec<bool> = Vec::new();
    while acc.len() < num_terms
        invariant
            acc@.len() <= num_terms,
            forall|t: int| 0 <= t < acc@.len() ==> !acc@[t],
        decreases num_terms - acc@.len(),
    {
        acc.push(false);
    }
    let mut go = true;
    let mut i: usize = 0;
    while go && i < symbols.len()
        invariant
            ss == symbols@.map_values(|x: usize| x as int),
            fr == rows(first@),
            forall|k: int| 0 <= k < symbols@.len() ==> #[trigger] symbols@[k] < nullable@.len(),
            matrix_shape(fr, nullable@.len() as int, num_terms as int),
            i <= symbols@.len(),
            go == all_nullable(nullable@, ss.take(i as int)),
            acc@.len() == num_terms,
            forall|t: int|
                0 <= t < num_terms ==> #[trigger] acc@[t] == exists|k: int|
                    0 <= k < i && all_nullable(nullable@, ss.take(k)) && #[trigger] fr[ss[k]][t],
        decreases symbols@.len() - i,
    {
        let y = symbols[i];
        assert(ss[i as int] == y);
        assert(fr[y as int] == first@[y as int]@);
        let (u, _) = union_row(&acc, &first[y]);
        proof {
            assert forall|t: int| 0 <= t < num_terms implies #[trigger] u@[t] == exists|k: int|
                0 <= k < i + 1 && all_nullable(nullable@, ss.take(k)) && #[trigger] fr[ss[k]][t] by {
                if u@[t] && !acc@[t] {
                    assert(fr[ss[i as int]][t]);
                }
                if exists|k: int|
                    0 <= k < i + 1 && all_nullable(nullable@, ss.take(k)) && #[trigger] fr[ss[k]][t] {
                    let k = choose|k: int|
                        0 <= k < i + 1 && all_nullable(nullable@, ss.take(k)) && #[trigger] fr[ss[k]][t];
                    if k < i {
                        assert(acc@[t]);
                    } else {
                        assert(first@[y as int]@[t]);
                    }
                }
            }
            lemma_all_nullable_push(nullable@, ss, i as int);
        }
        acc = u;
        go = nullable[y];
        i += 1;
    }
    proof {
        assert forall|t: int| 0 <= t < num_terms implies #[trigger] acc@[t] == first_of_seq(
            nullable@,
            fr,
            ss,
            t,
        ) by {
            if first_of_seq(nullable@, fr, ss, t) {
                let k = choose|k: int|
                    0 <= k < ss.len() && all_nullable(nullable@, ss.take(k)) && #[trigger] fr[ss[k]][t];
                if k >= i {
                    lemma_all_nullable_prefix(nullable@, ss, i as int, k);
                }
                assert(acc@[t]);
            }
        }
    }
    acc
}

/// For each production, the terminals on which it is chosen.
fn predict_rows(
    rules: &Vec<IndexedRule>,
    nullable: &Vec<bool>,
    first: &Vec<Vec<bool>>,
    follow: &Vec<Vec<bool>>,
    num_terms: usize,
) -> (r: Vec<Vec<bool>>)
    requires
        rules_in_range(rules_view(rules@), nullable@.len() as int),
        matrix_shape(rows(first@), nullable@.len() as int, num_terms as int),
        matrix_shape(rows(follow@), nullable@.len() as int, num_terms as int),
    ensures
        r@.len() == rules@.len(),
        forall|p: int| 0 <= p < rules@.len() ==> (#[trigger] r@[p])@.len() == num_terms,
        forall|p: int, t: int|
            0 <= p < rules@.len() && 0 <= t < num_terms ==> #[trigger] r@[p]@[t] == predicts(
                rules_view(rules@),
                nullable@,
                rows(first@),
                rows(follow@),
                p,
                t,
            ),
{
    let ghost rs = rules_view(rules@);
    let mut out: Vec<Vec<bool>> = Vec::new();
    let mut p: usize = 0;
    while p < rules.len()
        invariant
            rs == rules_view(rules@),
            rules_in_range(rs, nullable@.len() as int),
            matrix_shape(rows(first@), nullable@.len() as int, num_terms as int),
            matrix_shape(rows(follow@), nullable@.len() as int, num_terms as int),
            p <= rules@.len(),
            out@.len() == p,
            forall|q: int| 0 <= q < p ==> (#[trigger] out@[q])@.len() == num_terms,
            forall|q: int, t: int|
                0 <= q < p && 0 <= t < num_terms ==> #[trigger] out@[q]@[t] == predicts(
                    rs,
                    nullable@,
                    rows(first@),
                    rows(follow@),
                    q,
                    t,
                ),
        decreases rules@.len() - p,
    {
        let rhs = &rules[p].rhs;
        let lhs = rules[p].lhs;
        let ghost r = rs[p as int].1;
        assert(rs[p as int].0 == lhs);
        assert forall|k: int| 0 <= k < rhs@.len() implies #[trigger] rhs@[k] < nullable@.len() by {
            assert(r[k] == rhs@[k]);
        }
        assert(r =~= rhs@.map_values(|x: usize| x as int));
        let fr = first_range(rhs, first, nullable, num_terms);
        let row = if all_nullable_exec(nullable, rhs) {
            assert(rows(follow@)[lhs as int] == follow@[lhs as int]@);
            let (u, _) = union_row(&fr, &follow[lhs]);
            u
        } else {
            fr
        };
        out.push(row);
        p += 1;
    }
    out
}

/// The LL(1) predictive table: for each nonterminal (by index among the
/// nonterminals) and terminal, the productions chosen there, in grammar
/// order. A cell with more than one production is a conflict.
pub fn compute_parse_table(
    ast: &AstGrammar,
    nullable: &Vec<bool>,
    first: &Vec<Vec<bool>>,
    follow: &Vec<Vec<bool>>,
) -> (r: Vec<Vec<Vec<usize>>>)
    requires
        ast.wf(),
        nullable@.len() == ast.num_symbols(),
        matrix_shape(rows(first@), ast.num_symbols(), ast.num_terms()),
        matrix_shape(rows(follow@), ast.num_symbols(), ast.num_terms()),
    ensures
        is_parse_table(
            ast.rules(),
            ast.num_terms(),
            ast.nonterminals@.len() as int,
            nullable@,
            rows(first@),
            rows(follow@),
            table_view(r@),
        ),
{
    let rules = ast.resolved_productions();
    let nt = ast.token_decl.aliases.len();
    let nn = ast.nonterminals.len();
    proof {
        ast.lemma_rules_in_range();
    }
    let pred = predict_rows(&rules, nullable, first, follow, nt);
    let ghost rs = ast.rules();
    let ghost n = nullable@;
    let ghost fr = rows(first@);
    let ghost fo = rows(follow@);
    let mut table: Vec<Vec<Vec<usize>>> = Vec::new();
    let mut a: usize = 0;
    while a < nn
        invariant
            rs == ast.rules(),
            rules_view(rules@) == rs,
            n == nullable@,
            fr == rows(first@),
            fo == rows(follow@),
            nt == ast.num_terms(),
            nn == ast.nonterminals@.len(),
            nt + nn < usize::MAX,
            pred@.len() == rules@.len(),
            forall|p: int| 0 <= p < rules@.len() ==> (#[trigger] pred@[p])@.len() == nt,
            forall|p: int, t: int|
                0 <= p < rules@.len() && 0 <= t < nt ==> #[trigger] pred@[p]@[t] == predicts(
                    rs,
                    n,
                    fr,
                    fo,
                    p,
                    t,
                ),
            a <= nn,
            table@.len() == a,
            forall|b: int| 0 <= b < a ==> (#[trigger] table@[b])@.len() == nt,
            forall|b: int, t: int|
                0 <= b < a && 0 <= t < nt ==> strictly_increasing(
                    #[trigger] cell_view(table@[b]@[t]),
                ),
            forall|b: int, t: int, p: int|
                0 <= b < a && 0 <= t < nt ==> (#[trigger] cell_view(table@[b]@[t]).contains(p)
                    <==> (0 <= p < rs.len() && rs[p].0 == nt + b && predicts(rs, n, fr, fo, p, t))),
        decreases nn - a,
    {
        let mut row: Vec<Vec<usize>> = Vec::new();
        let mut t: usize = 0;
        while t < nt
            invariant
                rs == ast.rules(),
                rules_view(rules@) == rs,
                nt + nn < usize::MAX,
                a < nn,
                pred@.len() == rules@.len(),
                forall|p: int| 0 <= p < rules@.len() ==> (#[trigger] pred@[p])@.len() == nt,
                forall|p: int, t: int|
                    0 <= p < rules@.len() && 0 <= t < nt ==> #[trigger] pred@[p]@[t] == predicts(
                        rs,
                        n,
                        fr,
                        fo,
                        p,
                        t,
                    ),
                t <= nt,
                row@.len() == t,
                forall|u: int| 0 <= u < t ==> strictly_increasing(#[trigger] cell_view(row@[u])),
                forall|u: int, p: int|
                    0 <= u < t ==> (#[trigger] cell_view(row@[u]).contains(p) <==> (0 <= p
                        < rs.len() && rs[p].0 == nt + a && predicts(rs, n, fr, fo, p, u))),
            decreases nt - t,
        {
            let mut cell: Vec<usize> = Vec::new();
            let mut p: usize = 0;
            while p < rules.len()
                invariant
                    rs == ast.rules(),
                    rules_view(rules@) == rs,
                    nt + nn < usize::MAX,
                    a < nn,
                    t < nt,
                    pred@.len() == rules@.len(),
                    forall|p: int| 0 <= p < rules@.len() ==> (#[trigger] pred@[p])@.len() == nt,
                    forall|p: int, t: int|
                        0 <= p < rules@.len() && 0 <= t < nt ==> #[trigger] pred@[p]@[t]
                            == predicts(rs, n, fr, fo, p, t),
                    p <= rules@.len(),
                    strictly_increasing(cell_view(cell)),
                    forall|k: int| 0 <= k < cell@.len() ==> #[trigger] cell@[k] < p,
                    forall|q: int|
                        #[trigger] cell_view(cell).contains(q) <==> (0 <= q < p && rs[q].0 == nt
                            + a && predicts(rs, n, fr, fo, q, t as int)),
                decreases rules@.len() - p,
            {
                assert(rs[p as int].0 == rules@[p as int].lhs);
                if rules[p].lhs == nt + a && pred[p][t] {
                    let ghost before = cell_view(cell);
                    cell.push(p);
                    proof {
                        assert(cell_view(cell) =~= before.push(p as int));
                        assert forall|q: int|
                            #[trigger] cell_view(cell).contains(q) <==> (0 <= q < p + 1 && rs[q].0
                                == nt + a && predicts(rs, n, fr, fo, q, t as int)) by {
                            let now = cell_view(cell);
                            if q == p {
                                assert(now[before.len() as int] == q);
                                assert(pred@[p as int]@[t as int]);
                            }
                            if before.contains(q) {
                                let k = choose|k: int| 0 <= k < before.len() && before[k] == q;
                                assert(now[k] == q);
                            }
                            if now.contains(q) && q != p {
                                let k = choose|k: int| 0 <= k < now.len() && now[k] == q;
                                assert(k < before.len());
                                assert(before[k] == q);
                                assert(before.contains(q));
                            }
                        }
                    }
                } else {
                    proof {
                        assert forall|q: int|
                            #[trigger] cell_view(cell).contains(q) <==> (0 <= q < p + 1 && rs[q].0
                                == nt + a && predicts(rs, n, fr, fo, q, t as int)) by {
                            if cell_view(cell).contains(q) {
                                let k = choose|k: int| 0 <= k < cell_view(cell).len() && cell_view(cell)[k] == q;
                                assert(cell@[k] < p);
                            }
                        }
                    }
                }
                p += 1;
            }
            let ghost before = row@;
            row.push(cell);
            proof {
                assert forall|u: int| 0 <= u < t + 1 implies strictly_increasing(
                    #[trigger] cell_view(row@[u]),
                ) by {
                    if u < t {
                        assert(row@[u] == before[u]);
                    }
                }
                assert forall|u: int, q: int|
                    0 <= u < t + 1 implies (#[trigger] cell_view(row@[u]).contains(q) <==> (0 <= q
                        < rs.len() && rs[q].0 == nt + a && predicts(rs, n, fr, fo, q, u))) by {
                    if u < t {
                        assert(row@[u] == before[u]);
                    }
                }
            }
            t += 1;
        }
        let ghost before = table@;
        table.push(row);
        proof {
            assert forall|b: int| 0 <= b < a + 1 implies (#[trigger] table@[b])@.len() == nt by {
                if b < a {
                    assert(table@[b] == before[b]);
                }
            }
            assert forall|b: int, t: int|
                0 <= b < a + 1 && 0 <= t < nt implies strictly_increasing(
                    #[trigger] cell_view(table@[b]@[t]),
                ) by {
                if b < a {
                    assert(table@[b] == before[b]);
                }
            }
            assert forall|b: int, t: int, p: int|
                0 <= b < a + 1 && 0 <= t < nt implies (#[trigger] cell_view(table@[b]@[t]).contains(p)
                    <==> (0 <= p < rs.len() && rs[p].0 == nt + b && predicts(rs, n, fr, fo, p, t))) by {
                if b < a {
                    assert(table@[b] == before[b]);
                }
            }
        }
        a += 1;
    }
    proof {
        let tv = table_view(table@);
        assert forall|b: int| 0 <= b < nn implies (#[trigger] tv[b]).len() == nt by {
            assert(tv[b] == table@[b]@.map_values(|c: Vec<usize>| cell_view(c)));
        }
        assert forall|b: int, t: int| 0 <= b < nn && 0 <= t < nt implies #[trigger] tv[b][t]
            == cell_view(table@[b]@[t]) by {
            assert(tv[b] == table@[b]@.map_values(|c: Vec<usize>| cell_view(c)));
        }
    }
    table
}

/// No cell of the table holds more than one production.
pub open spec fn conflict_free(table: Seq<Seq<Seq<int>>>) -> bool {
    forall|a: int, t: int|
        0 <= a < table.len() && 0 <= t < table[a].len() ==> (#[trigger] table[a][t]).len() <= 1
}

/// The grammar is LL(1): no two productions of one nonterminal are chosen on
/// the same terminal.
pub open spec fn is_ll1(
    rules: Seq<(int, Seq<int>)>,
    num_terms: int,
    n: Seq<bool>,
    f: Seq<Seq<bool>>,
    fo: Seq<Seq<bool>>,
) -> bool {
    forall|p: int, q: int, t: int|
        0 <= p < q < rules.len() && rules[p].0 == rules[q].0 && 0 <= t < num_terms && #[trigger] predicts(
            rules,
            n,
            f,
            fo,
            p,
            t,
        ) ==> !#[trigger] predicts(rules, n, f, fo, q, t)
}

/// A conflict of the table: a nonterminal (by index among the nonterminals),
/// a terminal, and the competing productions in grammar order.
#[derive(Clone, Debug, PartialEq, Eq)]
pub struct LlConflict {
    pub nonterminal: usize,
    pub lookahead: usize,
    pub productions: Vec<usize>,
}

/// `c` reports the first conflict of the table: the first cell, by
/// nonterminal and then by terminal, that holds more than one production,
/// and the productions of that cell in grammar order.
pub open spec fn first_conflict(table: Seq<Seq<Seq<int>>>, c: LlConflict) -> bool {
    &&& c.nonterminal < table.len()
    &&& c.lookahead < table[c.nonterminal as int].len()
    &&& c.productions@.map_values(|p: usize| p as int) == table[c.nonterminal as int][c.lookahead as int]
    &&& c.productions@.len() > 1
    &&& forall|a: int, t: int|
        0 <= a < table.len() && 0 <= t < table[a].len() && (a < c.nonterminal || (a
            == c.nonterminal && t < c.lookahead)) ==> (#[trigger] table[a][t]).len() <= 1
}

/// The first cell, by nonterminal and then by terminal, that holds more than
/// one production; `None` when the table is conflict-free.
pub fn find_conflict(table: &Vec<Vec<Vec<usize>>>) -> (r: Option<LlConflict>)
    ensures
        r is None <==> conflict_free(table_view(table@)),
        r matches Some(c) ==> first_conflict(table_view(table@), c),
        r matches Some(c) ==> {
            &&& c.nonterminal < table@.len()
            &&& c.lookahead < table@[c.nonterminal as int]@.len()
            &&& c.productions@ == table@[c.nonterminal as int]@[c.lookahead as int]@
            &&& c.productions@.len() > 1
            &&& forall|a: int, t: int|
                0 <= a < table@.len() && 0 <= t < table@[a]@.len() && (a < c.nonterminal || (a
                    == c.nonterminal && t < c.lookahead)) ==> (#[trigger] table@[a]@[t])@.len() <= 1
        },
{
    let ghost tv = table_view(table@);
    let mut a: usize = 0;
    while a < table.len()
        invariant
            tv == table_view(table@),
            a <= table@.len(),
            forall|b: int, t: int|
                0 <= b < a && 0 <= t < table@[b]@.len() ==> (#[trigger] table@[b]@[t])@.len() <= 1,
        decreases table@.len() - a,
    {
        let row = &table[a];
        let mut t: usize = 0;
        while t < row.len()
            invariant
                tv == table_view(table@),
                a < table@.len(),
                row == table@[a as int],
                t <= row@.len(),
                forall|b: int, u: int|
                    0 <= b < a && 0 <= u < table@[b]@.len() ==> (#[trigger] table@[b]@[u])@.len()
                        <= 1,
                forall|u: int| 0 <= u < t ==> (#[trigger] row@[u])@.len() <= 1,
            decreases row@.len() - t,
        {
            if row[t].len() > 1 {
                let mut productions: Vec<usize> = Vec::new();
                let cell = &row[t];
                let mut k: usize = 0;
                while k < cell.len()
                    invariant
                        k <= cell@.len(),
                        productions@ == cell@.take(k as int),
                    decreases cell@.len() - k,
                {
                    productions.push(cell[k]);
                    k += 1;
                    assert(productions@ =~= cell@.take(k as int));
                }
                assert(cell@.take(k as int) =~= cell@);
                proof {
                    assert(tv[a as int][t as int] == cell_view(table@[a as int]@[t as int]));
                    assert(!conflict_free(tv));
                    assert forall|b: int, u: int|
                        0 <= b < tv.len() && 0 <= u < tv[b].len() && (b < a || (b == a && u < t))
                            implies (#[trigger] tv[b][u]).len() <= 1 by {
                        assert(tv[b] == table@[b]@.map_values(|c: Vec<usize>| cell_view(c)));
                        assert(table@[b]@[u]@.len() <= 1);
                    }
                    assert(productions@.map_values(|p: usize| p as int) =~= tv[a as int][t as int]);
                }
                return Some(LlConflict { nonterminal: a, lookahead: t, productions });
            }
            t += 1;
        }
        a += 1;
    }
    proof {
        assert forall|b: int, u: int|
            0 <= b < tv.len() && 0 <= u < tv[b].len() implies (#[trigger] tv[b][u]).len() <= 1 by {
            assert(tv[b] == table@[b]@.map_values(|c: Vec<usize>| cell_view(c)));
            assert(table@[b]@[u]@.len() <= 1);
        }
    }
    None
}

/// A grammar is LL(1) exactly when its parse table has no conflict.
pub proof fn lemma_conflict_detection(
    ast: AstGrammar,
    n: Seq<bool>,
    f: Seq<Seq<bool>>,
    fo: Seq<Seq<bool>>,
    table: Seq<Seq<Seq<int>>>,
)
    requires
        ast.wf(),
        is_nullable_set(ast.rules(), ast.num_symbols(), n),
        is_first_sets(ast.rules(), ast.num_symbols(), ast.num_terms(), n, f),
        is_follow_sets(ast.rules(), ast.num_symbols(), ast.num_terms(), n, f, fo),
        is_parse_table(ast.rules(), ast.num_terms(), ast.nonterminals@.len() as int, n, f, fo, table),
    ensures
        is_ll1(ast.rules(), ast.num_terms(), n, f, fo) <==> conflict_free(table),
{
    let rs = ast.rules();
    let nt = ast.num_terms();
    let nn = ast.nonterminals@.len() as int;
    ast.lemma_rules_in_range();
    if is_ll1(rs, nt, n, f, fo) {
        assert forall|a: int, t: int|
            0 <= a < table.len() && 0 <= t < table[a].len() implies (#[trigger] table[a][t]).len() <= 1 by {
            let c = table[a][t];
            if c.len() > 1 {
                let p = c[0];
                let q = c[1];
                assert(c.contains(p));
                assert(c.contains(q));
                assert(strictly_increasing(c));
                assert(predicts(rs, n, f, fo, p, t));
                assert(predicts(rs, n, f, fo, q, t));
            }
        }
    }
    if conflict_free(table) {
        assert forall|p: int, q: int, t: int|
            0 <= p < q < rs.len() && rs[p].0 == rs[q].0 && 0 <= t < nt && #[trigger] predicts(
                rs,
                n,
                f,
                fo,
                p,
                t,
            ) implies !#[trigger] predicts(rs, n, f, fo, q, t) by {
            let a = rs[p].0 - nt;
            if predicts(rs, n, f, fo, q, t) {
                assert(table[a][t].contains(p));
                assert(table[a][t].contains(q));
                let c = table[a][t];
                assert(c.len() <= 1);
                let i = choose|i: int| 0 <= i < c.len() && c[i] == p;
                let j = choose|j: int| 0 <= j < c.len() && c[j] == q;
            }
        }
    }
}

/// Every nullable symbol derives the empty string.
pub proof fn lemma_nullable_derives_empty(ast: AstGrammar, n: Seq<bool>, x: int)
    requires
        ast.wf(),
        is_nullable_set(ast.rules(), ast.num_symbols(), n),
        0 <= x < ast.num_symbols(),
        n[x],
    ensures
        derives(ast.rules(), ast.num_terms(), seq![x], seq![]),
{
    let rs = ast.rules();
    let t = ast.num_terms();
    let ns = ast.num_symbols();
    ast.lemma_rules_in_range();
    let d = Seq::new(ns as nat, |y: int| derives(rs, t, seq![y], seq![]));
    assert forall|p: int| 0 <= p < rs.len() && all_nullable(d, (#[trigger] rs[p]).1) implies d[rs[p].0] by {
        let r = rs[p].1;
        assert forall|k: int| 0 <= k < r.len() implies derives(rs, t, seq![#[trigger] r[k]], seq![]) by {
            assert(d[r[k]]);
        }
        lemma_seq_derives_empty(rs, t, r);
        let l = choose|l: Seq<int>| #[trigger] leftmost_derive(rs, t, r, l) == Some(Seq::<int>::empty());
        lemma_derive_production(rs, t, p);
        lemma_derive_concat_logs(rs, t, seq![rs[p].0], seq![p], l);
        assert(leftmost_derive(rs, t, seq![rs[p].0], seq![p] + l) == Some(Seq::<int>::empty()));
    }
    assert(nullable_closed(rs, d));
    assert(row_subset(n, d));
    assert(d[x]);
}

/// A production whose right-hand side derives, after a nullable prefix, a
/// string that begins with `v` makes its nonterminal derive one too.
pub proof fn lemma_first_derives_step(ast: AstGrammar, n: Seq<bool>, p: int, i: int, v: int, beta: Seq<int>)
    requires
        ast.wf(),
        is_nullable_set(ast.rules(), ast.num_symbols(), n),
        0 <= p < ast.rules().len(),
        0 <= i < ast.rules()[p].1.len(),
        all_nullable(n, ast.rules()[p].1.take(i)),
        derives(ast.rules(), ast.num_terms(), seq![ast.rules()[p].1[i]], seq![v] + beta),
    ensures
        derives(
            ast.rules(),
            ast.num_terms(),
            seq![ast.rules()[p].0],
            seq![v] + (beta + ast.rules()[p].1.skip(i + 1)),
        ),
{
    let rs = ast.rules();
    let t = ast.num_terms();
    ast.lemma_rules_in_range();
    let r = rs[p].1;
    let a = rs[p].0;
    let y = r[i];
    let l2 = choose|l: Seq<int>| #[trigger] leftmost_derive(rs, t, seq![y], l) == Some(
        seq![v] + beta,
    );
    let pre = r.take(i);
    let rest = seq![y] + r.skip(i + 1);
    assert forall|k: int| 0 <= k < pre.len() implies derives(rs, t, seq![#[trigger] pre[k]], seq![])
        by {
        assert(n[pre[k]]);
        lemma_nullable_derives_empty(ast, n, pre[k]);
    }
    lemma_seq_derives_empty(rs, t, pre);
    let l1 = choose|l: Seq<int>| #[trigger] leftmost_derive(rs, t, pre, l) == Some(
        Seq::<int>::empty(),
    );
    assert(pre + rest =~= r);
    lemma_derive_suffix(rs, t, pre, rest, l1);
    assert(Seq::<int>::empty() + rest =~= rest);
    lemma_derive_suffix(rs, t, seq![y], r.skip(i + 1), l2);
    lemma_derive_production(rs, t, p);
    lemma_derive_concat_logs(rs, t, seq![a], seq![p], l1);
    lemma_derive_concat_logs(rs, t, seq![a], seq![p] + l1, l2);
    let beta2 = beta + r.skip(i + 1);
    assert(seq![v] + beta + r.skip(i + 1) =~= seq![v] + beta2);
    assert(leftmost_derive(rs, t, seq![a], seq![p] + l1 + l2) == Some(seq![v] + beta2));
}

/// Every terminal in the FIRST set of a symbol begins a string that the
/// symbol derives.
pub proof fn lemma_first_derives(ast: AstGrammar, n: Seq<bool>, f: Seq<Seq<bool>>, x: int, u: int)
    requires
        ast.wf(),
        is_nullable_set(ast.rules(), ast.num_symbols(), n),
        is_first_sets(ast.rules(), ast.num_symbols(), ast.num_terms(), n, f),
        0 <= x < ast.num_symbols(),
        0 <= u < ast.num_terms(),
        f[x][u],
    ensures
        exists|beta: Seq<int>| derives(ast.rules(), ast.num_terms(), seq![x], seq![u] + beta),
{
    let rs = ast.rules();
    let t = ast.num_terms();
    let ns = ast.num_symbols();
    ast.lemma_rules_in_range();
    let g = Seq::new(
        ns as nat,
        |y: int|
            Seq::new(
                t as nat,
                |v: int| exists|beta: Seq<int>| #[trigger] derives(rs, t, seq![y], seq![v] + beta),
            ),
    );
    assert forall|v: int| 0 <= v < t implies #[trigger] g[v][v] by {
        assert(leftmost_derive(rs, t, seq![v], seq![]) == Some(seq![v]));
        assert(seq![v] + Seq::<int>::empty() =~= seq![v]);
        assert(derives(rs, t, seq![v], seq![v] + Seq::<int>::empty()));
    }
    assert forall|p: int, i: int|
        0 <= p < rs.len() && 0 <= i < rs[p].1.len() && all_nullable(n, rs[p].1.take(i)) implies row_subset(
        g[#[trigger] rs[p].1[i]],
        g[rs[p].0],
    ) by {
        let r = rs[p].1;
        let a = rs[p].0;
        let y = r[i];
        assert forall|v: int| 0 <= v < g[y].len() && #[trigger] g[y][v] implies g[a][v] by {
            let beta = choose|beta: Seq<int>| #[trigger] derives(rs, t, seq![y], seq![v] + beta);
            lemma_first_derives_step(ast, n, p, i, v, beta);
        }
    }
    assert(first_closed(rs, t, n, g));
    assert(matrix_shape(g, ns, t));
    assert(matrix_subset(f, g));
    assert(row_subset(f[x], g[x]));
    assert(g[x][u]);
}

/// Undoing a derivation keeps "all nullable": if what a form derives is all
/// nullable, so is the form.
pub proof fn lemma_all_nullable_back(
    rs: Seq<(int, Seq<int>)>,
    t: int,
    n: Seq<bool>,
    s: Seq<int>,
    log: Seq<int>,
)
    requires
        nullable_closed(rs, n),
        leftmost_derive(rs, t, s, log) is Some,
        all_nullable(n, leftmost_derive(rs, t, s, log)->Some_0),
    ensures
        all_nullable(n, s),
    decreases log.len(),
{
    if log.len() > 0 {
        let m = leftmost_derive(rs, t, s, log.drop_last())->Some_0;
        let p = log.last();
        assert(leftmost_derive(rs, t, s, log) == leftmost_step(rs, t, m, p));
        let i = leftmost_nonterminal(m, t);
        lemma_leftmost_range(m, t);
        let w = m.take(i) + rs[p].1 + m.skip(i + 1);
        assert(leftmost_derive(rs, t, s, log) == Some(w));
        let r = rs[p].1;
        assert forall|k: int| 0 <= k < r.len() implies n[#[trigger] r[k]] by {
            assert(w[i + k] == r[k]);
        }
        assert(all_nullable(n, rs[p].1));
        assert(n[rs[p].0]);
        assert forall|k: int| 0 <= k < m.len() implies n[#[trigger] m[k]] by {
            if k < i {
                assert(w[k] == m[k]);
            } else if k > i {
                assert(w[k - 1 + r.len()] == m[k]);
            }
        }
        lemma_all_nullable_back(rs, t, n, s, log.drop_last());
    }
}

/// A symbol that derives the empty string is nullable.
pub proof fn lemma_derives_empty_nullable(ast: AstGrammar, n: Seq<bool>, x: int)
    requires
        ast.wf(),
        is_nullable_set(ast.rules(), ast.num_symbols(), n),
        0 <= x < ast.num_symbols(),
        derives(ast.rules(), ast.num_terms(), seq![x], seq![]),
    ensures
        n[x],
{
    let rs = ast.rules();
    let t = ast.num_terms();
    let log = choose|l: Seq<int>| #[trigger] leftmost_derive(rs, t, seq![x], l) == Some(
        Seq::<int>::empty(),
    );
    lemma_all_nullable_back(rs, t, n, seq![x], log);
    assert(seq![x][0] == x);
}

/// No terminal is nullable.
pub proof fn lemma_terminals_not_nullable(ast: AstGrammar, n: Seq<bool>)
    requires
        ast.wf(),
        is_nullable_set(ast.rules(), ast.num_symbols(), n),
    ensures
        forall|y: int| 0 <= y < ast.num_terms() ==> !#[trigger] n[y],
{
    let rs = ast.rules();
    ast.lemma_rules_in_range();
    let m = Seq::new(ast.num_symbols() as nat, |y: int| y >= ast.num_terms() && n[y]);
    assert forall|p: int| 0 <= p < rs.len() && all_nullable(m, (#[trigger] rs[p]).1) implies m[rs[p].0] by {
        assert(all_nullable(n, rs[p].1));
    }
    assert(nullable_closed(rs, m));
    assert(row_subset(n, m));
}

/// Undoing a derivation step keeps a terminal at the start: a terminal that
/// begins what a form derives, over nullable symbols, begins the form.
proof fn lemma_first_back(
    ast: AstGrammar,
    n: Seq<bool>,
    f: Seq<Seq<bool>>,
    s: Seq<int>,
    log: Seq<int>,
    u: int,
)
    requires
        ast.wf(),
        is_nullable_set(ast.rules(), ast.num_symbols(), n),
        is_first_sets(ast.rules(), ast.num_symbols(), ast.num_terms(), n, f),
        forall|k: int| 0 <= k < s.len() ==> 0 <= #[trigger] s[k] < ast.num_symbols(),
        0 <= u < ast.num_terms(),
        leftmost_derive(ast.rules(), ast.num_terms(), s, log) is Some,
        first_of_seq(n, f, leftmost_derive(ast.rules(), ast.num_terms(), s, log)->Some_0, u),
    ensures
        first_of_seq(n, f, s, u),
    decreases log.len(),
{
    let rs = ast.rules();
    let t = ast.num_terms();
    if log.len() > 0 {
        ast.lemma_rules_in_range();
        lemma_terminals_not_nullable(ast, n);
        lemma_derive_in_range(rs, t, ast.num_symbols(), s, log.drop_last());
        let m = leftmost_derive(rs, t, s, log.drop_last())->Some_0;
        let p = log.last();
        assert(leftmost_derive(rs, t, s, log) == leftmost_step(rs, t, m, p));
        let i = leftmost_nonterminal(m, t);
        lemma_leftmost_range(m, t);
        assert(i < m.len() && 0 <= p < rs.len() && m[i] == rs[p].0);
        let r = rs[p].1;
        let w = m.take(i) + r + m.skip(i + 1);
        assert(leftmost_derive(rs, t, s, log) == Some(w));
        let j = choose|j: int| 0 <= j < w.len() && all_nullable(n, w.take(j)) && #[trigger] f[w[j]][u];
        if i > 0 {
            assert(w[0] == m[0]);
            assert(m[0] < t);
            if j > 0 {
                assert(w.take(j)[0] == w[0]);
                assert(!n[w[0]]);
            }
            assert(m.take(0) =~= Seq::<int>::empty());
            assert(f[m[0]][u]);
        } else if j < r.len() {
            assert(w[j] == r[j]);
            assert(w.take(j) =~= r.take(j));
            assert(all_nullable(n, rs[p].1.take(j)));
            assert(first_closed(rs, t, n, f));
            assert(row_subset(f[rs[p].1[j]], f[rs[p].0]));
            assert(f[r[j]][u]);
            assert(matrix_shape(f, ast.num_symbols(), t));
            assert(0 <= r[j] < ast.num_symbols());
            assert(0 <= u < f[r[j]].len());
            assert(f[rs[p].0][u]);
            assert(m[0] == rs[p].0);
            assert(m.take(0) =~= Seq::<int>::empty());
            assert(f[m[0]][u]);
        } else {
            assert forall|k: int| 0 <= k < r.len() implies n[#[trigger] r[k]] by {
                assert(w.take(j)[k] == r[k]);
            }
            assert(all_nullable(n, rs[p].1));
            assert(n[m[0]]);
            let k = 1 + (j - r.len());
            assert(w[j] == m[k]);
            assert forall|q: int| 0 <= q < k implies n[#[trigger] m.take(k)[q]] by {
                if q > 0 {
                    assert(w.take(j)[r.len() + q - 1] == m[q]);
                }
            }
            assert(f[m[k]][u]);
        }
        lemma_first_back(ast, n, f, s, log.drop_last(), u);
    }
}

/// A terminal that begins a string a symbol derives is in its FIRST set.
pub proof fn lemma_derives_first(ast: AstGrammar, n: Seq<bool>, f: Seq<Seq<bool>>, x: int, u: int, beta: Seq<int>)
    requires
        ast.wf(),
        is_nullable_set(ast.rules(), ast.num_symbols(), n),
        is_first_sets(ast.rules(), ast.num_symbols(), ast.num_terms(), n, f),
        0 <= x < ast.num_symbols(),
        0 <= u < ast.num_terms(),
        derives(ast.rules(), ast.num_terms(), seq![x], seq![u] + beta),
    ensures
        f[x][u],
{
    let rs = ast.rules();
    let t = ast.num_terms();
    let log = choose|l: Seq<int>| #[trigger] leftmost_derive(rs, t, seq![x], l) == Some(seq![u] + beta);
    let w = seq![u] + beta;
    assert(w[0] == u);
    assert(w.take(0) =~= Seq::<int>::empty());
    assert(f[u][u]);
    assert(first_of_seq(n, f, w, u));
    assert(seq![x][0] == x);
    lemma_first_back(ast, n, f, seq![x], log, u);
    let k = choose|k: int|
        0 <= k < seq![x].len() && all_nullable(n, seq![x].take(k)) && #[trigger] f[seq![x][k]][u];
    assert(k == 0);
}

/// In `form`, terminal `u` can come after the nonterminal at `k`: the symbols
/// strictly between `k` and `l` are nullable and FIRST of the one at `l`
/// holds `u`.
pub open spec fn follows_in(
    n: Seq<bool>,
    f: Seq<Seq<bool>>,
    num_terms: int,
    form: Seq<int>,
    k: int,
    l: int,
    u: int,
) -> bool {
    &&& 0 <= k < l < form.len()
    &&& form[k] >= num_terms
    &&& all_nullable(n, form.subrange(k + 1, l))
    &&& f[form[l]][u]
}

/// Every terminal that can come after a nonterminal of `form` is in its
/// FOLLOW set.
pub open spec fn follow_respects(
    n: Seq<bool>,
    f: Seq<Seq<bool>>,
    fo: Seq<Seq<bool>>,
    num_terms: int,
    form: Seq<int>,
) -> bool {
    forall|k: int, l: int, u: int|
        0 <= u < num_terms && #[trigger] follows_in(n, f, num_terms, form, k, l, u) ==> fo[form[k]][u]
}

proof fn lemma_follow_step(
    ast: AstGrammar,
    n: Seq<bool>,
    f: Seq<Seq<bool>>,
    fo: Seq<Seq<bool>>,
    m: Seq<int>,
    p: int,
)
    requires
        ast.wf(),
        is_follow_sets(ast.rules(), ast.num_symbols(), ast.num_terms(), n, f, fo),
        matrix_shape(f, ast.num_symbols(), ast.num_terms()),
        forall|k: int| 0 <= k < m.len() ==> 0 <= #[trigger] m[k] < ast.num_symbols(),
        follow_respects(n, f, fo, ast.num_terms(), m),
        leftmost_step(ast.rules(), ast.num_terms(), m, p) is Some,
    ensures
        follow_respects(n, f, fo, ast.num_terms(), leftmost_step(ast.rules(), ast.num_terms(), m, p)->Some_0),
{
    let rs = ast.rules();
    let t = ast.num_terms();
    ast.lemma_rules_in_range();
    let i = leftmost_nonterminal(m, t);
    lemma_leftmost_range(m, t);
    assert(i < m.len() && 0 <= p < rs.len() && m[i] == rs[p].0);
    let alpha = rs[p].1;
    let a = alpha.len() as int;
    let w = m.take(i) + alpha + m.skip(i + 1);
    assert(leftmost_step(rs, t, m, p) == Some(w));
    assert forall|k: int, l: int, u: int|
        0 <= u < t && #[trigger] follows_in(n, f, t, w, k, l, u) implies fo[w[k]][u] by {
        if k < i {
            assert(w[k] == m[k]);
        } else if k < i + a {
            let x = k - i;
            assert(w[k] == alpha[x]);
            assert(follow_holds_at(rs, t, n, f, fo, p, x));
            if l < i + a {
                let y = l - i;
                assert(w[l] == alpha[y]);
                assert(alpha.subrange(x + 1, y) =~= w.subrange(k + 1, l));
                assert(row_subset(f[alpha[y]], fo[alpha[x]]));
                assert(f[alpha[y]][u]);
            } else {
                assert forall|q: int| 0 <= q < alpha.skip(x + 1).len() implies n[
                    #[trigger] alpha.skip(x + 1)[q]] by {
                    assert(alpha.skip(x + 1)[q] == w.subrange(k + 1, l)[q]);
                }
                assert(row_subset(fo[rs[p].0], fo[alpha[x]]));
                let l2 = l - a + 1;
                assert(m[l2] == w[l]);
                assert forall|q: int| 0 <= q < m.subrange(i + 1, l2).len() implies n[
                    #[trigger] m.subrange(i + 1, l2)[q]] by {
                    assert(m.subrange(i + 1, l2)[q] == w.subrange(k + 1, l)[q + i + a - k - 1]);
                }
                assert(follows_in(n, f, t, m, i, l2, u));
                assert(fo[m[i]][u]);
            }
        } else {
            let k2 = k - a + 1;
            let l2 = l - a + 1;
            assert(m[k2] == w[k]);
            assert(m[l2] == w[l]);
            assert(m.subrange(k2 + 1, l2) =~= w.subrange(k + 1, l));
            assert(follows_in(n, f, t, m, k2, l2, u));
        }
    }
}

proof fn lemma_follow_derive(
    ast: AstGrammar,
    n: Seq<bool>,
    f: Seq<Seq<bool>>,
    fo: Seq<Seq<bool>>,
    x: int,
    log: Seq<int>,
)
    requires
        ast.wf(),
        is_follow_sets(ast.rules(), ast.num_symbols(), ast.num_terms(), n, f, fo),
        matrix_shape(f, ast.num_symbols(), ast.num_terms()),
        0 <= x < ast.num_symbols(),
        leftmost_derive(ast.rules(), ast.num_terms(), seq![x], log) is Some,
    ensures
        follow_respects(
            n,
            f,
            fo,
            ast.num_terms(),
            leftmost_derive(ast.rules(), ast.num_terms(), seq![x], log)->Some_0,
        ),
    decreases log.len(),
{
    let rs = ast.rules();
    let t = ast.num_terms();
    if log.len() == 0 {
        assert forall|k: int, l: int, u: int|
            0 <= u < t && #[trigger] follows_in(n, f, t, seq![x], k, l, u) implies fo[seq![x][k]][u] by {
        }
    } else {
        lemma_follow_derive(ast, n, f, fo, x, log.drop_last());
        ast.lemma_rules_in_range();
        assert forall|k: int| 0 <= k < seq![x].len() implies 0 <= #[trigger] seq![x][k] < ast.num_symbols() by {
        }
        lemma_derive_in_range(rs, t, ast.num_symbols(), seq![x], log.drop_last());
        let m = leftmost_derive(rs, t, seq![x], log.drop_last())->Some_0;
        lemma_follow_step(ast, n, f, fo, m, log.last());
    }
}

/// A terminal that comes right after a nonterminal in a form that some
/// symbol derives is in the FOLLOW set of that nonterminal.
pub proof fn lemma_follow_complete(
    ast: AstGrammar,
    n: Seq<bool>,
    f: Seq<Seq<bool>>,
    fo: Seq<Seq<bool>>,
    x: int,
    log: Seq<int>,
    k: int,
)
    requires
        ast.wf(),
        is_nullable_set(ast.rules(), ast.num_symbols(), n),
        is_first_sets(ast.rules(), ast.num_symbols(), ast.num_terms(), n, f),
        is_follow_sets(ast.rules(), ast.num_symbols(), ast.num_terms(), n, f, fo),
        0 <= x < ast.num_symbols(),
        leftmost_derive(ast.rules(), ast.num_terms(), seq![x], log) is Some,
        ({
            let w = leftmost_derive(ast.rules(), ast.num_terms(), seq![x], log)->Some_0;
            &&& 0 <= k && k + 1 < w.len()
            &&& w[k] >= ast.num_terms()
            &&& 0 <= w[k + 1] < ast.num_terms()
        }),
    ensures
        ({
            let w = leftmost_derive(ast.rules(), ast.num_terms(), seq![x], log)->Some_0;
            fo[w[k]][w[k + 1]]
        }),
{
    let t = ast.num_terms();
    let w = leftmost_derive(ast.rules(), t, seq![x], log)->Some_0;
    lemma_follow_derive(ast, n, f, fo, x, log);
    let u = w[k + 1];
    assert(f[u][u]);
    assert(w.subrange(k + 1, k + 1) =~= Seq::<int>::empty());
    assert(follows_in(n, f, t, w, k, k + 1, u));
}

/// The table predicts every successful leftmost derivation: when the start
/// symbol derives a form `matched a rest` with `matched` terminals, and going
/// on with production `p` for `a` derives `matched` followed by a string
/// that begins with terminal `t`, then `p` is in the cell of `a` and `t`.
/// On a conflict-free table it is the cell's only production, so the driver
/// chooses what the derivation uses.
pub proof fn lemma_table_predicts(
    ast: AstGrammar,
    n: Seq<bool>,
    f: Seq<Seq<bool>>,
    fo: Seq<Seq<bool>>,
    table: Seq<Seq<Seq<int>>>,
    start: int,
    log: Seq<int>,
    matched: Seq<int>,
    a: int,
    rest: Seq<int>,
    p: int,
    log2: Seq<int>,
    v: Seq<int>,
)
    requires
        ast.wf(),
        is_nullable_set(ast.rules(), ast.num_symbols(), n),
        is_first_sets(ast.rules(), ast.num_symbols(), ast.num_terms(), n, f),
        is_follow_sets(ast.rules(), ast.num_symbols(), ast.num_terms(), n, f, fo),
        is_parse_table(ast.rules(), ast.num_terms(), ast.nonterminals@.len() as int, n, f, fo, table),
        0 <= start < ast.num_symbols(),
        leftmost_derive(ast.rules(), ast.num_terms(), seq![start], log) == Some(
            matched + seq![a] + rest,
        ),
        forall|k: int| 0 <= k < matched.len() ==> 0 <= #[trigger] matched[k] < ast.num_terms(),
        ast.num_terms() <= a < ast.num_symbols(),
        0 <= p < ast.rules().len(),
        ast.rules()[p].0 == a,
        leftmost_derive(ast.rules(), ast.num_terms(), matched + ast.rules()[p].1 + rest, log2) == Some(
            matched + v,
        ),
        v.len() > 0,
        0 <= v[0] < ast.num_terms(),
    ensures
        table[a - ast.num_terms()][v[0]].contains(p),
{
    let rs = ast.rules();
    let t = ast.num_terms();
    let ns = ast.num_symbols();
    let u = v[0];
    let alpha = rs[p].1;
    let s = alpha + rest;
    ast.lemma_rules_in_range();
    // What `alpha rest` derives is `v`.
    assert(matched + alpha + rest =~= matched + s);
    lemma_derive_strip_prefix(rs, t, matched, s, log2);
    let vv = leftmost_derive(rs, t, s, log2)->Some_0;
    assert(matched + vv == matched + v);
    assert(vv =~= (matched + vv).skip(matched.len() as int));
    assert(v =~= (matched + v).skip(matched.len() as int));
    // The symbols of the forms are in range.
    assert forall|k: int| 0 <= k < seq![start].len() implies 0 <= #[trigger] seq![start][k] < ns by {}
    lemma_derive_in_range(rs, t, ns, seq![start], log);
    let form = matched + seq![a] + rest;
    assert(leftmost_derive(rs, t, seq![start], log)->Some_0 == form);
    assert forall|k: int| 0 <= k < rest.len() implies 0 <= #[trigger] rest[k] < ns by {
        let idx = matched.len() + 1 + k;
        assert(form[idx] == rest[k]);
        assert(0 <= form[idx] < ns);
    }
    assert forall|k: int| 0 <= k < s.len() implies 0 <= #[trigger] s[k] < ns by {
        if k < alpha.len() {
            assert(s[k] == alpha[k]);
        } else {
            assert(s[k] == rest[k - alpha.len()]);
        }
    }
    // `u` begins `alpha rest`.
    assert(v.take(0) =~= Seq::<int>::empty());
    assert(f[u][u]);
    assert(first_of_seq(n, f, v, u));
    lemma_first_back(ast, n, f, s, log2, u);
    let i = choose|i: int| 0 <= i < s.len() && all_nullable(n, s.take(i)) && #[trigger] f[s[i]][u];
    if i < alpha.len() {
        assert(s.take(i) =~= alpha.take(i));
        assert(s[i] == alpha[i]);
        assert(first_of_seq(n, f, alpha, u));
    } else {
        assert forall|k: int| 0 <= k < alpha.len() implies n[#[trigger] alpha[k]] by {
            assert(s.take(i)[k] == alpha[k]);
        }
        let j = i - alpha.len();
        let mk = matched.len() as int;
        let l = mk + 1 + j;
        assert(form[mk] == a);
        assert(form[l] == s[i]);
        assert forall|q: int| 0 <= q < form.subrange(mk + 1, l).len() implies n[
            #[trigger] form.subrange(mk + 1, l)[q]] by {
            assert(form.subrange(mk + 1, l)[q] == s.take(i)[alpha.len() + q]);
        }
        assert(follows_in(n, f, t, form, matched.len() as int, l, u));
        lemma_follow_derive(ast, n, f, fo, start, log);
        assert(fo[a][u]);
    }
    assert(predicts(rs, n, f, fo, p, u));
}

/// The textbook LL(1) condition for two productions of one nonterminal:
/// their FIRST sets are disjoint; if one is nullable, the FIRST set of the
/// other is disjoint from the nonterminal's FOLLOW set; and they are not both
/// nullable unless that FOLLOW set is empty.
pub open spec fn textbook_ll1_pair(
    rules: Seq<(int, Seq<int>)>,
    num_terms: int,
    n: Seq<bool>,
    f: Seq<Seq<bool>>,
    fo: Seq<Seq<bool>>,
    p: int,
    q: int,
) -> bool {
    let a = rules[p].0;
    let alpha = rules[p].1;
    let beta = rules[q].1;
    &&& forall|t: int|
        0 <= t < num_terms ==> !(#[trigger] first_of_seq(n, f, alpha, t) && first_of_seq(n, f, beta, t))
    &&& all_nullable(n, alpha) ==> forall|t: int|
        0 <= t < num_terms ==> !(#[trigger] first_of_seq(n, f, beta, t) && fo[a][t])
    &&& all_nullable(n, beta) ==> forall|t: int|
        0 <= t < num_terms ==> !(#[trigger] first_of_seq(n, f, alpha, t) && fo[a][t])
    &&& all_nullable(n, alpha) && all_nullable(n, beta) ==> forall|t: int|
        0 <= t < num_terms ==> !#[trigger] fo[a][t]
}

/// No two productions of a nonterminal are chosen on one terminal exactly
/// when every two of them meet the textbook LL(1) condition; with
/// `lemma_conflict_detection`, a grammar meets that condition exactly when
/// its table has no conflict.
pub proof fn lemma_ll1_textbook(
    rules: Seq<(int, Seq<int>)>,
    num_terms: int,
    n: Seq<bool>,
    f: Seq<Seq<bool>>,
    fo: Seq<Seq<bool>>,
)
    ensures
        is_ll1(rules, num_terms, n, f, fo) <==> forall|p: int, q: int|
            0 <= p < q < rules.len() && rules[p].0 == rules[q].0 ==> #[trigger] textbook_ll1_pair(
                rules,
                num_terms,
                n,
                f,
                fo,
                p,
                q,
            ),
{
    if is_ll1(rules, num_terms, n, f, fo) {
        assert forall|p: int, q: int| 0 <= p < q < rules.len() && rules[p].0 == rules[q].0 implies #[trigger] textbook_ll1_pair(
            rules,
            num_terms,
            n,
            f,
            fo,
            p,
            q,
        ) by {
            let a = rules[p].0;
            let alpha = rules[p].1;
            let beta = rules[q].1;
            assert forall|t: int| 0 <= t < num_terms implies !(#[trigger] first_of_seq(n, f, alpha, t)
                && first_of_seq(n, f, beta, t)) by {
                if first_of_seq(n, f, alpha, t) && first_of_seq(n, f, beta, t) {
                    assert(predicts(rules, n, f, fo, p, t));
                    assert(predicts(rules, n, f, fo, q, t));
                }
            }
            if all_nullable(n, alpha) {
                assert forall|t: int| 0 <= t < num_terms implies !(#[trigger] first_of_seq(n, f, beta, t)
                    && fo[a][t]) by {
                    if first_of_seq(n, f, beta, t) && fo[a][t] {
                        assert(predicts(rules, n, f, fo, p, t));
                        assert(predicts(rules, n, f, fo, q, t));
                    }
                }
            }
            if all_nullable(n, beta) {
                assert forall|t: int| 0 <= t < num_terms implies !(#[trigger] first_of_seq(n, f, alpha, t)
                    && fo[a][t]) by {
                    if first_of_seq(n, f, alpha, t) && fo[a][t] {
                        assert(predicts(rules, n, f, fo, p, t));
                        assert(predicts(rules, n, f, fo, q, t));
                    }
                }
            }
            if all_nullable(n, alpha) && all_nullable(n, beta) {
                assert forall|t: int| 0 <= t < num_terms implies !#[trigger] fo[a][t] by {
                    if fo[a][t] {
                        assert(predicts(rules, n, f, fo, p, t));
                        assert(predicts(rules, n, f, fo, q, t));
                    }
                }
            }
        }
    }
    if forall|p: int, q: int|
        0 <= p < q < rules.len() && rules[p].0 == rules[q].0 ==> #[trigger] textbook_ll1_pair(
            rules,
            num_terms,
            n,
            f,
            fo,
            p,
            q,
        ) {
        assert forall|p: int, q: int, t: int|
            0 <= p < q < rules.len() && rules[p].0 == rules[q].0 && 0 <= t < num_terms && #[trigger] predicts(
                rules,
                n,
                f,
                fo,
                p,
                t,
            ) implies !#[trigger] predicts(rules, n, f, fo, q, t) by {
            assert(textbook_ll1_pair(rules, num_terms, n, f, fo, p, q));
        }
    }
}

proof fn lemma_sorted_unique(a: Seq<int>, b: Seq<int>)
    requires
        strictly_increasing(a),
        strictly_increasing(b),
        forall|x: int| a.contains(x) <==> b.contains(x),
    ensures
        a == b,
    decreases a.len() + b.len(),
{
    if a.len() == 0 || b.len() == 0 {
        if a.len() > 0 {
            assert(a.contains(a[0]));
        }
        if b.len() > 0 {
            assert(b.contains(b[0]));
        }
        assert(a =~= b);
    } else {
        assert(a.contains(a[0]));
        assert(b.contains(b[0]));
        let i = choose|i: int| 0 <= i < b.len() && b[i] == a[0];
        let j = choose|j: int| 0 <= j < a.len() && a[j] == b[0];
        assert(a[0] == b[0]) by {
            if i > 0 {
                assert(b[0] < b[i]);
                assert(j == 0 || a[0] < a[j]);
            }
        }
        let a1 = a.skip(1);
        let b1 = b.skip(1);
        assert forall|x: int| a1.contains(x) <==> b1.contains(x) by {
            if a1.contains(x) {
                let k = choose|k: int| 0 <= k < a1.len() && a1[k] == x;
                assert(a[k + 1] == x && a[0] < x);
                assert(b.contains(x));
                let m = choose|m: int| 0 <= m < b.len() && b[m] == x;
                assert(m > 0);
                assert(b1[m - 1] == x);
            }
            if b1.contains(x) {
                let k = choose|k: int| 0 <= k < b1.len() && b1[k] == x;
                assert(b[k + 1] == x && b[0] < x);
                assert(a.contains(x));
                let m = choose|m: int| 0 <= m < a.len() && a[m] == x;
                assert(m > 0);
                assert(a1[m - 1] == x);
            }
        }
        lemma_sorted_unique(a1, b1);
        assert(a =~= seq![a[0]] + a1);
        assert(b =~= seq![b[0]] + b1);
    }
}

/// The analyses and the table are unique: two nullable sets, FIRST sets,
/// FOLLOW sets or parse tables that meet their contracts are equal, so the
/// conflict that `find_conflict` reports for a grammar is determined by the
/// grammar alone.
pub proof fn lemma_analyses_unique(
    rules: Seq<(int, Seq<int>)>,
    num_symbols: int,
    num_terms: int,
    num_nonterms: int,
    n1: Seq<bool>,
    n2: Seq<bool>,
    f1: Seq<Seq<bool>>,
    f2: Seq<Seq<bool>>,
    fo1: Seq<Seq<bool>>,
    fo2: Seq<Seq<bool>>,
    t1: Seq<Seq<Seq<int>>>,
    t2: Seq<Seq<Seq<int>>>,
)
    requires
        is_nullable_set(rules, num_symbols, n1),
        is_nullable_set(rules, num_symbols, n2),
        is_first_sets(rules, num_symbols, num_terms, n1, f1),
        is_first_sets(rules, num_symbols, num_terms, n2, f2),
        is_follow_sets(rules, num_symbols, num_terms, n1, f1, fo1),
        is_follow_sets(rules, num_symbols, num_terms, n2, f2, fo2),
        is_parse_table(rules, num_terms, num_nonterms, n1, f1, fo1, t1),
        is_parse_table(rules, num_terms, num_nonterms, n2, f2, fo2, t2),
    ensures
        n1 == n2,
        f1 == f2,
        fo1 == fo2,
        t1 == t2,
{
    assert(row_subset(n1, n2) && row_subset(n2, n1));
    assert(n1 =~= n2);
    assert(matrix_subset(f1, f2) && matrix_subset(f2, f1));
    assert forall|x: int| 0 <= x < f1.len() implies #[trigger] f1[x] == f2[x] by {
        assert(row_subset(f1[x], f2[x]) && row_subset(f2[x], f1[x]));
        assert(f1[x] =~= f2[x]);
    }
    assert(f1 =~= f2);
    assert(matrix_subset(fo1, fo2) && matrix_subset(fo2, fo1));
    assert forall|x: int| 0 <= x < fo1.len() implies #[trigger] fo1[x] == fo2[x] by {
        assert(row_subset(fo1[x], fo2[x]) && row_subset(fo2[x], fo1[x]));
        assert(fo1[x] =~= fo2[x]);
    }
    assert(fo1 =~= fo2);
    assert forall|a: int| 0 <= a < num_nonterms implies #[trigger] t1[a] == t2[a] by {
        assert forall|t: int| 0 <= t < num_terms implies #[trigger] t1[a][t] == t2[a][t] by {
            assert forall|p: int| t1[a][t].contains(p) <==> t2[a][t].contains(p) by {}
            lemma_sorted_unique(t1[a][t], t2[a][t]);
        }
        assert(t1[a] =~= t2[a]);
    }
    assert(t1 =~= t2);
}

/// A table has at most one first conflict.
pub proof fn lemma_first_conflict_unique(table: Seq<Seq<Seq<int>>>, c1: LlConflict, c2: LlConflict)
    requires
        first_conflict(table, c1),
        first_conflict(table, c2),
    ensures
        c1.nonterminal == c2.nonterminal,
        c1.lookahead == c2.lookahead,
        c1.productions@.map_values(|p: usize| p as int) == c2.productions@.map_values(
            |p: usize| p as int,
        ),
{
    let a1 = c1.nonterminal as int;
    let a2 = c2.nonterminal as int;
    let u1 = c1.lookahead as int;
    let u2 = c2.lookahead as int;
    if a1 < a2 || (a1 == a2 && u1 < u2) {
        assert(table[a1][u1].len() <= 1);
    }
    if a2 < a1 || (a1 == a2 && u2 < u1) {
        assert(table[a2][u2].len() <= 1);
    }
}

/// Nonterminal `b` is reachable: some form that the start derives holds it.
pub open spec fn reachable(rules: Seq<(int, Seq<int>)>, start: int, b: int) -> bool {
    exists|form: Seq<int>, k: int|
        #[trigger] reaches(rules, seq![start], form) && 0 <= k < form.len() && #[trigger] form[k] == b
}

/// Terminal `u` comes right after `b` in some form that the start derives.
pub open spec fn follows_from_start(rules: Seq<(int, Seq<int>)>, start: int, b: int, u: int) -> bool {
    exists|form: Seq<int>, k: int|
        #[trigger] reaches(rules, seq![start], form) && 0 <= k && k + 1 < form.len() && #[trigger] form[k]
            == b && form[k + 1] == u
}

/// A nullable sequence derives the empty string.
proof fn lemma_nullable_seq_reaches_empty(ast: AstGrammar, n: Seq<bool>, s: Seq<int>)
    requires
        ast.wf(),
        is_nullable_set(ast.rules(), ast.num_symbols(), n),
        forall|k: int| 0 <= k < s.len() ==> 0 <= #[trigger] s[k] < ast.num_symbols() && n[s[k]],
    ensures
        reaches(ast.rules(), s, Seq::<int>::empty()),
{
    assert forall|k: int| 0 <= k < s.len() implies derives(ast.rules(), ast.num_terms(), seq![#[trigger] s[k]], seq![]) by {
        lemma_nullable_derives_empty(ast, n, s[k]);
    }
    lemma_seq_derives_empty(ast.rules(), ast.num_terms(), s);
    let l = choose|l: Seq<int>| #[trigger] leftmost_derive(ast.rules(), ast.num_terms(), s, l) == Some(
        Seq::<int>::empty(),
    );
    lemma_leftmost_reaches(ast.rules(), ast.num_terms(), s, l);
}

#[verifier::rlimit(80)]
proof fn lemma_follow_sound_tail(ast: AstGrammar, n: Seq<bool>, start: int, p: int, i: int, v: int)
    requires
        ast.wf(),
        is_nullable_set(ast.rules(), ast.num_symbols(), n),
        0 <= p < ast.rules().len(),
        0 <= i < ast.rules()[p].1.len(),
        all_nullable(n, ast.rules()[p].1.skip(i + 1)),
        follows_from_start(ast.rules(), start, ast.rules()[p].0, v),
    ensures
        follows_from_start(ast.rules(), start, ast.rules()[p].1[i], v),
{
    let rs = ast.rules();
    let ns = ast.num_symbols();
    let a = rs[p].0;
    let alpha = rs[p].1;
    let x = alpha[i];
    ast.lemma_rules_in_range();
    let (form, k) = choose|form: Seq<int>, k: int|
        #[trigger] reaches(rs, seq![start], form) && 0 <= k && k + 1 < form.len()
            && #[trigger] form[k] == a && form[k + 1] == v;
    lemma_reaches_step(rs, form, k, p);
    let f1 = form.take(k) + alpha + form.skip(k + 1);
    lemma_reaches_trans(rs, seq![start], form, f1);
    let pre = form.take(k) + alpha.take(i + 1);
    let post = form.skip(k + 1);
    let tail = alpha.skip(i + 1);
    assert(f1 =~= pre + tail + post);
    assert forall|z: int| 0 <= z < tail.len() implies 0 <= #[trigger] tail[z] < ns && n[tail[z]] by {
        assert(tail[z] == alpha[i + 1 + z]);
    }
    lemma_nullable_seq_reaches_empty(ast, n, tail);
    lemma_reaches_context(rs, pre, tail, post, Seq::<int>::empty());
    let f2 = pre + post;
    assert(pre + Seq::<int>::empty() + post =~= f2);
    lemma_reaches_trans(rs, seq![start], f1, f2);
    assert(f2[k + i] == x);
    assert(f2[k + i + 1] == v);
}

proof fn lemma_follow_sound_next(
    ast: AstGrammar,
    n: Seq<bool>,
    f: Seq<Seq<bool>>,
    start: int,
    p: int,
    i: int,
    j: int,
    v: int,
)
    requires
        ast.wf(),
        is_nullable_set(ast.rules(), ast.num_symbols(), n),
        is_first_sets(ast.rules(), ast.num_symbols(), ast.num_terms(), n, f),
        0 <= p < ast.rules().len(),
        0 <= i < j < ast.rules()[p].1.len(),
        all_nullable(n, ast.rules()[p].1.subrange(i + 1, j)),
        reachable(ast.rules(), start, ast.rules()[p].0),
        0 <= v < ast.num_terms(),
        f[ast.rules()[p].1[j]][v],
    ensures
        follows_from_start(ast.rules(), start, ast.rules()[p].1[i], v),
{
    lemma_follow_sound_adjacent(ast, n, start, p, i, j);
    ast.lemma_rules_in_range();
    lemma_follow_sound_first(ast, n, f, start, ast.rules()[p].1[i], ast.rules()[p].1[j], v);
}

/// After a nullable stretch, the symbol at `j` comes right after the one at
/// `i` in some derived form.
#[verifier::rlimit(80)]
proof fn lemma_follow_sound_adjacent(ast: AstGrammar, n: Seq<bool>, start: int, p: int, i: int, j: int)
    requires
        ast.wf(),
        is_nullable_set(ast.rules(), ast.num_symbols(), n),
        0 <= p < ast.rules().len(),
        0 <= i < j < ast.rules()[p].1.len(),
        all_nullable(n, ast.rules()[p].1.subrange(i + 1, j)),
        reachable(ast.rules(), start, ast.rules()[p].0),
    ensures
        follows_from_start(ast.rules(), start, ast.rules()[p].1[i], ast.rules()[p].1[j]),
{
    let rs = ast.rules();
    let ns = ast.num_symbols();
    let a = rs[p].0;
    let alpha = rs[p].1;
    ast.lemma_rules_in_range();
    let (form, k) = choose|form: Seq<int>, k: int|
        #[trigger] reaches(rs, seq![start], form) && 0 <= k < form.len() && #[trigger] form[k] == a;
    lemma_reaches_step(rs, form, k, p);
    let f1 = form.take(k) + alpha + form.skip(k + 1);
    lemma_reaches_trans(rs, seq![start], form, f1);
    let pre = form.take(k) + alpha.take(i + 1);
    let mid = alpha.subrange(i + 1, j);
    let post = alpha.skip(j) + form.skip(k + 1);
    assert(f1 =~= pre + mid + post);
    assert forall|z: int| 0 <= z < mid.len() implies 0 <= #[trigger] mid[z] < ns && n[mid[z]] by {
        assert(mid[z] == alpha[i + 1 + z]);
    }
    lemma_nullable_seq_reaches_empty(ast, n, mid);
    lemma_reaches_context(rs, pre, mid, post, Seq::<int>::empty());
    let f2 = pre + post;
    assert(pre + Seq::<int>::empty() + post =~= f2);
    lemma_reaches_trans(rs, seq![start], f1, f2);
    assert(f2[k + i] == alpha[i]);
    assert(f2[k + i + 1] == alpha[j]);
}

/// What a symbol begins with can come right after what it comes right after.
proof fn lemma_follow_sound_first(
    ast: AstGrammar,
    n: Seq<bool>,
    f: Seq<Seq<bool>>,
    start: int,
    x: int,
    y: int,
    v: int,
)
    requires
        ast.wf(),
        is_nullable_set(ast.rules(), ast.num_symbols(), n),
        is_first_sets(ast.rules(), ast.num_symbols(), ast.num_terms(), n, f),
        follows_from_start(ast.rules(), start, x, y),
        0 <= y < ast.num_symbols(),
        0 <= v < ast.num_terms(),
        f[y][v],
    ensures
        follows_from_start(ast.rules(), start, x, v),
{
    let rs = ast.rules();
    let t = ast.num_terms();
    lemma_first_derives(ast, n, f, y, v);
    let beta = choose|beta: Seq<int>| derives(rs, t, seq![y], seq![v] + beta);
    let l = choose|l: Seq<int>| #[trigger] leftmost_derive(rs, t, seq![y], l) == Some(seq![v] + beta);
    lemma_leftmost_reaches(rs, t, seq![y], l);
    lemma_adjacent_replace(rs, start, x, y, seq![v] + beta);
}

/// Rewriting the right one of two adjacent symbols keeps its first symbol
/// adjacent.
proof fn lemma_adjacent_replace(rs: Seq<(int, Seq<int>)>, start: int, x: int, y: int, w: Seq<int>)
    requires
        follows_from_start(rs, start, x, y),
        reaches(rs, seq![y], w),
        w.len() > 0,
    ensures
        follows_from_start(rs, start, x, w[0]),
{
    let (form, k) = choose|form: Seq<int>, k: int|
        #[trigger] reaches(rs, seq![start], form) && 0 <= k && k + 1 < form.len()
            && #[trigger] form[k] == x && form[k + 1] == y;
    let pre = form.take(k + 1);
    let post = form.skip(k + 2);
    assert(form =~= pre + seq![y] + post);
    lemma_reaches_context(rs, pre, seq![y], post, w);
    let f3 = pre + w + post;
    lemma_reaches_trans(rs, seq![start], form, f3);
    assert(f3[k] == x);
    assert(f3[k + 1] == w[0]);
}

/// In a grammar whose nonterminals are all reachable, every terminal in the
/// FOLLOW set of a nonterminal comes right after it in some form that the
/// start derives.
pub proof fn lemma_follow_sound(
    ast: AstGrammar,
    n: Seq<bool>,
    f: Seq<Seq<bool>>,
    fo: Seq<Seq<bool>>,
    start: int,
    b: int,
    u: int,
)
    requires
        ast.wf(),
        is_nullable_set(ast.rules(), ast.num_symbols(), n),
        is_first_sets(ast.rules(), ast.num_symbols(), ast.num_terms(), n, f),
        is_follow_sets(ast.rules(), ast.num_symbols(), ast.num_terms(), n, f, fo),
        forall|a: int| ast.num_terms() <= a < ast.num_symbols() ==> #[trigger] reachable(ast.rules(), start, a),
        ast.num_terms() <= b < ast.num_symbols(),
        0 <= u < ast.num_terms(),
        fo[b][u],
    ensures
        follows_from_start(ast.rules(), start, b, u),
{
    let rs = ast.rules();
    let t = ast.num_terms();
    let ns = ast.num_symbols();
    ast.lemma_rules_in_range();
    let g = Seq::new(ns as nat, |x: int| Seq::new(t as nat, |v: int| follows_from_start(rs, start, x, v)));
    assert forall|p: int, i: int| 0 <= p < rs.len() && 0 <= i < rs[p].1.len() implies #[trigger] follow_holds_at(
        rs,
        t,
        n,
        f,
        g,
        p,
        i,
    ) by {
        let a = rs[p].0;
        let alpha = rs[p].1;
        let x = alpha[i];
        if x >= t {
            // Rewrite `a` in a form where it stands at `k`.
            if all_nullable(n, alpha.skip(i + 1)) {
                assert forall|v: int| 0 <= v < g[a].len() && #[trigger] g[a][v] implies g[x][v] by {
                    lemma_follow_sound_tail(ast, n, start, p, i, v);
                }
            }
            assert forall|j: int| i < j < alpha.len() && all_nullable(n, alpha.subrange(i + 1, j)) implies row_subset(
                f[#[trigger] alpha[j]],
                g[x],
            ) by {
                let y = alpha[j];
                assert forall|v: int| 0 <= v < f[y].len() && #[trigger] f[y][v] implies g[x][v] by {
                    assert(reachable(rs, start, a));
                    lemma_follow_sound_next(ast, n, f, start, p, i, j, v);
                }
            }
        }
    }
    assert(follow_closed(rs, t, n, f, g));
    assert(matrix_shape(g, ns, t));
    assert(matrix_subset(fo, g));
    assert(row_subset(fo[b], g[b]));
    assert(g[b][u]);
}
} // verus!

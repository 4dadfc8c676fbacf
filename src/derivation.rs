//! Leftmost derivations over resolved productions.
use vstd::prelude::*;

verus! {

/// The position of the leftmost nonterminal of `form`; its length if there
/// is none.
pub open spec fn leftmost_nonterminal(form: Seq<int>, num_terms: int) -> int
    decreases form.len(),
{
    if form.len() == 0 {
        0
    } else if form[0] >= num_terms {
        0
    } else {
        1 + leftmost_nonterminal(form.skip(1), num_terms)
    }
}

/// Rewrites the leftmost nonterminal of `form` with the right-hand side of
/// production `p`, when that nonterminal is `p`'s.
pub open spec fn leftmost_step(rs: Seq<(int, Seq<int>)>, num_terms: int, form: Seq<int>, p: int) -> Option<Seq<int>> {
    let i = leftmost_nonterminal(form, num_terms);
    if i < form.len() && 0 <= p < rs.len() && form[i] == rs[p].0 {
        Some(form.take(i) + rs[p].1 + form.skip(i + 1))
    } else {
        None
    }
}

/// The sentential form reached from `form` by the leftmost derivation that
/// uses the productions of `log` in order.
pub open spec fn leftmost_derive(rs: Seq<(int, Seq<int>)>, num_terms: int, form: Seq<int>, log: Seq<int>) -> Option<Seq<int>>
    decreases log.len(),
{
    if log.len() == 0 {
        Some(form)
    } else {
        match leftmost_derive(rs, num_terms, form, log.drop_last()) {
            Some(m) => leftmost_step(rs, num_terms, m, log.last()),
            None => None,
        }
    }
}

pub proof fn lemma_leftmost_range(form: Seq<int>, num_terms: int)
    ensures
        0 <= leftmost_nonterminal(form, num_terms) <= form.len(),
        leftmost_nonterminal(form, num_terms) < form.len() ==> form[leftmost_nonterminal(
            form,
            num_terms,
        )] >= num_terms,
        forall|k: int| 0 <= k < leftmost_nonterminal(form, num_terms) ==> #[trigger] form[k] < num_terms,
    decreases form.len(),
{
    if form.len() > 0 && form[0] < num_terms {
        lemma_leftmost_range(form.skip(1), num_terms);
        let i = leftmost_nonterminal(form.skip(1), num_terms);
        if i < form.len() - 1 {
            assert(form.skip(1)[i] == form[i + 1]);
        }
        assert forall|k: int| 0 <= k < leftmost_nonterminal(form, num_terms) implies #[trigger] form[k]
            < num_terms by {
            if k > 0 {
                assert(form.skip(1)[k - 1] == form[k]);
            }
        }
    }
}

/// `form` derives `target` by a leftmost derivation.
pub open spec fn derives(rs: Seq<(int, Seq<int>)>, num_terms: int, form: Seq<int>, target: Seq<int>) -> bool {
    exists|log: Seq<int>| #[trigger] leftmost_derive(rs, num_terms, form, log) == Some(target)
}

/// Deriving by `l1` and then by `l2` is deriving by `l1 + l2`.
pub proof fn lemma_derive_concat_logs(
    rs: Seq<(int, Seq<int>)>,
    num_terms: int,
    form: Seq<int>,
    l1: Seq<int>,
    l2: Seq<int>,
)
    ensures
        leftmost_derive(rs, num_terms, form, l1 + l2) == match leftmost_derive(rs, num_terms, form, l1) {
            Some(m) => leftmost_derive(rs, num_terms, m, l2),
            None => None,
        },
    decreases l2.len(),
{
    if l2.len() == 0 {
        assert(l1 + l2 =~= l1);
    } else {
        assert((l1 + l2).drop_last() =~= l1 + l2.drop_last());
        assert((l1 + l2).last() == l2.last());
        lemma_derive_concat_logs(rs, num_terms, form, l1, l2.drop_last());
    }
}

proof fn lemma_leftmost_append(m: Seq<int>, tail: Seq<int>, num_terms: int)
    requires
        leftmost_nonterminal(m, num_terms) < m.len(),
    ensures
        leftmost_nonterminal(m + tail, num_terms) == leftmost_nonterminal(m, num_terms),
    decreases m.len(),
{
    if m[0] < num_terms {
        assert((m + tail).skip(1) =~= m.skip(1) + tail);
        lemma_leftmost_append(m.skip(1), tail, num_terms);
    }
    assert((m + tail)[0] == m[0]);
}

/// What a form derives, it derives with anything after it.
pub proof fn lemma_derive_suffix(
    rs: Seq<(int, Seq<int>)>,
    num_terms: int,
    form: Seq<int>,
    tail: Seq<int>,
    log: Seq<int>,
)
    requires
        leftmost_derive(rs, num_terms, form, log) is Some,
    ensures
        leftmost_derive(rs, num_terms, form + tail, log) == Some(
            leftmost_derive(rs, num_terms, form, log)->Some_0 + tail,
        ),
    decreases log.len(),
{
    if log.len() > 0 {
        let prev = leftmost_derive(rs, num_terms, form, log.drop_last());
        assert(prev is Some);
        lemma_derive_suffix(rs, num_terms, form, tail, log.drop_last());
        let m = prev->Some_0;
        let p = log.last();
        assert(leftmost_derive(rs, num_terms, form, log) == leftmost_step(rs, num_terms, m, p));
        let i = leftmost_nonterminal(m, num_terms);
        lemma_leftmost_range(m, num_terms);
        assert(i < m.len() && 0 <= p < rs.len() && m[i] == rs[p].0);
        lemma_leftmost_append(m, tail, num_terms);
        assert((m + tail)[i] == m[i]);
        assert((m + tail).take(i) + rs[p].1 + (m + tail).skip(i + 1) =~= (m.take(i) + rs[p].1
            + m.skip(i + 1)) + tail);
    }
}

/// A nonterminal derives the right-hand side of any of its productions.
pub proof fn lemma_derive_production(rs: Seq<(int, Seq<int>)>, num_terms: int, p: int)
    requires
        0 <= p < rs.len(),
        rs[p].0 >= num_terms,
    ensures
        leftmost_derive(rs, num_terms, seq![rs[p].0], seq![p]) == Some(rs[p].1),
{
    let f = seq![rs[p].0];
    assert(seq![p].drop_last() =~= Seq::<int>::empty());
    assert(seq![p].last() == p);
    assert(leftmost_derive(rs, num_terms, f, Seq::<int>::empty()) == Some(f));
    assert(f[0] == rs[p].0);
    assert(leftmost_nonterminal(f, num_terms) == 0);
    assert(f.take(0) + rs[p].1 + f.skip(1) =~= rs[p].1);
    assert(leftmost_step(rs, num_terms, f, p) == Some(rs[p].1));
}

/// A sequence of symbols that each derive the empty string derives it.
pub proof fn lemma_seq_derives_empty(rs: Seq<(int, Seq<int>)>, num_terms: int, s: Seq<int>)
    requires
        forall|k: int| 0 <= k < s.len() ==> derives(rs, num_terms, seq![#[trigger] s[k]], seq![]),
    ensures
        derives(rs, num_terms, s, seq![]),
    decreases s.len(),
{
    if s.len() == 0 {
        assert(leftmost_derive(rs, num_terms, s, seq![]) == Some(s));
        assert(s =~= Seq::<int>::empty());
    } else {
        let rest = s.skip(1);
        assert forall|k: int| 0 <= k < rest.len() implies derives(
            rs,
            num_terms,
            seq![#[trigger] rest[k]],
            seq![],
        ) by {
            assert(rest[k] == s[k + 1]);
        }
        lemma_seq_derives_empty(rs, num_terms, rest);
        assert(derives(rs, num_terms, seq![s[0]], seq![]));
        let l1 = choose|l: Seq<int>| #[trigger] leftmost_derive(rs, num_terms, seq![s[0]], l) == Some(
            Seq::<int>::empty(),
        );
        let l2 = choose|l: Seq<int>| #[trigger] leftmost_derive(rs, num_terms, rest, l) == Some(
            Seq::<int>::empty(),
        );
        lemma_derive_suffix(rs, num_terms, seq![s[0]], rest, l1);
        assert(seq![s[0]] + rest =~= s);
        assert(Seq::<int>::empty() + rest =~= rest);
        lemma_derive_concat_logs(rs, num_terms, s, l1, l2);
        assert(leftmost_derive(rs, num_terms, s, l1 + l2) == Some(Seq::<int>::empty()));
    }
}

/// Derivations keep symbol numbers in range.
pub proof fn lemma_derive_in_range(
    rs: Seq<(int, Seq<int>)>,
    num_terms: int,
    num_symbols: int,
    form: Seq<int>,
    log: Seq<int>,
)
    requires
        forall|p: int, i: int|
            0 <= p < rs.len() && 0 <= i < rs[p].1.len() ==> 0 <= #[trigger] rs[p].1[i]
                < num_symbols,
        forall|k: int| 0 <= k < form.len() ==> 0 <= #[trigger] form[k] < num_symbols,
        leftmost_derive(rs, num_terms, form, log) is Some,
    ensures
        forall|k: int|
            0 <= k < leftmost_derive(rs, num_terms, form, log)->Some_0.len() ==> 0
                <= #[trigger] leftmost_derive(rs, num_terms, form, log)->Some_0[k] < num_symbols,
    decreases log.len(),
{
    if log.len() > 0 {
        lemma_derive_in_range(rs, num_terms, num_symbols, form, log.drop_last());
        let m = leftmost_derive(rs, num_terms, form, log.drop_last())->Some_0;
        let p = log.last();
        let i = leftmost_nonterminal(m, num_terms);
        lemma_leftmost_range(m, num_terms);
        let w = m.take(i) + rs[p].1 + m.skip(i + 1);
        assert(leftmost_derive(rs, num_terms, form, log) == Some(w));
        assert forall|k: int| 0 <= k < w.len() implies 0 <= #[trigger] w[k] < num_symbols by {
            if k < i {
                assert(w[k] == m[k]);
            } else if k < i + rs[p].1.len() {
                assert(w[k] == rs[p].1[k - i]);
            } else {
                assert(w[k] == m[k - rs[p].1.len() + 1]);
            }
        }
    }
}

pub proof fn lemma_leftmost_prepend(w: Seq<int>, m: Seq<int>, num_terms: int)
    requires
        forall|k: int| 0 <= k < w.len() ==> #[trigger] w[k] < num_terms,
    ensures
        leftmost_nonterminal(w + m, num_terms) == w.len() + leftmost_nonterminal(m, num_terms),
    decreases w.len(),
{
    if w.len() > 0 {
        assert((w + m).skip(1) =~= w.skip(1) + m);
        assert((w + m)[0] == w[0]);
        lemma_leftmost_prepend(w.skip(1), m, num_terms);
    } else {
        assert(w + m =~= m);
    }
}

/// A leftmost derivation leaves a prefix of terminals alone.
pub proof fn lemma_derive_strip_prefix(
    rs: Seq<(int, Seq<int>)>,
    num_terms: int,
    prefix: Seq<int>,
    form: Seq<int>,
    log: Seq<int>,
)
    requires
        forall|k: int| 0 <= k < prefix.len() ==> #[trigger] prefix[k] < num_terms,
        leftmost_derive(rs, num_terms, prefix + form, log) is Some,
    ensures
        leftmost_derive(rs, num_terms, form, log) is Some,
        leftmost_derive(rs, num_terms, prefix + form, log)->Some_0 == prefix + leftmost_derive(
            rs,
            num_terms,
            form,
            log,
        )->Some_0,
    decreases log.len(),
{
    if log.len() > 0 {
        lemma_derive_strip_prefix(rs, num_terms, prefix, form, log.drop_last());
        let m = leftmost_derive(rs, num_terms, form, log.drop_last())->Some_0;
        let p = log.last();
        let pm = prefix + m;
        assert(leftmost_derive(rs, num_terms, prefix + form, log) == leftmost_step(rs, num_terms, pm, p));
        lemma_leftmost_prepend(prefix, m, num_terms);
        lemma_leftmost_range(m, num_terms);
        let i = leftmost_nonterminal(m, num_terms);
        let j = prefix.len() + i;
        assert(leftmost_nonterminal(pm, num_terms) == j);
        assert(j < pm.len());
        assert(pm[j] == m[i]);
        assert(pm.take(j) + rs[p].1 + pm.skip(j + 1) =~= prefix + (m.take(i) + rs[p].1 + m.skip(
            i + 1,
        )));
    } else {
        assert(leftmost_derive(rs, num_terms, form, log) == Some(form));
    }
}

/// A leftmost derivation can run after a prefix of terminals.
pub proof fn lemma_derive_add_prefix(
    rs: Seq<(int, Seq<int>)>,
    num_terms: int,
    prefix: Seq<int>,
    form: Seq<int>,
    log: Seq<int>,
)
    requires
        forall|k: int| 0 <= k < prefix.len() ==> #[trigger] prefix[k] < num_terms,
        leftmost_derive(rs, num_terms, form, log) is Some,
    ensures
        leftmost_derive(rs, num_terms, prefix + form, log) == Some(
            prefix + leftmost_derive(rs, num_terms, form, log)->Some_0,
        ),
    decreases log.len(),
{
    if log.len() > 0 {
        let prev = leftmost_derive(rs, num_terms, form, log.drop_last());
        assert(prev is Some);
        lemma_derive_add_prefix(rs, num_terms, prefix, form, log.drop_last());
        let m = prev->Some_0;
        let p = log.last();
        assert(leftmost_derive(rs, num_terms, form, log) == leftmost_step(rs, num_terms, m, p));
        let i = leftmost_nonterminal(m, num_terms);
        lemma_leftmost_range(m, num_terms);
        assert(i < m.len() && 0 <= p < rs.len() && m[i] == rs[p].0);
        let pm = prefix + m;
        lemma_leftmost_prepend(prefix, m, num_terms);
        let j = prefix.len() + i;
        assert(pm[j] == m[i]);
        assert(pm.take(j) + rs[p].1 + pm.skip(j + 1) =~= prefix + (m.take(i) + rs[p].1 + m.skip(
            i + 1,
        )));
        assert(leftmost_derive(rs, num_terms, prefix + form, log) == leftmost_step(rs, num_terms, pm, p));
    } else {
        assert(leftmost_derive(rs, num_terms, prefix + form, log) == Some(prefix + form));
    }
}

/// Rewrites the nonterminal at position `i` of `form` with the right-hand
/// side of production `p`, when it is `p`'s nonterminal.
pub open spec fn rewrite_at(rs: Seq<(int, Seq<int>)>, form: Seq<int>, i: int, p: int) -> Option<Seq<int>> {
    if 0 <= i < form.len() && 0 <= p < rs.len() && form[i] == rs[p].0 {
        Some(form.take(i) + rs[p].1 + form.skip(i + 1))
    } else {
        None
    }
}

/// The form reached by rewriting at the given positions with the given
/// productions, in order: a derivation in any order.
pub open spec fn rewrite(rs: Seq<(int, Seq<int>)>, form: Seq<int>, steps: Seq<(int, int)>) -> Option<Seq<int>>
    decreases steps.len(),
{
    if steps.len() == 0 {
        Some(form)
    } else {
        match rewrite(rs, form, steps.drop_last()) {
            Some(m) => rewrite_at(rs, m, steps.last().0, steps.last().1),
            None => None,
        }
    }
}

/// `form` derives `target` in some order.
pub open spec fn reaches(rs: Seq<(int, Seq<int>)>, form: Seq<int>, target: Seq<int>) -> bool {
    exists|steps: Seq<(int, int)>| #[trigger] rewrite(rs, form, steps) == Some(target)
}

pub proof fn lemma_rewrite_concat(
    rs: Seq<(int, Seq<int>)>,
    form: Seq<int>,
    s1: Seq<(int, int)>,
    s2: Seq<(int, int)>,
)
    ensures
        rewrite(rs, form, s1 + s2) == match rewrite(rs, form, s1) {
            Some(m) => rewrite(rs, m, s2),
            None => None,
        },
    decreases s2.len(),
{
    if s2.len() == 0 {
        assert(s1 + s2 =~= s1);
    } else {
        assert((s1 + s2).drop_last() =~= s1 + s2.drop_last());
        assert((s1 + s2).last() == s2.last());
        lemma_rewrite_concat(rs, form, s1, s2.drop_last());
    }
}

/// The steps moved right by `d` positions.
pub open spec fn shifted(steps: Seq<(int, int)>, d: int) -> Seq<(int, int)> {
    steps.map_values(|s: (int, int)| (s.0 + d, s.1))
}

/// A derivation runs the same inside a context.
pub proof fn lemma_rewrite_in_context(
    rs: Seq<(int, Seq<int>)>,
    pre: Seq<int>,
    form: Seq<int>,
    post: Seq<int>,
    steps: Seq<(int, int)>,
)
    requires
        rewrite(rs, form, steps) is Some,
    ensures
        rewrite(rs, pre + form + post, shifted(steps, pre.len() as int)) == Some(
            pre + rewrite(rs, form, steps)->Some_0 + post,
        ),
    decreases steps.len(),
{
    let sh = shifted(steps, pre.len() as int);
    if steps.len() == 0 {
        assert(sh =~= Seq::<(int, int)>::empty());
    } else {
        let prev = rewrite(rs, form, steps.drop_last());
        assert(prev is Some);
        lemma_rewrite_in_context(rs, pre, form, post, steps.drop_last());
        assert(sh.drop_last() =~= shifted(steps.drop_last(), pre.len() as int));
        let m = prev->Some_0;
        let (i, p) = steps.last();
        assert(sh.last() == (i + pre.len(), p));
        let big = pre + m + post;
        assert(rewrite_at(rs, m, i, p) is Some);
        let j = i + pre.len();
        assert(big[j] == m[i]);
        assert(big.take(j) + rs[p].1 + big.skip(j + 1) =~= pre + (m.take(i) + rs[p].1 + m.skip(
            i + 1,
        )) + post);
    }
}

/// A leftmost derivation is a derivation.
pub proof fn lemma_leftmost_reaches(rs: Seq<(int, Seq<int>)>, num_terms: int, form: Seq<int>, log: Seq<int>)
    requires
        leftmost_derive(rs, num_terms, form, log) is Some,
    ensures
        reaches(rs, form, leftmost_derive(rs, num_terms, form, log)->Some_0),
    decreases log.len(),
{
    if log.len() == 0 {
        assert(rewrite(rs, form, Seq::<(int, int)>::empty()) == Some(form));
    } else {
        let prev = leftmost_derive(rs, num_terms, form, log.drop_last());
        assert(prev is Some);
        lemma_leftmost_reaches(rs, num_terms, form, log.drop_last());
        let m = prev->Some_0;
        let steps = choose|s: Seq<(int, int)>| #[trigger] rewrite(rs, form, s) == Some(m);
        let p = log.last();
        let i = leftmost_nonterminal(m, num_terms);
        assert(leftmost_derive(rs, num_terms, form, log) == leftmost_step(rs, num_terms, m, p));
        lemma_leftmost_range(m, num_terms);
        let s2 = steps.push((i, p));
        assert(s2.drop_last() =~= steps);
        assert(rewrite(rs, form, s2) == rewrite_at(rs, m, i, p));
        assert(rewrite(rs, form, s2) == leftmost_derive(rs, num_terms, form, log));
    }
}

pub proof fn lemma_reaches_trans(rs: Seq<(int, Seq<int>)>, a: Seq<int>, b: Seq<int>, c: Seq<int>)
    requires
        reaches(rs, a, b),
        reaches(rs, b, c),
    ensures
        reaches(rs, a, c),
{
    let s1 = choose|s: Seq<(int, int)>| #[trigger] rewrite(rs, a, s) == Some(b);
    let s2 = choose|s: Seq<(int, int)>| #[trigger] rewrite(rs, b, s) == Some(c);
    lemma_rewrite_concat(rs, a, s1, s2);
    assert(rewrite(rs, a, s1 + s2) == Some(c));
}

pub proof fn lemma_reaches_context(
    rs: Seq<(int, Seq<int>)>,
    pre: Seq<int>,
    s: Seq<int>,
    post: Seq<int>,
    w: Seq<int>,
)
    requires
        reaches(rs, s, w),
    ensures
        reaches(rs, pre + s + post, pre + w + post),
{
    let st = choose|x: Seq<(int, int)>| #[trigger] rewrite(rs, s, x) == Some(w);
    lemma_rewrite_in_context(rs, pre, s, post, st);
    assert(rewrite(rs, pre + s + post, shifted(st, pre.len() as int)) == Some(pre + w + post));
}

pub proof fn lemma_reaches_step(rs: Seq<(int, Seq<int>)>, form: Seq<int>, i: int, p: int)
    requires
        rewrite_at(rs, form, i, p) is Some,
    ensures
        reaches(rs, form, rewrite_at(rs, form, i, p)->Some_0),
{
    let st = seq![(i, p)];
    assert(st.drop_last() =~= Seq::<(int, int)>::empty());
    assert(rewrite(rs, form, Seq::<(int, int)>::empty()) == Some(form));
    assert(rewrite(rs, form, st) == rewrite_at(rs, form, i, p));
}

} // verus!

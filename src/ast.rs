//! The grammar representation produced by the grammar-language front end.
use vstd::prelude::*;

verus! {

/// A whole grammar: imports, the token declaration and the nonterminals.
#[derive(Debug, PartialEq, Eq)]
pub struct AstGrammar {
    pub imports: Vec<String>,
    pub token_decl: AstTokenDecl,
    pub nonterminals: Vec<AstNonterminal>,
}

/// The token type and its aliases (`"(" = Token::LParen`).
#[derive(Clone, Debug, PartialEq, Eq)]
pub struct AstTokenDecl {
    pub name: String,
    pub aliases: Vec<AstTokenAlias>,
}

/// A terminal name (quotes included) and the token pattern it stands for.
#[derive(Clone, Debug, PartialEq, Eq)]
pub struct AstTokenAlias {
    pub term: String,
    pub pattern: AstTokenPattern,
}

/// A token pattern: a type name and a variant name.
#[derive(Clone, Debug, PartialEq, Eq)]
pub struct AstTokenPattern {
    pub ty: String,
    pub variant: String,
}

/// A nonterminal declaration.
#[derive(Debug, PartialEq, Eq)]
pub struct AstNonterminal {
    pub is_pub: bool,
    pub name: String,
    pub ty: AstTypeRef,
    pub productions: Vec<AstProduction>,
}

/// The result type of a nonterminal, kept for the code emitter.
#[derive(Debug, PartialEq, Eq)]
pub enum AstTypeRef {
    Ty(AstTypePath, Vec<AstTypeRef>),
    Tuple(Vec<AstTypeRef>),
}

/// A type path such as `std::collections::HashMap`.
#[derive(Clone, Debug, PartialEq, Eq)]
pub struct AstTypePath {
    pub is_absolute: bool,
    pub segments: Vec<String>,
}

/// One right-hand side of a nonterminal with its action code.
#[derive(Clone, Debug, PartialEq, Eq, Hash)]
pub struct AstProduction {
    pub symbols: Vec<AstSymbol>,
    pub code: String,
}

/// A symbol of a right-hand side.
#[derive(Clone, Debug, PartialEq, Eq, Hash)]
pub enum AstSymbol {
    Terminal(String),
    Nonterminal(String),
    /// A nonterminal whose value is bound to a name in the action code.
    Named(String, String),
}

impl AstTypeRef {
    /// A relative path type without generic arguments.
    pub fn simple_ty(segments: Vec<String>) -> (r: AstTypeRef)
        ensures
            r matches AstTypeRef::Ty(path, generics) && !path.is_absolute && path.segments
                == segments && generics@.len() == 0,
    {
        AstTypeRef::Ty(AstTypePath { is_absolute: false, segments }, Vec::new())
    }
}


/// The position of `x` in `names`, for a name that occurs there exactly once.
pub open spec fn position_of(names: Seq<Seq<char>>, x: Seq<char>) -> int {
    choose|i: int| 0 <= i < names.len() && names[i] == x
}

/// No name occurs twice.
pub open spec fn distinct_names(names: Seq<Seq<char>>) -> bool {
    forall|i: int, j: int|
        0 <= i < names.len() && 0 <= j < names.len() && names[i] == names[j] ==> i == j
}

/// A production after name resolution: the symbol number of its nonterminal and
/// those of its right-hand side. Terminals are numbered first, in the order of
/// the token aliases; nonterminals follow, in declaration order.
#[derive(Clone, Debug, PartialEq, Eq)]
pub struct IndexedRule {
    pub lhs: usize,
    pub rhs: Vec<usize>,
}

impl IndexedRule {
    pub open spec fn view(self) -> (int, Seq<int>) {
        (self.lhs as int, self.rhs@.map_values(|x: usize| x as int))
    }
}

pub open spec fn rules_view(rs: Seq<IndexedRule>) -> Seq<(int, Seq<int>)> {
    rs.map_values(|r: IndexedRule| r.view())
}

impl AstSymbol {
    /// The terminal or nonterminal name the symbol refers to.
    pub open spec fn spec_name(self) -> Seq<char> {
        match self {
            AstSymbol::Terminal(t) => t@,
            AstSymbol::Nonterminal(n) => n@,
            AstSymbol::Named(_, n) => n@,
        }
    }

    /// The name of the terminal or nonterminal this symbol refers to; a named
    /// nonterminal gives the nonterminal, not the binding.
    pub fn term_or_nonterm(&self) -> (r: &String)
        ensures
            r@ == self.spec_name(),
    {
        match self {
            AstSymbol::Terminal(term) => term,
            AstSymbol::Nonterminal(nonterm) => nonterm,
            AstSymbol::Named(_, nonterm) => nonterm,
        }
    }
}

impl AstGrammar {
    pub open spec fn term_names(self) -> Seq<Seq<char>> {
        self.token_decl.aliases@.map_values(|a: AstTokenAlias| a.term@)
    }

    pub open spec fn nonterm_names(self) -> Seq<Seq<char>> {
        self.nonterminals@.map_values(|n: AstNonterminal| n.name@)
    }

    pub open spec fn num_terms(self) -> int {
        self.token_decl.aliases@.len() as int
    }

    pub open spec fn num_symbols(self) -> int {
        self.num_terms() + self.nonterminals@.len()
    }

    /// The symbol's name is declared, among the terminals or the nonterminals
    /// according to its kind.
    pub open spec fn resolves(self, s: AstSymbol) -> bool {
        if s is Terminal {
            self.term_names().contains(s.spec_name())
        } else {
            self.nonterm_names().contains(s.spec_name())
        }
    }

    /// The number of the symbol: terminals first, then nonterminals.
    pub open spec fn symbol_id(self, s: AstSymbol) -> int {
        if s is Terminal {
            position_of(self.term_names(), s.spec_name())
        } else {
            self.num_terms() + position_of(self.nonterm_names(), s.spec_name())
        }
    }

    pub open spec fn rhs_ids(self, p: AstProduction) -> Seq<int> {
        p.symbols@.map_values(|s: AstSymbol| self.symbol_id(s))
    }

    /// The productions of the `k`-th nonterminal, resolved.
    pub open spec fn rules_of(self, k: int) -> Seq<(int, Seq<int>)> {
        self.nonterminals@[k].productions@.map_values(
            |p: AstProduction| (self.num_terms() + k, self.rhs_ids(p)),
        )
    }

    pub open spec fn rules_upto(self, k: nat) -> Seq<(int, Seq<int>)>
        decreases k,
    {
        if k == 0 {
            seq![]
        } else {
            self.rules_upto((k - 1) as nat) + self.rules_of(k - 1)
        }
    }

    /// All productions, resolved, nonterminal by nonterminal in declaration order.
    pub open spec fn rules(self) -> Seq<(int, Seq<int>)> {
        self.rules_upto(self.nonterminals@.len())
    }

    /// Names are unique, every symbol refers to a declared name, and the symbol
    /// and production counts fit in a `usize`.
    pub open spec fn wf(self) -> bool {
        &&& distinct_names(self.term_names())
        &&& distinct_names(self.nonterm_names())
        &&& forall|k: int, q: int, i: int|
            0 <= k < self.nonterminals@.len() && 0 <= q
                < self.nonterminals@[k].productions@.len() && 0 <= i
                < self.nonterminals@[k].productions@[q].symbols@.len() ==> self.resolves(
                #[trigger] self.nonterminals@[k].productions@[q].symbols@[i],
            )
        &&& self.num_symbols() < usize::MAX
        &&& self.rules().len() < usize::MAX
    }

    /// Every resolved production has a nonterminal on its left and symbol
    /// numbers in range on its right, terminals below `num_terms`.
    pub proof fn lemma_rules_in_range(self)
        requires
            self.wf(),
        ensures
            forall|p: int|
                0 <= p < self.rules().len() ==> self.num_terms() <= (#[trigger] self.rules()[p]).0
                    < self.num_symbols(),
            forall|p: int, i: int|
                0 <= p < self.rules().len() && 0 <= i < self.rules()[p].1.len() ==> 0
                    <= #[trigger] self.rules()[p].1[i] < self.num_symbols(),
    {
        self.lemma_rules_upto_in_range(self.nonterminals@.len());
    }

    proof fn lemma_rules_upto_in_range(self, k: nat)
        requires
            self.wf(),
            k <= self.nonterminals@.len(),
        ensures
            forall|p: int|
                0 <= p < self.rules_upto(k).len() ==> self.num_terms() <= (
                #[trigger] self.rules_upto(k)[p]).0 < self.num_symbols(),
            forall|p: int, i: int|
                0 <= p < self.rules_upto(k).len() && 0 <= i < self.rules_upto(k)[p].1.len() ==> 0
                    <= #[trigger] self.rules_upto(k)[p].1[i] < self.num_symbols(),
        decreases k,
    {
        if k > 0 {
            self.lemma_rules_upto_in_range((k - 1) as nat);
            let prev = self.rules_upto((k - 1) as nat);
            let cur = self.rules_of(k - 1);
            assert forall|p: int, i: int|
                0 <= p < self.rules_upto(k).len() && 0 <= i
                    < self.rules_upto(k)[p].1.len() implies 0 <= #[trigger] self.rules_upto(
                k,
            )[p].1[i] < self.num_symbols() by {
                if p >= prev.len() {
                    let q = p - prev.len();
                    let s = self.nonterminals@[k - 1].productions@[q].symbols@[i];
                    assert(self.resolves(s));
                    if s is Terminal {
                        assert(self.term_names().contains(s.spec_name()));
                    } else {
                        assert(self.nonterm_names().contains(s.spec_name()));
                    }
                }
            }
        }
    }

    /// The terminal names, in declaration order.
    pub fn terminals(&self) -> (r: Vec<String>)
        ensures
            r@.map_values(|s: String| s@) == self.term_names(),
    {
        let mut r: Vec<String> = Vec::new();
        let mut i: usize = 0;
        while i < self.token_decl.aliases.len()
            invariant
                i <= self.token_decl.aliases@.len(),
                r@.len() == i,
                forall|j: int| 0 <= j < i ==> (#[trigger] r@[j])@ == self.token_decl.aliases@[j].term@,
            decreases self.token_decl.aliases@.len() - i,
        {
            r.push(self.token_decl.aliases[i].term.clone());
            i += 1;
        }
        assert(r@.map_values(|s: String| s@) =~= self.term_names());
        r
    }

    /// The nonterminal names, in declaration order.
    pub fn nonterminals(&self) -> (r: Vec<String>)
        ensures
            r@.map_values(|s: String| s@) == self.nonterm_names(),
    {
        let mut r: Vec<String> = Vec::new();
        let mut i: usize = 0;
        while i < self.nonterminals.len()
            invariant
                i <= self.nonterminals@.len(),
                r@.len() == i,
                forall|j: int| 0 <= j < i ==> (#[trigger] r@[j])@ == self.nonterminals@[j].name@,
            decreases self.nonterminals@.len() - i,
        {
            r.push(self.nonterminals[i].name.clone());
            i += 1;
        }
        assert(r@.map_values(|s: String| s@) =~= self.nonterm_names());
        r
    }
}


impl AstGrammar {
    /// The number of a symbol: its position among the terminals, or the number
    /// of terminals plus its position among the nonterminals.
    pub fn symbol_index(&self, s: &AstSymbol) -> (r: usize)
        requires
            self.wf(),
            self.resolves(*s),
        ensures
            r == self.symbol_id(*s),
    {
        let name = s.term_or_nonterm();
        if let AstSymbol::Terminal(_) = s {
            let mut i: usize = 0;
            while i < self.token_decl.aliases.len()
                invariant
                    self.wf(),
                    self.resolves(*s),
                    name@ == s.spec_name(),
                    s is Terminal,
                    i <= self.token_decl.aliases@.len(),
                    forall|j: int| 0 <= j < i ==> self.term_names()[j] != name@,
                decreases self.token_decl.aliases@.len() - i,
            {
                if self.token_decl.aliases[i].term == *name {
                    proof {
                        assert(self.term_names()[i as int] == name@);
                        let c = position_of(self.term_names(), name@);
                        assert(self.term_names()[c] == name@);
                        assert(distinct_names(self.term_names()));
                        assert(c == i);
                    }
                    return i;
                }
                i += 1;
            }
            proof {
                let j = choose|j: int|
                    0 <= j < self.term_names().len() && self.term_names()[j] == name@;
            }
            0
        } else {
            let mut i: usize = 0;
            while i < self.nonterminals.len()
                invariant
                    self.wf(),
                    self.resolves(*s),
                    name@ == s.spec_name(),
                    !(s is Terminal),
                    i <= self.nonterminals@.len(),
                    forall|j: int| 0 <= j < i ==> self.nonterm_names()[j] != name@,
                decreases self.nonterminals@.len() - i,
            {
                if self.nonterminals[i].name == *name {
                    proof {
                        assert(self.nonterm_names()[i as int] == name@);
                        let c = position_of(self.nonterm_names(), name@);
                        assert(self.nonterm_names()[c] == name@);
                        assert(distinct_names(self.nonterm_names()));
                        assert(c == i);
                        assert(self.num_symbols() < usize::MAX);
                    }
                    return self.token_decl.aliases.len() + i;
                }
                i += 1;
            }
            proof {
                let j = choose|j: int|
                    0 <= j < self.nonterm_names().len() && self.nonterm_names()[j] == name@;
            }
            0
        }
    }

    /// The productions of the grammar with their names resolved to symbol
    /// numbers, nonterminal by nonterminal in declaration order.
    pub fn resolved_productions(&self) -> (r: Vec<IndexedRule>)
        requires
            self.wf(),
        ensures
            rules_view(r@) == self.rules(),
    {
        let mut r: Vec<IndexedRule> = Vec::new();
        let nt = self.token_decl.aliases.len();
        let mut k: usize = 0;
        while k < self.nonterminals.len()
            invariant
                self.wf(),
                nt == self.num_terms(),
                k <= self.nonterminals@.len(),
                rules_view(r@) == self.rules_upto(k as nat),
            decreases self.nonterminals@.len() - k,
        {
            let prods = &self.nonterminals[k].productions;
            let mut q: usize = 0;
            while q < prods.len()
                invariant
                    self.wf(),
                    nt == self.num_terms(),
                    k < self.nonterminals@.len(),
                    prods == self.nonterminals@[k as int].productions,
                    q <= prods@.len(),
                    rules_view(r@) == self.rules_upto(k as nat) + self.rules_of(k as int).take(
                        q as int,
                    ),
                decreases prods@.len() - q,
            {
                let syms = &prods[q].symbols;
                let mut rhs: Vec<usize> = Vec::new();
                let mut i: usize = 0;
                while i < syms.len()
                    invariant
                        self.wf(),
                        k < self.nonterminals@.len(),
                        q < self.nonterminals@[k as int].productions@.len(),
                        syms == self.nonterminals@[k as int].productions@[q as int].symbols,
                        i <= syms@.len(),
                        rhs@.len() == i,
                        forall|j: int|
                            0 <= j < i ==> #[trigger] rhs@[j] as int == self.symbol_id(syms@[j]),
                    decreases syms@.len() - i,
                {
                    assert(self.resolves(
                        self.nonterminals@[k as int].productions@[q as int].symbols@[i as int],
                    ));
                    let id = self.symbol_index(&syms[i]);
                    rhs.push(id);
                    i += 1;
                }
                proof {
                    self.lemma_rules_upto_len(k as nat);
                }
                let ghost before = r@;
                r.push(IndexedRule { lhs: nt + k, rhs });
                proof {
                    let p = self.nonterminals@[k as int].productions@[q as int];
                    assert(rhs@.map_values(|x: usize| x as int) =~= self.rhs_ids(p));
                    assert(self.rules_of(k as int).take(q + 1) =~= self.rules_of(k as int).take(
                        q as int,
                    ).push(self.rules_of(k as int)[q as int]));
                    assert(rules_view(r@) =~= rules_view(before).push(r@.last().view()));
                }
                q += 1;
            }
            assert(self.rules_of(k as int).take(q as int) =~= self.rules_of(k as int));
            k += 1;
        }
        r
    }

    proof fn lemma_rules_upto_len(self, k: nat)
        requires
            self.wf(),
            k < self.nonterminals@.len(),
        ensures
            self.rules_upto(k).len() + self.rules_of(k as int).len() < usize::MAX,
        decreases self.nonterminals@.len() - k,
    {
        self.lemma_rules_upto_mono((k + 1) as nat, self.nonterminals@.len());
    }

    proof fn lemma_rules_upto_mono(self, a: nat, b: nat)
        requires
            a <= b,
        ensures
            self.rules_upto(a).len() <= self.rules_upto(b).len(),
        decreases b - a,
    {
        if a < b {
            self.lemma_rules_upto_mono(a, (b - 1) as nat);
        }
    }
}


impl AstGrammar {
    /// Every resolved production comes from a production of a nonterminal.
    pub proof fn lemma_rule_origin(self, k: nat, p: int) -> (r: (int, int))
        requires
            k <= self.nonterminals@.len(),
            0 <= p < self.rules_upto(k).len(),
        ensures
            0 <= r.0 < k,
            0 <= r.1 < self.nonterminals@[r.0].productions@.len(),
            self.rules_upto(k)[p] == (
                self.num_terms() + r.0,
                self.rhs_ids(self.nonterminals@[r.0].productions@[r.1]),
            ),
        decreases k,
    {
        let prev = self.rules_upto((k - 1) as nat);
        if p < prev.len() {
            self.lemma_rule_origin((k - 1) as nat, p)
        } else {
            (k - 1, p - prev.len())
        }
    }
}


impl AstSymbol {
    /// A copy of the symbol.
    pub fn copy(&self) -> (r: AstSymbol)
        ensures
            r == *self,
    {
        match self {
            AstSymbol::Terminal(t) => AstSymbol::Terminal(t.clone()),
            AstSymbol::Nonterminal(n) => AstSymbol::Nonterminal(n.clone()),
            AstSymbol::Named(b, n) => AstSymbol::Named(b.clone(), n.clone()),
        }
    }
}

impl AstProduction {
    /// A copy of the production: the same symbols and action code.
    pub fn copy(&self) -> (r: AstProduction)
        ensures
            r.symbols@ == self.symbols@,
            r.code == self.code,
    {
        let mut symbols: Vec<AstSymbol> = Vec::new();
        let mut i: usize = 0;
        while i < self.symbols.len()
            invariant
                i <= self.symbols@.len(),
                symbols@ == self.symbols@.take(i as int),
            decreases self.symbols@.len() - i,
        {
            symbols.push(self.symbols[i].copy());
            i += 1;
            assert(symbols@ =~= self.symbols@.take(i as int));
        }
        assert(self.symbols@.take(i as int) =~= self.symbols@);
        AstProduction { symbols, code: self.code.clone() }
    }
}

impl AstGrammar {
    /// Which production of which nonterminal each entry of `productions`
    /// is, for the first `k` nonterminals.
    pub open spec fn owners_upto(self, k: nat) -> Seq<(int, int)>
        decreases k,
    {
        if k == 0 {
            seq![]
        } else {
            self.owners_upto((k - 1) as nat) + Seq::new(
                self.nonterminals@[k - 1].productions@.len(),
                |q: int| (k - 1, q),
            )
        }
    }

    pub open spec fn owners(self) -> Seq<(int, int)> {
        self.owners_upto(self.nonterminals@.len())
    }

    /// Entry `e` is production `q` of nonterminal `k`, with its name.
    pub open spec fn is_entry(self, e: (String, AstProduction), k: int, q: int) -> bool {
        &&& 0 <= k < self.nonterminals@.len()
        &&& 0 <= q < self.nonterminals@[k].productions@.len()
        &&& e.0@ == self.nonterminals@[k].name@
        &&& e.1.symbols@ == self.nonterminals@[k].productions@[q].symbols@
        &&& e.1.code == self.nonterminals@[k].productions@[q].code
    }

    /// The productions of the grammar, each with the name of its
    /// nonterminal, nonterminal by nonterminal in declaration order.
    pub fn productions(&self) -> (r: Vec<(String, AstProduction)>)
        ensures
            r@.len() == self.owners().len(),
            forall|i: int|
                0 <= i < r@.len() ==> self.is_entry(
                    #[trigger] r@[i],
                    self.owners()[i].0,
                    self.owners()[i].1,
                ),
    {
        let mut r: Vec<(String, AstProduction)> = Vec::new();
        let ghost mut own: Seq<(int, int)> = seq![];
        let mut k: usize = 0;
        while k < self.nonterminals.len()
            invariant
                k <= self.nonterminals@.len(),
                own == self.owners_upto(k as nat),
                r@.len() == own.len(),
                forall|i: int| 0 <= i < r@.len() ==> self.is_entry(#[trigger] r@[i], own[i].0, own[i].1),
            decreases self.nonterminals@.len() - k,
        {
            let nt = &self.nonterminals[k];
            let ghost base = own;
            let mut q: usize = 0;
            while q < nt.productions.len()
                invariant
                    k < self.nonterminals@.len(),
                    nt == self.nonterminals@[k as int],
                    base == self.owners_upto(k as nat),
                    q <= nt.productions@.len(),
                    own == base + Seq::new(q as nat, |j: int| (k as int, j)),
                    r@.len() == own.len(),
                    forall|i: int| 0 <= i < r@.len() ==> self.is_entry(#[trigger] r@[i], own[i].0, own[i].1),
                decreases nt.productions@.len() - q,
            {
                let ghost before = r@;
                let ghost own0 = own;
                r.push((nt.name.clone(), nt.productions[q].copy()));
                proof {
                    own = own.push((k as int, q as int));
                    assert(own =~= base + Seq::new((q + 1) as nat, |j: int| (k as int, j)));
                    assert forall|i: int| 0 <= i < r@.len() implies self.is_entry(#[trigger] r@[i], own[i].0, own[i].1) by {
                        if i < before.len() {
                            assert(r@[i] == before[i]);
                            assert(own[i] == own0[i]);
                        }
                    }
                }
                q += 1;
            }
            proof {
                assert(self.owners_upto((k + 1) as nat) =~= base + Seq::new(
                    q as nat,
                    |j: int| (k as int, j),
                ));
            }
            k += 1;
        }
        r
    }
}

} // verus!

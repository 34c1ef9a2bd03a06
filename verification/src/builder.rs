//! The mutable construction facade: accumulates nonterminals and
//! productions, assigns stable integer identities, interns literal text,
//! and finalizes into an immutable [`Context`].
//!
//! The builder's behaviour is modelled by pure operations on
//! [`GrammarModel`] (`with_nt`, `with_text`, `with_prod`); each method's
//! contract says that the new state and the returned identity are exactly
//! what the model operation gives.  The laws at the end of the module —
//! stability of identities, injectivity over distinct names, determinism of
//! interning, and the shape of the production lists after a run of
//! registrations — are proved over the same model.

use vstd::prelude::*;
use vstd::string::StringExecFns;
use crate::grammar::{
    Chunk, Context, GrammarModel, Nonterminal, NtRefModel, NonterminalRef, ProdModel, Production,
    TextId, chunk_wf, nt_ref_wf, prod_owned, prod_wf, seq_distinct,
};
use crate::ty::{Ty, VarId};

verus! {

/// Whether the arena holds an entry with this content.
pub open spec fn seq_has(xs: Seq<Seq<char>>, s: Seq<char>) -> bool {
    exists|i: int| 0 <= i < xs.len() && xs[i] == s
}

/// The position of the entry with this content (meaningful when the arena
/// is duplicate-free and the content is present).
pub open spec fn seq_index_of(xs: Seq<Seq<char>>, s: Seq<char>) -> int {
    choose|i: int| 0 <= i < xs.len() && xs[i] == s
}

/// The handle an arena lookup yields: the position of the existing entry,
/// or one past the end where the content is new and will be appended.
pub open spec fn arena_index(xs: Seq<Seq<char>>, s: Seq<char>) -> int {
    if seq_has(xs, s) {
        seq_index_of(xs, s)
    } else {
        xs.len() as int
    }
}

/// The arena after a lookup: unchanged when the content was present,
/// extended by it otherwise.
pub open spec fn arena_insert(xs: Seq<Seq<char>>, s: Seq<char>) -> Seq<Seq<char>> {
    if seq_has(xs, s) {
        xs
    } else {
        xs.push(s)
    }
}

/// In a duplicate-free arena the position of a known entry is the only one
/// a lookup can yield.
pub proof fn lemma_index_of_unique(xs: Seq<Seq<char>>, s: Seq<char>, i: int)
    requires
        seq_distinct(xs),
        0 <= i < xs.len(),
        xs[i] == s,
    ensures
        seq_has(xs, s),
        seq_index_of(xs, s) == i,
{
    assert(seq_has(xs, s));
    let k = seq_index_of(xs, s);
    if k != i {
        assert(xs[k] == s && xs[i] == s);
        assert(false);
    }
}

proof fn lemma_prod_wf_grow(p: ProdModel, n1: nat, n2: nat, t1: nat, t2: nat)
    requires
        prod_wf(p, n1, t1),
        n1 <= n2,
        t1 <= t2,
    ensures
        prod_wf(p, n2, t2),
{
    assert forall|k: int| 0 <= k < p.chunks.len() implies chunk_wf(
        #[trigger] p.chunks[k],
        p.nts.len(),
        t2,
    ) by {
        assert(chunk_wf(p.chunks[k], p.nts.len(), t1));
    }
    assert forall|k: int| 0 <= k < p.nts.len() implies nt_ref_wf(
        #[trigger] p.nts[k],
        n2,
        p.vars.len(),
    ) by {
        assert(nt_ref_wf(p.nts[k], n1, p.vars.len()));
    }
}

/// The left-hand side of a rule: the names of its locally-scoped type
/// variables and the nonterminal reference being defined.
#[derive(Clone)]
pub struct ProductionLhs {
    pub vars: Vec<String>,
    pub nt: NonterminalRef,
}

/// Model of a [`ProductionLhs`].
pub struct LhsModel {
    pub vars: Seq<Seq<char>>,
    pub nt: NtRefModel,
}

impl View for ProductionLhs {
    type V = LhsModel;

    open spec fn view(&self) -> LhsModel {
        LhsModel { vars: self.vars.deep_view(), nt: self.nt@ }
    }
}

/// The right-hand side of a rule: its ordered chunks and the nonterminal
/// references the chunks point into.
#[derive(Clone)]
pub struct ProductionRhs {
    pub chunks: Vec<Chunk>,
    pub nts: Vec<NonterminalRef>,
}

/// Model of a [`ProductionRhs`].
pub struct RhsModel {
    pub chunks: Seq<Chunk>,
    pub nts: Seq<NtRefModel>,
}

impl View for ProductionRhs {
    type V = RhsModel;

    open spec fn view(&self) -> RhsModel {
        RhsModel { chunks: self.chunks@, nts: self.nts@.map(|i: int, r: NonterminalRef| r@) }
    }
}

impl Default for ProductionRhs {
    /// An empty right-hand side: no chunks, no references.
    fn default() -> (r: Self)
        ensures
            r@.chunks.len() == 0,
            r@.nts.len() == 0,
    {
        ProductionRhs { chunks: Vec::new(), nts: Vec::new() }
    }
}

/// A left-hand side is well formed for a grammar state when its reference
/// names an existing nonterminal and every variable among the reference's
/// arguments is one of the side's own variables.
pub open spec fn lhs_wf(l: LhsModel, g: GrammarModel) -> bool {
    nt_ref_wf(l.nt, g.nt_prods.len(), l.vars.len())
}

/// A right-hand side is well formed for a grammar state when its chunks
/// point into its own reference list or the text arena, and its references
/// name existing nonterminals using only the left-hand side's `n_vars`
/// variables.
pub open spec fn rhs_wf(r: RhsModel, g: GrammarModel, n_vars: nat) -> bool {
    &&& forall|k: int|
        0 <= k < r.chunks.len() ==> chunk_wf(#[trigger] r.chunks[k], r.nts.len(), g.texts.len())
    &&& forall|k: int| 0 <= k < r.nts.len() ==> nt_ref_wf(#[trigger] r.nts[k], g.nt_prods.len(), n_vars)
}

impl GrammarModel {
    /// The state with no nonterminals, productions or interned text.
    pub open spec fn empty() -> GrammarModel {
        GrammarModel {
            prods: Seq::empty(),
            nt_prods: Seq::empty(),
            names: Seq::empty(),
            texts: Seq::empty(),
        }
    }

    /// What looking a name up does to the state: nothing when the name is
    /// known, else one fresh empty nonterminal under a fresh identity.
    pub open spec fn with_nt(self, name: Seq<char>) -> GrammarModel {
        if seq_has(self.names, name) {
            self
        } else {
            GrammarModel {
                prods: self.prods,
                nt_prods: self.nt_prods.push(Seq::empty()),
                names: self.names.push(name),
                texts: self.texts,
            }
        }
    }

    /// What interning a fragment does to the state.
    pub open spec fn with_text(self, s: Seq<char>) -> GrammarModel {
        GrammarModel {
            prods: self.prods,
            nt_prods: self.nt_prods,
            names: self.names,
            texts: arena_insert(self.texts, s),
        }
    }

    /// What registering a production does to the state: the compiled rule
    /// is appended to the flat list, and its index is appended to the
    /// owning nonterminal's list — to that one list and no other.
    pub open spec fn with_prod(
        self,
        lhs: LhsModel,
        rhs: RhsModel,
        has_handler: bool,
        has_multiplicity: bool,
    ) -> GrammarModel {
        GrammarModel {
            prods: self.prods.push(
                ProdModel {
                    vars: lhs.vars,
                    args: lhs.nt.args,
                    chunks: rhs.chunks,
                    nts: rhs.nts,
                    has_handler,
                    has_multiplicity,
                },
            ),
            nt_prods: self.nt_prods.update(
                lhs.nt.id as int,
                self.nt_prods[lhs.nt.id as int].push(self.prods.len() as usize),
            ),
            names: self.names,
            texts: self.texts,
        }
    }
}

/// Transient owner of the grammar during construction.
pub struct GrammarBuilder<H, M> {
    prods: Vec<Production<H, M>>,
    nts: Vec<Nonterminal>,
    nts_by_name: Vec<String>,
    text_interner: Vec<String>,
}

impl<H, M> View for GrammarBuilder<H, M> {
    type V = GrammarModel;

    closed spec fn view(&self) -> GrammarModel {
        GrammarModel {
            prods: self.prods@.map(|i: int, p: Production<H, M>| p@),
            nt_prods: self.nts@.map(|i: int, n: Nonterminal| n@),
            names: self.nts_by_name.deep_view(),
            texts: self.text_interner.deep_view(),
        }
    }
}

impl<H, M> Default for GrammarBuilder<H, M> {
    /// A fresh builder holds nothing.
    fn default() -> (b: Self)
        ensures
            b@ == GrammarModel::empty(),
            b.wf(),
    {
        let b = GrammarBuilder {
            prods: Vec::new(),
            nts: Vec::new(),
            nts_by_name: Vec::new(),
            text_interner: Vec::new(),
        };
        proof {
            assert(b@.prods =~= GrammarModel::empty().prods);
            assert(b@.nt_prods =~= GrammarModel::empty().nt_prods);
            assert(b@.names =~= GrammarModel::empty().names);
            assert(b@.texts =~= GrammarModel::empty().texts);
        }
        b
    }
}

fn find_str(v: &Vec<String>, s: &str) -> (r: Option<usize>)
    ensures
        match r {
            Some(i) => {
                &&& (i as nat) < v@.len()
                &&& v.deep_view()[i as int] == s@
            },
            None => !seq_has(v.deep_view(), s@),
        },
{
    let owned: String = s.to_owned();
    let mut i: usize = 0;
    while i < v.len()
        invariant
            owned@ == s@,
            i <= v@.len(),
            forall|j: int| 0 <= j < i ==> v.deep_view()[j] != s@,
        decreases v@.len() - i,
    {
        if v[i] == owned {
            return Some(i);
        }
        i = i + 1;
    }
    proof {
        assert forall|j: int| 0 <= j < v@.len() implies v.deep_view()[j] != s@ by {}
    }
    None
}

impl<H, M> GrammarBuilder<H, M> {
    /// The builder's invariant: its model is a well-formed grammar state.
    pub open spec fn wf(self) -> bool {
        self@.wf()
    }

    /// Returns the identity of `name`, allocating a fresh identity and an
    /// empty nonterminal record when the name has not been seen before.
    pub fn nt_id(&mut self, name: &str) -> (id: usize)
        requires
            old(self).wf(),
        ensures
            final(self).wf(),
            final(self)@ == old(self)@.with_nt(name@),
            id as int == arena_index(old(self)@.names, name@),
            (id as nat) < final(self)@.nt_prods.len(),
            final(self)@.names[id as int] == name@,
    {
        let found = find_str(&self.nts_by_name, name);
        match found {
            Some(i) => {
                proof {
                    lemma_index_of_unique(self@.names, name@, i as int);
                }
                i
            },
            None => {
                let id = self.nts.len();
                self.nts.push(Nonterminal::default());
                self.nts_by_name.push(name.to_owned());
                proof {
                    let g0 = old(self)@;
                    assert(self@.prods =~= g0.prods);
                    assert(self@.texts =~= g0.texts);
                    assert(self@.nt_prods =~= g0.nt_prods.push(Seq::<usize>::empty()));
                    assert(self@.names =~= g0.names.push(name@));
                    assert(self@ == g0.with_nt(name@));
                    assert forall|i: int, j: int| 0 <= i < j < self@.names.len() implies self@.names[i]
                        != self@.names[j] by {
                        if j == self@.names.len() - 1 {
                            assert(self@.names[i] == g0.names[i]);
                            if g0.names[i] == name@ {
                                assert(seq_has(g0.names, name@));
                            }
                        }
                    }
                    assert forall|p: int| 0 <= p < self@.prods.len() implies prod_wf(
                        #[trigger] self@.prods[p],
                        self@.nt_prods.len(),
                        self@.texts.len(),
                    ) by {
                        lemma_prod_wf_grow(
                            self@.prods[p],
                            g0.nt_prods.len(),
                            self@.nt_prods.len(),
                            g0.texts.len(),
                            self@.texts.len(),
                        );
                    }
                    assert forall|i1: int, j1: int, i2: int, j2: int|
                        0 <= i1 < self@.nt_prods.len() && 0 <= j1 < self@.nt_prods[i1].len() && 0
                            <= i2 < self@.nt_prods.len() && 0 <= j2 < self@.nt_prods[i2].len() && (
                        i1 != i2 || j1 != j2) implies (#[trigger] self@.nt_prods[i1][j1])
                        != (#[trigger] self@.nt_prods[i2][j2]) by {
                        assert(i1 < g0.nt_prods.len() && i2 < g0.nt_prods.len());
                        assert(self@.nt_prods[i1][j1] == g0.nt_prods[i1][j1]);
                        assert(self@.nt_prods[i2][j2] == g0.nt_prods[i2][j2]);
                    }
                    assert forall|p: int| 0 <= p < self@.prods.len() implies #[trigger] prod_owned(
                        self@.nt_prods,
                        p,
                    ) by {
                        assert(prod_owned(g0.nt_prods, p));
                        let (i, j) = choose|i: int, j: int|
                            0 <= i < g0.nt_prods.len() && 0 <= j < g0.nt_prods[i].len()
                                && (#[trigger] g0.nt_prods[i][j]) == p;
                        assert(self@.nt_prods[i][j] == p);
                    }
                }
                id
            },
        }
    }

    /// Canonicalizes a literal fragment: equal content always yields the
    /// identical handle, across the whole builder's lifetime.
    pub fn intern_text(&mut self, s: &str) -> (t: TextId)
        requires
            old(self).wf(),
        ensures
            final(self).wf(),
            final(self)@ == old(self)@.with_text(s@),
            t.0 as int == arena_index(old(self)@.texts, s@),
            (t.0 as nat) < final(self)@.texts.len(),
            final(self)@.texts[t.0 as int] == s@,
    {
        let found = find_str(&self.text_interner, s);
        match found {
            Some(i) => {
                proof {
                    lemma_index_of_unique(self@.texts, s@, i as int);
                }
                TextId(i)
            },
            None => {
                let t = self.text_interner.len();
                self.text_interner.push(s.to_owned());
                proof {
                    let g0 = old(self)@;
                    assert(self@.prods =~= g0.prods);
                    assert(self@.nt_prods =~= g0.nt_prods);
                    assert(self@.names =~= g0.names);
                    assert(self@.texts =~= g0.texts.push(s@));
                    assert(self@ == g0.with_text(s@));
                    assert forall|i: int, j: int| 0 <= i < j < self@.texts.len() implies self@.texts[i]
                        != self@.texts[j] by {
                        if j == self@.texts.len() - 1 {
                            if g0.texts[i] == s@ {
                                assert(seq_has(g0.texts, s@));
                            }
                        }
                    }
                    assert forall|p: int| 0 <= p < self@.prods.len() implies prod_wf(
                        #[trigger] self@.prods[p],
                        self@.nt_prods.len(),
                        self@.texts.len(),
                    ) by {
                        lemma_prod_wf_grow(
                            self@.prods[p],
                            g0.nt_prods.len(),
                            self@.nt_prods.len(),
                            g0.texts.len(),
                            self@.texts.len(),
                        );
                    }
                }
                TextId(t)
            },
        }
    }

    /// Registers a production, optionally attaching a handler and a
    /// multiplicity capability.  The rule is appended to the flat list and
    /// its index to the owning nonterminal's list, atomically.
    pub fn add_prod_with_opt_callbacks(
        &mut self,
        lhs: ProductionLhs,
        rhs: ProductionRhs,
        handler: Option<H>,
        multiplicity: Option<M>,
    ) -> (id: usize)
        requires
            old(self).wf(),
            lhs_wf(lhs@, old(self)@),
            rhs_wf(rhs@, old(self)@, lhs@.vars.len()),
        ensures
            final(self).wf(),
            final(self)@ == old(self)@.with_prod(
                lhs@,
                rhs@,
                handler is Some,
                multiplicity is Some,
            ),
            id as int == old(self)@.prods.len(),
    {
        let ghost g0 = self@;
        let ghost lhsm = lhs@;
        let ghost rhsm = rhs@;
        let ghost hh = handler is Some;
        let ghost hm = multiplicity is Some;
        let ProductionLhs { vars, nt } = lhs;
        let ProductionRhs { chunks, nts } = rhs;
        let id = self.prods.len();
        let prod = Production { vars, args: nt.args, chunks, nts, handler, multiplicity };
        self.prods.push(prod);
        self.nts[nt.id].productions.push(id);
        proof {
            let g1 = self@;
            let gw = g0.with_prod(lhsm, rhsm, hh, hm);
            assert(g1.prods =~= gw.prods);
            assert(g1.nt_prods =~= gw.nt_prods);
            assert(g1.names =~= gw.names);
            assert(g1.texts =~= gw.texts);
            assert(g1 == gw);
            assert forall|i: int, j: int|
                0 <= i < g1.nt_prods.len() && 0 <= j < g1.nt_prods[i].len() implies (
            #[trigger] g1.nt_prods[i][j] as nat) < g1.prods.len() by {
                if i == lhsm.nt.id as int && j == g1.nt_prods[i].len() - 1 {
                } else {
                    assert(g1.nt_prods[i][j] == g0.nt_prods[i][j]);
                }
            }
            assert forall|p: int| 0 <= p < g1.prods.len() implies prod_wf(
                #[trigger] g1.prods[p],
                g1.nt_prods.len(),
                g1.texts.len(),
            ) by {
                if p < g0.prods.len() {
                    assert(g1.prods[p] == g0.prods[p]);
                } else {
                    assert(g1.prods[p].chunks == rhsm.chunks);
                    assert(g1.prods[p].nts == rhsm.nts);
                    assert(g1.prods[p].args == lhsm.nt.args);
                    assert(g1.prods[p].vars == lhsm.vars);
                }
            }
            let li = lhsm.nt.id as int;
            let newpos = g0.nt_prods[li].len() as int;
            assert(g1.nt_prods[li][newpos] as int == g0.prods.len());
            assert forall|i1: int, j1: int, i2: int, j2: int|
                0 <= i1 < g1.nt_prods.len() && 0 <= j1 < g1.nt_prods[i1].len() && 0 <= i2
                    < g1.nt_prods.len() && 0 <= j2 < g1.nt_prods[i2].len() && (i1 != i2 || j1
                != j2) implies (#[trigger] g1.nt_prods[i1][j1]) != (#[trigger] g1.nt_prods[i2][j2]) by {
                if !(i1 == li && j1 == newpos) {
                    assert(g1.nt_prods[i1][j1] == g0.nt_prods[i1][j1]);
                    assert((g0.nt_prods[i1][j1] as nat) < g0.prods.len());
                }
                if !(i2 == li && j2 == newpos) {
                    assert(g1.nt_prods[i2][j2] == g0.nt_prods[i2][j2]);
                    assert((g0.nt_prods[i2][j2] as nat) < g0.prods.len());
                }
            }
            assert forall|p: int| 0 <= p < g1.prods.len() implies #[trigger] prod_owned(
                g1.nt_prods,
                p,
            ) by {
                if p < g0.prods.len() {
                    assert(prod_owned(g0.nt_prods, p));
                    let (i, j) = choose|i: int, j: int|
                        0 <= i < g0.nt_prods.len() && 0 <= j < g0.nt_prods[i].len()
                            && (#[trigger] g0.nt_prods[i][j]) == p;
                    assert(g1.nt_prods[i][j] == p);
                } else {
                    assert(g1.nt_prods[li][newpos] == p);
                }
            }
        }
        id
    }

    /// Registers a production with no handler and the default multiplicity
    /// of exactly one instance.
    pub fn add_prod(&mut self, lhs: ProductionLhs, rhs: ProductionRhs) -> (id: usize)
        requires
            old(self).wf(),
            lhs_wf(lhs@, old(self)@),
            rhs_wf(rhs@, old(self)@, lhs@.vars.len()),
        ensures
            final(self).wf(),
            final(self)@ == old(self)@.with_prod(lhs@, rhs@, false, false),
            id as int == old(self)@.prods.len(),
    {
        self.add_prod_with_opt_callbacks(lhs, rhs, None, None)
    }

    /// Registers a production guarded by a handler capability.
    pub fn add_prod_with_handler(
        &mut self,
        lhs: ProductionLhs,
        rhs: ProductionRhs,
        handler: H,
    ) -> (id: usize)
        requires
            old(self).wf(),
            lhs_wf(lhs@, old(self)@),
            rhs_wf(rhs@, old(self)@, lhs@.vars.len()),
        ensures
            final(self).wf(),
            final(self)@ == old(self)@.with_prod(lhs@, rhs@, true, false),
            id as int == old(self)@.prods.len(),
    {
        self.add_prod_with_opt_callbacks(lhs, rhs, Some(handler), None)
    }

    /// Registers a production family: a handler together with a
    /// multiplicity capability that lets the expansion engine enumerate
    /// more than one instance of the rule.
    pub fn add_prod_family(
        &mut self,
        lhs: ProductionLhs,
        rhs: ProductionRhs,
        multiplicity: M,
        handler: H,
    ) -> (id: usize)
        requires
            old(self).wf(),
            lhs_wf(lhs@, old(self)@),
            rhs_wf(rhs@, old(self)@, lhs@.vars.len()),
        ensures
            final(self).wf(),
            final(self)@ == old(self)@.with_prod(lhs@, rhs@, true, true),
            id as int == old(self)@.prods.len(),
    {
        self.add_prod_with_opt_callbacks(lhs, rhs, Some(handler), Some(multiplicity))
    }

    /// A reference to a non-parameterized nonterminal.
    pub fn mk_simple_nt_ref(&mut self, name: &str) -> (r: NonterminalRef)
        requires
            old(self).wf(),
        ensures
            final(self).wf(),
            final(self)@ == old(self)@.with_nt(name@),
            r@.id as int == arena_index(old(self)@.names, name@),
            r@.args.len() == 0,
            (r@.id as nat) < final(self)@.nt_prods.len(),
    {
        let id = self.nt_id(name);
        NonterminalRef { id, args: Vec::new() }
    }

    /// A left-hand side for a non-parameterized nonterminal.
    pub fn mk_simple_lhs(&mut self, name: &str) -> (lhs: ProductionLhs)
        requires
            old(self).wf(),
        ensures
            final(self).wf(),
            final(self)@ == old(self)@.with_nt(name@),
            lhs@.vars.len() == 0,
            lhs@.nt.id as int == arena_index(old(self)@.names, name@),
            lhs@.nt.args.len() == 0,
            lhs_wf(lhs@, final(self)@),
    {
        let nt = self.mk_simple_nt_ref(name);
        ProductionLhs { vars: Vec::new(), nt }
    }

    /// A parameterized left-hand side with `n` fresh type variables named
    /// positionally, returned together with the variables' identities for
    /// use inside the accompanying right-hand side.  The count of fresh
    /// identities always equals the number of type arguments attached to
    /// the produced reference.
    pub fn mk_lhs_with_args(&mut self, name: &str, n: usize) -> (r: (ProductionLhs, Vec<VarId>))
        requires
            old(self).wf(),
            n <= u32::MAX,
        ensures
            final(self).wf(),
            final(self)@ == old(self)@.with_nt(name@),
            r.0@.nt.id as int == arena_index(old(self)@.names, name@),
            r.0@.vars.len() == n,
            r.0@.nt.args.len() == n,
            r.1@.len() == n,
            forall|i: int| 0 <= i < n ==> r.1@[i] == VarId(i as u32),
            forall|i: int| 0 <= i < n ==> r.0@.nt.args[i] == Ty::Var(VarId(i as u32)),
            forall|i: int| 0 <= i < n ==> r.0@.vars[i] == spec_var_name(i as nat),
            forall|i: int, j: int| 0 <= i < j < n ==> r.1@[i] != r.1@[j],
            lhs_wf(r.0@, final(self)@),
    {
        let id = self.nt_id(name);
        let mut vars: Vec<String> = Vec::new();
        let mut args: Vec<Ty> = Vec::new();
        let mut ids: Vec<VarId> = Vec::new();
        let mut i: usize = 0;
        while i < n
            invariant
                i <= n,
                n <= u32::MAX,
                vars@.len() == i,
                args@.len() == i,
                ids@.len() == i,
                forall|j: int| 0 <= j < i ==> ids@[j] == VarId(j as u32),
                forall|j: int| 0 <= j < i ==> args@[j] == Ty::Var(VarId(j as u32)),
                forall|j: int| 0 <= j < i ==> (#[trigger] vars@[j])@ == spec_var_name(j as nat),
            decreases n - i,
        {
            let v = var_name(i as u32);
            vars.push(v);
            args.push(Ty::Var(VarId(i as u32)));
            ids.push(VarId(i as u32));
            i = i + 1;
        }
        let lhs = ProductionLhs { vars, nt: NonterminalRef { id, args } };
        proof {
            assert forall|j: int| 0 <= j < n implies lhs@.vars[j] == spec_var_name(j as nat) by {
                assert(lhs.vars.deep_view()[j] == lhs.vars@[j]@);
            }
        }
        (lhs, ids)
    }

    /// Transfers ownership of all accumulated entities into an immutable
    /// [`Context`]: exactly the registered productions and nonterminals, in
    /// registration order, with no loss or duplication.
    pub fn finish(self) -> (ctx: Context<H, M>)
        requires
            self.wf(),
        ensures
            ctx.wf(),
            ctx@ == self@,
    {
        let ghost g0 = self@;
        let ctx = Context {
            productions: self.prods,
            nonterminals: self.nts,
            nonterminals_by_name: self.nts_by_name,
            texts: self.text_interner,
        };
        proof {
            assert(ctx@.prods =~= g0.prods);
            assert(ctx@.nt_prods =~= g0.nt_prods);
            assert(ctx@.names =~= g0.names);
            assert(ctx@.texts =~= g0.texts);
        }
        ctx
    }
}

/// The decimal digits of `n`, most significant first.
pub open spec fn spec_decimal(n: nat) -> Seq<char>
    decreases n,
{
    if n < 10 {
        seq![spec_digit_char(n)]
    } else {
        spec_decimal(n / 10).push(spec_digit_char(n % 10))
    }
}

/// The character for one decimal digit.
pub open spec fn spec_digit_char(d: nat) -> char {
    if d == 0 {
        '0'
    } else if d == 1 {
        '1'
    } else if d == 2 {
        '2'
    } else if d == 3 {
        '3'
    } else if d == 4 {
        '4'
    } else if d == 5 {
        '5'
    } else if d == 6 {
        '6'
    } else if d == 7 {
        '7'
    } else if d == 8 {
        '8'
    } else {
        '9'
    }
}

/// The conventional name of the `i`-th positional type variable.
pub open spec fn spec_var_name(i: nat) -> Seq<char> {
    seq!['T'] + spec_decimal(i)
}

fn digit_str(d: u32) -> (s: &'static str)
    requires
        d < 10,
    ensures
        s@ == seq![spec_digit_char(d as nat)],
{
    proof {
        reveal_strlit("0");
        reveal_strlit("1");
        reveal_strlit("2");
        reveal_strlit("3");
        reveal_strlit("4");
        reveal_strlit("5");
        reveal_strlit("6");
        reveal_strlit("7");
        reveal_strlit("8");
        reveal_strlit("9");
    }
    let s: &'static str = if d == 0 {
        "0"
    } else if d == 1 {
        "1"
    } else if d == 2 {
        "2"
    } else if d == 3 {
        "3"
    } else if d == 4 {
        "4"
    } else if d == 5 {
        "5"
    } else if d == 6 {
        "6"
    } else if d == 7 {
        "7"
    } else {
        "8"
    };
    let s: &'static str = if d == 9 {
        "9"
    } else {
        s
    };
    proof {
        assert(s@ =~= seq![spec_digit_char(d as nat)]);
    }
    s
}

fn decimal_string(n: u32) -> (s: String)
    ensures
        s@ == spec_decimal(n as nat),
    decreases n,
{
    if n < 10 {
        let d = digit_str(n);
        d.to_owned()
    } else {
        let mut s = decimal_string(n / 10);
        s.append(digit_str(n % 10));
        proof {
            assert(s@ =~= spec_decimal(n as nat));
        }
        s
    }
}

fn var_name(i: u32) -> (s: String)
    ensures
        s@ == spec_var_name(i as nat),
{
    proof {
        reveal_strlit("T");
    }
    let mut s = String::from_str("T");
    let d = decimal_string(i);
    s.append(d.as_str());
    proof {
        assert(s@ =~= spec_var_name(i as nat));
    }
    s
}

// ------------------------------------------------------------------
// Laws of the construction phase, stated over the model.
// ------------------------------------------------------------------

/// Looking a name up is idempotent: once a name has been seen, looking it
/// up again yields the identical identity and leaves the state unchanged —
/// so repeated lookups of one name within one builder all agree.
pub proof fn lemma_nt_id_idempotent(g: GrammarModel, name: Seq<char>)
    requires
        g.wf(),
    ensures
        arena_index(g.with_nt(name).names, name) == arena_index(g.names, name),
        g.with_nt(name).with_nt(name) == g.with_nt(name),
{
    if seq_has(g.names, name) {
    } else {
        let g1 = g.with_nt(name);
        lemma_index_of_unique(g1.names, name, g.names.len() as int);
        assert(seq_has(g1.names, name));
    }
}

/// Distinct names receive distinct identities: after looking up `n1`, a
/// lookup of a different name `n2` yields a different identity.
pub proof fn lemma_nt_id_injective(g: GrammarModel, n1: Seq<char>, n2: Seq<char>)
    requires
        g.wf(),
        n1 != n2,
    ensures
        arena_index(g.with_nt(n1).names, n2) != arena_index(g.names, n1),
{
    let g1 = g.with_nt(n1);
    let id1 = arena_index(g.names, n1);
    let id2 = arena_index(g1.names, n2);
    if seq_has(g.names, n1) {
        assert(g1 == g);
        assert(g.names[id1] == n1);
        if seq_has(g1.names, n2) {
            assert(g1.names[id2] == n2);
        }
    } else {
        assert(g1.names[id1] == n1);
        if seq_has(g1.names, n2) {
            assert(g1.names[id2] == n2);
        }
    }
}

/// Interning is deterministic and stable: equal content yields the same
/// handle, also across the insertion the first call may have made.
pub proof fn lemma_intern_text_stable(g: GrammarModel, s1: Seq<char>, s2: Seq<char>)
    requires
        g.wf(),
        s1 == s2,
    ensures
        arena_index(g.with_text(s1).texts, s2) == arena_index(g.texts, s1),
        g.with_text(s1).with_text(s2) == g.with_text(s1),
{
    if seq_has(g.texts, s1) {
    } else {
        let t1 = g.with_text(s1).texts;
        lemma_index_of_unique(t1, s1, g.texts.len() as int);
        assert(seq_has(t1, s1));
        assert(arena_insert(t1, s2) == t1);
    }
}

/// One registration step of a run of registrations.
pub struct AddOp {
    pub lhs: LhsModel,
    pub rhs: RhsModel,
    pub has_handler: bool,
    pub has_multiplicity: bool,
}

/// The state after a run of registrations, first step first.
pub open spec fn apply_adds(g: GrammarModel, ops: Seq<AddOp>) -> GrammarModel
    decreases ops.len(),
{
    if ops.len() == 0 {
        g
    } else {
        apply_adds(
            g.with_prod(ops[0].lhs, ops[0].rhs, ops[0].has_handler, ops[0].has_multiplicity),
            ops.drop_first(),
        )
    }
}

/// Registration indices are strictly increasing from the flat list's
/// current length, and after `k` registrations under one nonterminal the
/// owning list has exactly `k` new entries, in call order — while every
/// other nonterminal's list is untouched.
pub proof fn lemma_add_run_registration(g: GrammarModel, nt: usize, ops: Seq<AddOp>)
    requires
        (nt as nat) < g.nt_prods.len(),
        forall|i: int| 0 <= i < ops.len() ==> (#[trigger] ops[i].lhs.nt.id) == nt,
        g.prods.len() + ops.len() <= usize::MAX,
    ensures
        apply_adds(g, ops).prods.len() == g.prods.len() + ops.len(),
        apply_adds(g, ops).nt_prods.len() == g.nt_prods.len(),
        apply_adds(g, ops).nt_prods[nt as int].len() == g.nt_prods[nt as int].len() + ops.len(),
        forall|k: int|
            0 <= k < ops.len() ==> (#[trigger] apply_adds(g, ops).nt_prods[nt as int][g.nt_prods[nt as int].len() + k] as int) == g.prods.len() + k,
        forall|j: int|
            0 <= j < g.nt_prods[nt as int].len() ==> #[trigger] apply_adds(g, ops).nt_prods[nt as int][j] == g.nt_prods[nt as int][j],
        forall|m: int|
            0 <= m < g.nt_prods.len() && m != nt as int ==> #[trigger] apply_adds(g, ops).nt_prods[m]
                == g.nt_prods[m],
    decreases ops.len(),
{
    if ops.len() == 0 {
    } else {
        let g1 = g.with_prod(ops[0].lhs, ops[0].rhs, ops[0].has_handler, ops[0].has_multiplicity);
        assert(ops[0].lhs.nt.id == nt);
        assert(g1.nt_prods[nt as int] == g.nt_prods[nt as int].push((g.prods.len()) as usize));
        assert forall|i: int| 0 <= i < ops.drop_first().len() implies (#[trigger] ops.drop_first()[i].lhs.nt.id)
            == nt by {
            assert(ops.drop_first()[i] == ops[i + 1]);
        }
        lemma_add_run_registration(g1, nt, ops.drop_first());
        let r = apply_adds(g, ops);
        assert(r == apply_adds(g1, ops.drop_first()));
        assert forall|k: int| 0 <= k < ops.len() implies (#[trigger] r.nt_prods[nt as int][g.nt_prods[nt as int].len() + k] as int) == g.prods.len() + k by {
            if k == 0 {
                assert(r.nt_prods[nt as int][g1.nt_prods[nt as int].len() - 1] == g1.nt_prods[nt as int][g1.nt_prods[nt as int].len() - 1]);
            } else {
                assert(r.nt_prods[nt as int][g1.nt_prods[nt as int].len() + (k - 1)] as int
                    == g1.prods.len() + (k - 1));
            }
        }
    }
}

} // verus!

//! The static grammar entities: interned text handles, chunks, nonterminal
//! references, nonterminals, productions and the finished [`Context`], with
//! the mathematical model and well-formedness conditions that the builder
//! establishes and the expansion engine relies on.

use vstd::prelude::*;
use crate::ty::Ty;

verus! {

/// Handle of one interned text fragment: an index into the grammar's text
/// arena.  Equal content always yields the same handle, so handles compare
/// like the fragments they stand for.
#[derive(Clone, Copy, PartialEq, Eq, Structural, Debug)]
pub struct TextId(pub usize);

/// One unit of a production's right-hand side: literal text, or the
/// position of a nonterminal reference in the production's reference list.
#[derive(Clone, Copy, PartialEq, Eq, Structural, Debug)]
pub enum Chunk {
    Text(TextId),
    Nt(usize),
}

/// A nonterminal identity together with the ordered type arguments the
/// occurrence is instantiated with.
#[derive(Clone, Debug)]
pub struct NonterminalRef {
    pub id: usize,
    pub args: Vec<Ty>,
}

/// Model of a [`NonterminalRef`].
pub struct NtRefModel {
    pub id: usize,
    pub args: Seq<Ty>,
}

impl View for NonterminalRef {
    type V = NtRefModel;

    open spec fn view(&self) -> NtRefModel {
        NtRefModel { id: self.id, args: self.args@ }
    }
}

/// Copies a nonterminal reference; the copy has the same model.
pub fn clone_nt_ref(r: &NonterminalRef) -> (c: NonterminalRef)
    ensures
        c@ == r@,
{
    let mut args: Vec<Ty> = Vec::new();
    let mut i: usize = 0;
    while i < r.args.len()
        invariant
            i <= r.args@.len(),
            args@ == r.args@.take(i as int),
        decreases r.args@.len() - i,
    {
        args.push(r.args[i]);
        proof {
            assert(args@ =~= r.args@.take(i + 1 as int));
        }
        i = i + 1;
    }
    proof {
        assert(r.args@.take(r.args@.len() as int) =~= r.args@);
    }
    NonterminalRef { id: r.id, args }
}

/// A nonterminal: the ordered list of indices of the productions that can
/// derive it, populated incrementally during construction.
pub struct Nonterminal {
    pub productions: Vec<usize>,
}

impl View for Nonterminal {
    type V = Seq<usize>;

    open spec fn view(&self) -> Seq<usize> {
        self.productions@
    }
}

impl Default for Nonterminal {
    /// A fresh nonterminal has no productions yet.
    fn default() -> (n: Self)
        ensures
            n@ == Seq::<usize>::empty(),
    {
        Nonterminal { productions: Vec::new() }
    }
}

/// A compiled rewrite rule: the left-hand side's variable names and type
/// arguments, the right-hand side's chunks and nonterminal references, and
/// the optional handler and multiplicity capabilities.
pub struct Production<H, M> {
    pub vars: Vec<String>,
    pub args: Vec<Ty>,
    pub chunks: Vec<Chunk>,
    pub nts: Vec<NonterminalRef>,
    pub handler: Option<H>,
    pub multiplicity: Option<M>,
}

/// Model of a [`Production`]: the capabilities are opaque, so the model
/// records only whether each is present.
pub struct ProdModel {
    pub vars: Seq<Seq<char>>,
    pub args: Seq<Ty>,
    pub chunks: Seq<Chunk>,
    pub nts: Seq<NtRefModel>,
    pub has_handler: bool,
    pub has_multiplicity: bool,
}

impl<H, M> View for Production<H, M> {
    type V = ProdModel;

    open spec fn view(&self) -> ProdModel {
        ProdModel {
            vars: self.vars.deep_view(),
            args: self.args@,
            chunks: self.chunks@,
            nts: self.nts@.map(|i: int, r: NonterminalRef| r@),
            has_handler: self.handler is Some,
            has_multiplicity: self.multiplicity is Some,
        }
    }
}

/// The immutable, finished grammar: all productions, all nonterminals, the
/// name of each nonterminal (the position is its identity), and the interned
/// text arena.
pub struct Context<H, M> {
    pub productions: Vec<Production<H, M>>,
    pub nonterminals: Vec<Nonterminal>,
    pub nonterminals_by_name: Vec<String>,
    pub texts: Vec<String>,
}

/// Model shared by the builder and the finished grammar: the compiled
/// productions, each nonterminal's production list, the name arena (position
/// is the nonterminal's identity) and the text arena.
pub struct GrammarModel {
    pub prods: Seq<ProdModel>,
    pub nt_prods: Seq<Seq<usize>>,
    pub names: Seq<Seq<char>>,
    pub texts: Seq<Seq<char>>,
}

impl<H, M> View for Context<H, M> {
    type V = GrammarModel;

    open spec fn view(&self) -> GrammarModel {
        GrammarModel {
            prods: self.productions@.map(|i: int, p: Production<H, M>| p@),
            nt_prods: self.nonterminals@.map(|i: int, n: Nonterminal| n@),
            names: self.nonterminals_by_name.deep_view(),
            texts: self.texts.deep_view(),
        }
    }
}

/// No two entries of the arena hold the same content.
pub open spec fn seq_distinct(xs: Seq<Seq<char>>) -> bool {
    forall|i: int, j: int| 0 <= i < j < xs.len() ==> xs[i] != xs[j]
}

/// A chunk points into the production's own reference list or into the text
/// arena.
pub open spec fn chunk_wf(c: Chunk, n_refs: nat, n_texts: nat) -> bool {
    match c {
        Chunk::Text(t) => (t.0 as nat) < n_texts,
        Chunk::Nt(i) => (i as nat) < n_refs,
    }
}

/// A nonterminal reference names an existing nonterminal, and every variable
/// among its arguments is one of the owning production's `n_vars` variables.
pub open spec fn nt_ref_wf(r: NtRefModel, n_nts: nat, n_vars: nat) -> bool {
    &&& (r.id as nat) < n_nts
    &&& forall|i: int|
        0 <= i < r.args.len() ==> (#[trigger] r.args[i] matches Ty::Var(v) ==> (v.0 as nat)
            < n_vars)
}

/// Well-formedness of one compiled production.
pub open spec fn prod_wf(p: ProdModel, n_nts: nat, n_texts: nat) -> bool {
    &&& forall|k: int|
        0 <= k < p.chunks.len() ==> chunk_wf(#[trigger] p.chunks[k], p.nts.len(), n_texts)
    &&& forall|k: int| 0 <= k < p.nts.len() ==> nt_ref_wf(#[trigger] p.nts[k], n_nts, p.vars.len())
    &&& forall|i: int|
        0 <= i < p.args.len() ==> (#[trigger] p.args[i] matches Ty::Var(v) ==> (v.0 as nat)
            < p.vars.len())
}

/// The production index `p` is recorded in some nonterminal's list.
pub open spec fn prod_owned(nt_prods: Seq<Seq<usize>>, p: int) -> bool {
    exists|i: int, j: int|
        0 <= i < nt_prods.len() && 0 <= j < nt_prods[i].len() && (#[trigger] nt_prods[i][j]) == p
}

/// Each production index is recorded at exactly one position of exactly one
/// nonterminal's list, and every production below `n_prods` is recorded
/// somewhere.
pub open spec fn owned_once(nt_prods: Seq<Seq<usize>>, n_prods: nat) -> bool {
    &&& forall|i1: int, j1: int, i2: int, j2: int|
        0 <= i1 < nt_prods.len() && 0 <= j1 < nt_prods[i1].len() && 0 <= i2 < nt_prods.len()
            && 0 <= j2 < nt_prods[i2].len() && (i1 != i2 || j1 != j2) ==> (#[trigger] nt_prods[i1][j1])
            != (#[trigger] nt_prods[i2][j2])
    &&& forall|p: int| 0 <= p < n_prods ==> #[trigger] prod_owned(nt_prods, p)
}

impl GrammarModel {
    /// Well-formedness of the whole grammar: one name per nonterminal, both
    /// arenas duplicate-free, every registered production index valid and
    /// recorded in exactly one owning nonterminal's list, and every
    /// production well formed.
    pub open spec fn wf(self) -> bool {
        &&& self.nt_prods.len() == self.names.len()
        &&& seq_distinct(self.names)
        &&& seq_distinct(self.texts)
        &&& forall|i: int, j: int|
            0 <= i < self.nt_prods.len() && 0 <= j < self.nt_prods[i].len()
                ==> (#[trigger] self.nt_prods[i][j] as nat) < self.prods.len()
        &&& owned_once(self.nt_prods, self.prods.len())
        &&& forall|p: int|
            0 <= p < self.prods.len() ==> prod_wf(
                #[trigger] self.prods[p],
                self.nt_prods.len(),
                self.texts.len(),
            )
    }
}

impl<H, M> Context<H, M> {
    /// The finished grammar satisfies the model's well-formedness.
    pub open spec fn wf(self) -> bool {
        self@.wf()
    }
}

} // verus!

//! The expansion engine: walks a finished grammar from a start nonterminal
//! occurrence, enumerates the viable (production, instance) candidates of
//! each pending occurrence, queries the per-production handler and
//! multiplicity capabilities, binds type variables by unification, and
//! accumulates the generated token stream.
//!
//! A handler's rejection of one candidate is local and recoverable: the
//! engine tries the next candidate, and only exhaustion of every candidate
//! for a pending occurrence fails the run.  A rejected candidate never
//! mutates committed state: the handler works on a scratch copy that is
//! committed only on success.

use vstd::prelude::*;
use crate::grammar::{
    Chunk, Context, GrammarModel, NtRefModel, NonterminalRef, ProdModel, TextId, clone_nt_ref,
};
use crate::ty::{
    Ty, VarId, lemma_unify_fresh_vars, spec_empty_bindings, spec_subst, spec_unify, subst_args,
    unify_args,
};

verus! {

/// The mutable state shared across one expansion run: the bindings the
/// handlers record.  Each run owns its own instance.
pub struct ExpState {
    pub vals: Vec<u64>,
}

impl View for ExpState {
    type V = Seq<u64>;

    open spec fn view(&self) -> Seq<u64> {
        self.vals@
    }
}

impl ExpState {
    /// A fresh run starts with no recorded bindings.
    pub fn new() -> (st: Self)
        ensures
            st@ == Seq::<u64>::empty(),
    {
        ExpState { vals: Vec::new() }
    }
}

/// The in-progress result of expanding one production instance: the tokens
/// a handler appends before the production's own chunks are committed.
pub struct PartialExpansion {
    pub tokens: Vec<TextId>,
}

impl View for PartialExpansion {
    type V = Seq<TextId>;

    open spec fn view(&self) -> Seq<TextId> {
        self.tokens@
    }
}

impl PartialExpansion {
    /// Each candidate instance starts from an empty partial expansion.
    pub fn new() -> (pe: Self)
        ensures
            pe@ == Seq::<TextId>::empty(),
    {
        PartialExpansion { tokens: Vec::new() }
    }
}

/// A multiplicity capability: computes, from the current expansion state
/// alone, how many alternative instances a production family yields.
pub trait ProductionMultiplicity {
    fn count(&self, st: &ExpState) -> usize;
}

/// A handler capability: decides whether instance `index` of its production
/// is acceptable here, and may extend the partial expansion and record
/// bindings as a side effect.  Returning `false` rejects the candidate.
pub trait ProductionHandler<M: ProductionMultiplicity>: Sized {
    fn apply(
        &self,
        ctx: &Context<Self, M>,
        st: &mut ExpState,
        pe: &mut PartialExpansion,
        index: usize,
    ) -> bool;
}

/// The handler of a grammar that needs no guards: accepts every candidate.
pub struct NullHandler;

impl<M: ProductionMultiplicity> ProductionHandler<M> for NullHandler {
    fn apply(
        &self,
        _ctx: &Context<Self, M>,
        _st: &mut ExpState,
        _pe: &mut PartialExpansion,
        _index: usize,
    ) -> bool {
        true
    }
}

/// The multiplicity of a grammar that needs no families: always one.
pub struct UnitMultiplicity;

impl ProductionMultiplicity for UnitMultiplicity {
    fn count(&self, _st: &ExpState) -> usize {
        1
    }
}

/// One pending unit of work: literal text to emit, or a nonterminal
/// occurrence to expand.
#[derive(Debug)]
pub enum WorkItem {
    Emit(TextId),
    Expand(NonterminalRef),
}

/// Model of a [`WorkItem`].
pub enum WiModel {
    Emit(TextId),
    Expand(NtRefModel),
}

impl View for WorkItem {
    type V = WiModel;

    open spec fn view(&self) -> WiModel {
        match self {
            WorkItem::Emit(t) => WiModel::Emit(*t),
            WorkItem::Expand(r) => WiModel::Expand(r@),
        }
    }
}

/// A pending work item is valid for a grammar: its text handle points into
/// the text arena, or its occurrence names an existing nonterminal.
pub open spec fn wi_wf(w: WiModel, n_nts: nat, n_texts: nat) -> bool {
    match w {
        WiModel::Emit(t) => (t.0 as nat) < n_texts,
        WiModel::Expand(r) => (r.id as nat) < n_nts,
    }
}

/// The outcome of one expansion run: the generated token stream; or the
/// identity of the nonterminal whose candidates were exhausted with no
/// successful one — "no viable expansion", not a defect of the grammar; or
/// a run whose step budget ran out before the pending work drained.
#[derive(Debug)]
pub enum ExpandResult {
    Done(Vec<TextId>),
    Exhausted(usize),
    Incomplete,
}

/// The candidate instances of one production: instance indices `0..k`.
pub open spec fn spec_group(p: usize, k: usize) -> Seq<(usize, usize)> {
    Seq::new(k as nat, |j: int| (p, j as usize))
}

/// All candidate (production, instance) pairs of a production list, given
/// each production's instance count, in order: every instance of the first
/// production, then every instance of the second, and so on.
pub open spec fn spec_candidates(ps: Seq<usize>, ks: Seq<usize>) -> Seq<(usize, usize)>
    decreases ps.len(),
{
    if ps.len() == 0 || ps.len() != ks.len() {
        Seq::empty()
    } else {
        spec_group(ps[0], ks[0]) + spec_candidates(ps.drop_first(), ks.drop_first())
    }
}

proof fn lemma_candidates_snoc(ps: Seq<usize>, ks: Seq<usize>, p: usize, k: usize)
    requires
        ps.len() == ks.len(),
    ensures
        spec_candidates(ps.push(p), ks.push(k)) == spec_candidates(ps, ks) + spec_group(p, k),
    decreases ps.len(),
{
    if ps.len() == 0 {
        assert(ps.push(p).drop_first() =~= Seq::<usize>::empty());
        assert(ks.push(k).drop_first() =~= Seq::<usize>::empty());
        assert(spec_candidates(Seq::<usize>::empty(), Seq::<usize>::empty())
            == Seq::<(usize, usize)>::empty());
        assert(ps.push(p)[0] == p);
        assert(ks.push(k)[0] == k);
        assert(spec_candidates(ps.push(p), ks.push(k)) =~= spec_candidates(ps, ks) + spec_group(
            p,
            k,
        ));
    } else {
        assert(ps.push(p).drop_first() =~= ps.drop_first().push(p));
        assert(ks.push(k).drop_first() =~= ks.drop_first().push(k));
        lemma_candidates_snoc(ps.drop_first(), ks.drop_first(), p, k);
        assert(spec_candidates(ps.push(p), ks.push(k)) =~= spec_candidates(ps, ks) + spec_group(
            p,
            k,
        ));
    }
}

proof fn lemma_candidates_complete(ps: Seq<usize>, ks: Seq<usize>, w: int, j: usize)
    requires
        ps.len() == ks.len(),
        0 <= w < ps.len(),
        (j as nat) < ks[w],
    ensures
        exists|c: int|
            0 <= c < spec_candidates(ps, ks).len() && #[trigger] spec_candidates(ps, ks)[c] == (
            ps[w],
            j,
            ),
    decreases ps.len(),
{
    let r = spec_candidates(ps, ks);
    if w == 0 {
        assert(spec_group(ps[0], ks[0])[j as int] == (ps[0], j));
        assert(r[j as int] == (ps[0], j));
    } else {
        lemma_candidates_complete(ps.drop_first(), ks.drop_first(), w - 1, j);
        let rest = spec_candidates(ps.drop_first(), ks.drop_first());
        let c0 = choose|c0: int|
            0 <= c0 < rest.len() && #[trigger] rest[c0] == (ps.drop_first()[w - 1], j);
        assert(ps.drop_first()[w - 1] == ps[w]);
        assert(r[ks[0] + c0] == (ps[w], j));
    }
}

/// A plain production: no handler to reject a candidate, no multiplicity
/// capability (so it yields exactly one instance), and a parameter list that
/// unifies with the occurrence's arguments.  Such a production can never be
/// rejected, so an occurrence that has one cannot exhaust.
pub open spec fn plain_viable(g: GrammarModel, p: usize, occ: NtRefModel) -> bool {
    &&& !g.prods[p as int].has_handler
    &&& !g.prods[p as int].has_multiplicity
    &&& g.prods[p as int].args.len() == occ.args.len()
    &&& spec_unify(
        spec_empty_bindings(g.prods[p as int].vars.len()),
        g.prods[p as int].args,
        occ.args,
    ) is Some
}

/// The models of a stack of pending work items.
pub open spec fn wi_models(ws: Seq<WorkItem>) -> Seq<WiModel> {
    ws.map(|i: int, w: WorkItem| w@)
}

/// A production that derives its nonterminal unconditionally: no handler to
/// reject it, no multiplicity capability (so it always yields exactly one
/// instance), and a parameter list of `n` distinct fresh variables, which
/// unifies with any argument list of length `n`.
pub open spec fn universal_prod(pm: ProdModel, n: usize) -> bool {
    &&& !pm.has_handler
    &&& !pm.has_multiplicity
    &&& pm.args.len() == n
    &&& (n as nat) <= pm.vars.len()
    &&& n <= u32::MAX
    &&& forall|i: int| 0 <= i < n ==> pm.args[i] == Ty::Var(VarId(i as u32))
}

/// The nonterminal `n` has a universal production of arity `k` registered.
pub open spec fn has_universal(g: GrammarModel, n: int, k: usize) -> bool {
    exists|j: int|
        0 <= j < g.nt_prods[n].len() && universal_prod(
            g.prods[(#[trigger] g.nt_prods[n][j]) as int],
            k,
        )
}

/// A grammar in which every occurrence is always derivable: each
/// nonterminal declares an arity, every reference in the grammar supplies
/// its target's declared arity, and every nonterminal has a universal
/// production of that arity.  Expanding such a grammar can never exhaust an
/// occurrence whose argument count is its nonterminal's declared arity.
pub open spec fn plain_grammar(g: GrammarModel, arity: Seq<usize>) -> bool {
    &&& arity.len() == g.nt_prods.len()
    &&& forall|n: int| 0 <= n < g.nt_prods.len() ==> #[trigger] has_universal(g, n, arity[n])
    &&& forall|p: int, k: int|
        0 <= p < g.prods.len() && 0 <= k < g.prods[p].nts.len()
            ==> (#[trigger] g.prods[p].nts[k]).args.len() == arity[g.prods[p].nts[k].id as int]
}

/// A pending work item respects the declared arities: an occurrence
/// supplies exactly its nonterminal's arity.
pub open spec fn wi_arity_ok(w: WiModel, arity: Seq<usize>) -> bool {
    match w {
        WiModel::Emit(t) => true,
        WiModel::Expand(o) => o.args.len() == arity[o.id as int],
    }
}

/// What committing one production schedules, as a whole: its chunks in
/// reverse order, each turned into a work item with the binding table `b`
/// substituted into every scheduled reference.
pub open spec fn spec_sched_all(pm: ProdModel, b: Seq<Option<Ty>>) -> Seq<WiModel> {
    Seq::new(pm.chunks.len(), |m: int| spec_sched(pm, b, pm.chunks[pm.chunks.len() - 1 - m]))
}

/// What committing one candidate means: production `p` is registered under
/// the occurrence's nonterminal, its parameters unify with the occurrence's
/// arguments under the binding table `b`, the handler's tokens `toks` are
/// appended to the output, and the production's chunks are scheduled onto
/// the work stack in reverse order with `b` substituted into each scheduled
/// reference.
pub open spec fn expansion_commit(
    g: GrammarModel,
    occ: NtRefModel,
    p: usize,
    b: Seq<Option<Ty>>,
    toks: Seq<TextId>,
    out0: Seq<TextId>,
    out1: Seq<TextId>,
    work0: Seq<WiModel>,
    work1: Seq<WiModel>,
) -> bool {
    &&& g.nt_prods[occ.id as int].contains(p)
    &&& g.prods[p as int].args.len() == occ.args.len()
    &&& spec_unify(
        spec_empty_bindings(g.prods[p as int].vars.len()),
        g.prods[p as int].args,
        occ.args,
    ) == Some(b)
    &&& out1 == out0 + toks
    &&& work1 == work0 + spec_sched_all(g.prods[p as int], b)
}

/// One expansion step over a configuration — the output accumulated so far
/// and the pending work, latest item last: an emission moves its token to
/// the output; an occurrence is replaced by a committed production's tokens
/// and scheduled chunks.
pub open spec fn expansion_step(
    g: GrammarModel,
    out0: Seq<TextId>,
    work0: Seq<WiModel>,
    out1: Seq<TextId>,
    work1: Seq<WiModel>,
) -> bool {
    &&& work0.len() > 0
    &&& match work0.last() {
        WiModel::Emit(t) => out1 == out0.push(t) && work1 == work0.drop_last(),
        WiModel::Expand(occ) => exists|p: usize, b: Seq<Option<Ty>>, toks: Seq<TextId>|
            expansion_commit(g, occ, p, b, toks, out0, out1, work0.drop_last(), work1),
    }
}

/// The configuration `(out1, work1)` is reachable from `(out0, work0)` in
/// exactly `n` expansion steps.
pub open spec fn derives_in(
    g: GrammarModel,
    n: nat,
    out0: Seq<TextId>,
    work0: Seq<WiModel>,
    out1: Seq<TextId>,
    work1: Seq<WiModel>,
) -> bool
    decreases n,
{
    if n == 0 {
        out0 == out1 && work0 == work1
    } else {
        exists|om: Seq<TextId>, wm: Seq<WiModel>|
            expansion_step(g, out0, work0, om, wm) && derives_in(
                g,
                (n - 1) as nat,
                om,
                wm,
                out1,
                work1,
            )
    }
}

/// The token stream `out` is a complete, grammar-conformant expansion of
/// the occurrence `start`: a finite run of expansion steps takes the
/// initial configuration to `out` with no pending work left.
pub open spec fn derivation(g: GrammarModel, start: NtRefModel, out: Seq<TextId>) -> bool {
    exists|n: nat| derives_in(g, n, Seq::empty(), seq![WiModel::Expand(start)], out, Seq::empty())
}

proof fn lemma_derives_extend(
    g: GrammarModel,
    n: nat,
    o0: Seq<TextId>,
    w0: Seq<WiModel>,
    o1: Seq<TextId>,
    w1: Seq<WiModel>,
    o2: Seq<TextId>,
    w2: Seq<WiModel>,
)
    requires
        derives_in(g, n, o0, w0, o1, w1),
        expansion_step(g, o1, w1, o2, w2),
    ensures
        derives_in(g, (n + 1) as nat, o0, w0, o2, w2),
    decreases n,
{
    if n == 0 {
        assert(expansion_step(g, o0, w0, o2, w2));
        assert(derives_in(g, 0, o2, w2, o2, w2));
    } else {
        let (om, wm) = choose|om: Seq<TextId>, wm: Seq<WiModel>|
            expansion_step(g, o0, w0, om, wm) && derives_in(g, (n - 1) as nat, om, wm, o1, w1);
        lemma_derives_extend(g, (n - 1) as nat, om, wm, o1, w1, o2, w2);
        assert(expansion_step(g, o0, w0, om, wm) && derives_in(g, n as nat, om, wm, o2, w2));
    }
}

/// Queries each production's multiplicity capability against the current
/// state; a production without one yields exactly one instance.
pub fn candidate_counts<H: ProductionHandler<M>, M: ProductionMultiplicity>(
    ctx: &Context<H, M>,
    st: &ExpState,
    prod_ids: &Vec<usize>,
) -> (ks: Vec<usize>)
    requires
        forall|i: int| 0 <= i < prod_ids@.len() ==> (#[trigger] prod_ids@[i] as nat) < ctx@.prods.len(),
    ensures
        ks@.len() == prod_ids@.len(),
        forall|i: int|
            0 <= i < ks@.len() && !ctx@.prods[prod_ids@[i] as int].has_multiplicity
                ==> #[trigger] ks@[i] == 1,
{
    let mut ks: Vec<usize> = Vec::new();
    let mut i: usize = 0;
    while i < prod_ids.len()
        invariant
            forall|j: int| 0 <= j < prod_ids@.len() ==> (#[trigger] prod_ids@[j] as nat) < ctx@.prods.len(),
            i <= prod_ids@.len(),
            ks@.len() == i,
            forall|j: int|
                0 <= j < i && !ctx@.prods[prod_ids@[j] as int].has_multiplicity
                    ==> #[trigger] ks@[j] == 1,
        decreases prod_ids@.len() - i,
    {
        let p = prod_ids[i];
        proof {
            assert(ctx@.prods[p as int] == ctx.productions@[p as int]@);
        }
        let k: usize = match &ctx.productions[p].multiplicity {
            Some(m) => m.count(st),
            None => 1,
        };
        ks.push(k);
        i = i + 1;
    }
    ks
}

/// Lists every candidate (production, instance) pair, in order: the engine's
/// exhaustive enumeration, exposed so a caller can see all viable pairs.
pub fn enumerate_candidates(ps: &Vec<usize>, ks: &Vec<usize>) -> (r: Vec<(usize, usize)>)
    requires
        ps@.len() == ks@.len(),
    ensures
        r@ == spec_candidates(ps@, ks@),
        forall|c: int|
            0 <= c < r@.len() ==> exists|i: int|
                0 <= i < ps@.len() && (#[trigger] r@[c]).0 == ps@[i] && r@[c].1 < ks@[i],
{
    let mut r: Vec<(usize, usize)> = Vec::new();
    let mut i: usize = 0;
    proof {
        assert(ps@.take(0) =~= Seq::<usize>::empty());
        assert(ks@.take(0) =~= Seq::<usize>::empty());
    }
    while i < ps.len()
        invariant
            ps@.len() == ks@.len(),
            i <= ps@.len(),
            r@ == spec_candidates(ps@.take(i as int), ks@.take(i as int)),
            forall|c: int|
                0 <= c < r@.len() ==> exists|w: int|
                    0 <= w < ps@.len() && (#[trigger] r@[c]).0 == ps@[w] && r@[c].1 < ks@[w],
        decreases ps@.len() - i,
    {
        let p = ps[i];
        let k = ks[i];
        let ghost r0 = r@;
        let mut j: usize = 0;
        proof {
            assert(spec_group(p, 0) =~= Seq::<(usize, usize)>::empty());
            assert(r@ =~= r0 + spec_group(p, 0));
        }
        while j < k
            invariant
                0 <= i < ps@.len(),
                ps@.len() == ks@.len(),
                p == ps@[i as int],
                k == ks@[i as int],
                j <= k,
                r@ == r0 + spec_group(p, j),
                forall|c: int|
                    0 <= c < r@.len() ==> exists|w: int|
                        0 <= w < ps@.len() && (#[trigger] r@[c]).0 == ps@[w] && r@[c].1 < ks@[w],
            decreases k - j,
        {
            r.push((p, j));
            proof {
                assert(spec_group(p, (j + 1) as usize) =~= spec_group(p, j).push(
                    (p, j),
                ));
                assert(r@ =~= r0 + spec_group(p, (j + 1) as usize));
            }
            j = j + 1;
        }
        proof {
            lemma_candidates_snoc(ps@.take(i as int), ks@.take(i as int), p, k);
            assert(ps@.take(i + 1) =~= ps@.take(i as int).push(p));
            assert(ks@.take(i + 1) =~= ks@.take(i as int).push(k));
        }
        i = i + 1;
    }
    proof {
        assert(ps@.take(ps@.len() as int) =~= ps@);
        assert(ks@.take(ks@.len() as int) =~= ks@);
    }
    r
}

fn copy_state(st: &ExpState) -> (r: ExpState)
    ensures
        r@ == st@,
{
    let mut vals: Vec<u64> = Vec::new();
    let mut i: usize = 0;
    while i < st.vals.len()
        invariant
            i <= st.vals@.len(),
            vals@ == st.vals@.take(i as int),
        decreases st.vals@.len() - i,
    {
        vals.push(st.vals[i]);
        proof {
            assert(vals@ =~= st.vals@.take(i + 1 as int));
        }
        i = i + 1;
    }
    proof {
        assert(st.vals@.take(st.vals@.len() as int) =~= st.vals@);
    }
    ExpState { vals }
}

fn tokens_valid<H, M>(ctx: &Context<H, M>, pe: &PartialExpansion) -> (ok: bool)
    ensures
        ok == forall|i: int| 0 <= i < pe@.len() ==> ((#[trigger] pe@[i]).0 as nat) < ctx@.texts.len(),
{
    let mut i: usize = 0;
    while i < pe.tokens.len()
        invariant
            i <= pe@.len(),
            forall|j: int| 0 <= j < i ==> ((#[trigger] pe@[j]).0 as nat) < ctx@.texts.len(),
        decreases pe@.len() - i,
    {
        if pe.tokens[i].0 >= ctx.texts.len() {
            return false;
        }
        i = i + 1;
    }
    true
}

/// What committing one chunk schedules: literal text becomes an emission;
/// a reference becomes a new occurrence with the production's bindings
/// substituted into its arguments.
pub open spec fn spec_sched(pm: ProdModel, b: Seq<Option<Ty>>, c: Chunk) -> WiModel {
    match c {
        Chunk::Text(t) => WiModel::Emit(t),
        Chunk::Nt(i) => WiModel::Expand(
            NtRefModel {
                id: pm.nts[i as int].id,
                args: Seq::new(
                    pm.nts[i as int].args.len(),
                    |j: int| spec_subst(pm.nts[i as int].args[j], b),
                ),
            },
        ),
    }
}

/// Pushes the production's chunks onto the work stack in reverse order, so
/// that they are processed left to right.
fn schedule_chunks<H, M>(
    ctx: &Context<H, M>,
    p: usize,
    b: &Vec<Option<Ty>>,
    work: &mut Vec<WorkItem>,
) -> (n_new: usize)
    requires
        ctx@.wf(),
        (p as nat) < ctx@.prods.len(),
    ensures
        n_new == ctx@.prods[p as int].chunks.len(),
        final(work)@.len() == old(work)@.len() + n_new,
        forall|j: int| 0 <= j < old(work)@.len() ==> #[trigger] final(work)@[j] == old(work)@[j],
        forall|m: int|
            0 <= m < n_new ==> (#[trigger] final(work)@[old(work)@.len() + m])@ == spec_sched(
                ctx@.prods[p as int],
                b@,
                ctx@.prods[p as int].chunks[n_new - 1 - m],
            ),
{
    let ghost pm = ctx@.prods[p as int];
    let ghost w0 = work@;
    proof {
        assert(ctx@.prods[p as int] == ctx.productions@[p as int]@);
    }
    let chunks_len = ctx.productions[p].chunks.len();
    let mut k: usize = chunks_len;
    while k > 0
        invariant
            ctx@.wf(),
            (p as nat) < ctx@.prods.len(),
            pm == ctx@.prods[p as int],
            chunks_len == pm.chunks.len(),
            k <= chunks_len,
            work@.len() == w0.len() + (chunks_len - k),
            forall|j: int| 0 <= j < w0.len() ==> #[trigger] work@[j] == w0[j],
            forall|m: int|
                0 <= m < chunks_len - k ==> (#[trigger] work@[w0.len() + m])@ == spec_sched(
                    pm,
                    b@,
                    pm.chunks[chunks_len - 1 - m],
                ),
        decreases k,
    {
        let idx = k - 1;
        proof {
            assert(ctx@.prods[p as int] == ctx.productions@[p as int]@);
            assert(crate::grammar::prod_wf(pm, ctx@.nt_prods.len(), ctx@.texts.len()));
            assert(crate::grammar::chunk_wf(pm.chunks[idx as int], pm.nts.len(), ctx@.texts.len()));
        }
        match ctx.productions[p].chunks[idx] {
            Chunk::Text(t) => {
                work.push(WorkItem::Emit(t));
            },
            Chunk::Nt(i) => {
                let nr = &ctx.productions[p].nts[i];
                let args = subst_args(&nr.args, b);
                let item = WorkItem::Expand(NonterminalRef { id: nr.id, args });
                proof {
                    assert(nr@ == pm.nts[i as int]);
                    assert(item@->Expand_0.args =~= spec_sched(pm, b@, pm.chunks[idx as int])->Expand_0.args);
                }
                work.push(item);
            },
        }
        k = idx;
    }
    chunks_len
}

/// Tries every candidate of one pending occurrence, in order, committing
/// the first acceptable one: its handler's tokens are appended to the
/// output, its chunks are scheduled, and the handler's state changes are
/// kept.  When every candidate is rejected, nothing at all has changed —
/// and that can only happen when the occurrence has no plain production,
/// since a plain production's single candidate cannot be rejected.
pub fn expand_occurrence<H: ProductionHandler<M>, M: ProductionMultiplicity>(
    ctx: &Context<H, M>,
    st: &mut ExpState,
    occ: &NonterminalRef,
    out: &mut Vec<TextId>,
    work: &mut Vec<WorkItem>,
) -> (ok: bool)
    requires
        ctx@.wf(),
        (occ@.id as nat) < ctx@.nt_prods.len(),
        forall|i: int| 0 <= i < old(out)@.len() ==> ((#[trigger] old(out)@[i]).0 as nat) < ctx@.texts.len(),
        forall|w: int|
            0 <= w < old(work)@.len() ==> wi_wf(
                (#[trigger] old(work)@[w])@,
                ctx@.nt_prods.len(),
                ctx@.texts.len(),
            ),
    ensures
        forall|i: int| 0 <= i < final(out)@.len() ==> ((#[trigger] final(out)@[i]).0 as nat) < ctx@.texts.len(),
        forall|w: int|
            0 <= w < final(work)@.len() ==> wi_wf(
                (#[trigger] final(work)@[w])@,
                ctx@.nt_prods.len(),
                ctx@.texts.len(),
            ),
        !ok ==> final(out)@ == old(out)@ && final(work)@ == old(work)@ && *final(st) == *old(st),
        ok ==> exists|p: usize, b: Seq<Option<Ty>>, toks: Seq<TextId>|
            expansion_commit(
                ctx@,
                occ@,
                p,
                b,
                toks,
                old(out)@,
                final(out)@,
                wi_models(old(work)@),
                wi_models(final(work)@),
            ),
        (exists|w: int|
            0 <= w < ctx@.nt_prods[occ@.id as int].len() && plain_viable(
                ctx@,
                #[trigger] ctx@.nt_prods[occ@.id as int][w],
                occ@,
            )) ==> ok,
{
    let nt = occ.id;
    proof {
        assert(ctx@.nt_prods[nt as int] == ctx.nonterminals@[nt as int]@);
    }
    let prod_list = &ctx.nonterminals[nt].productions;
    proof {
        assert forall|i: int| 0 <= i < prod_list@.len() implies (#[trigger] prod_list@[i] as nat)
            < ctx@.prods.len() by {
            assert(ctx@.nt_prods[nt as int][i] == prod_list@[i]);
        }
    }
    let ks = candidate_counts(ctx, st, prod_list);
    let cands = enumerate_candidates(prod_list, &ks);
    let mut ci: usize = 0;
    while ci < cands.len()
        invariant
            ctx@.wf(),
            nt == occ@.id,
            (nt as nat) < ctx@.nt_prods.len(),
            prod_list@ == ctx@.nt_prods[nt as int],
            ks@.len() == prod_list@.len(),
            forall|w: int|
                0 <= w < ks@.len() && !ctx@.prods[prod_list@[w] as int].has_multiplicity
                    ==> #[trigger] ks@[w] == 1,
            cands@ == spec_candidates(prod_list@, ks@),
            forall|c: int|
                0 <= c < cands@.len() ==> exists|w: int|
                    0 <= w < prod_list@.len() && (#[trigger] cands@[c]).0 == prod_list@[w],
            forall|c: int|
                0 <= c < ci ==> !plain_viable(ctx@, (#[trigger] cands@[c]).0, occ@),
            forall|i: int| 0 <= i < prod_list@.len() ==> (#[trigger] prod_list@[i] as nat) < ctx@.prods.len(),
            ci <= cands@.len(),
            out@ == old(out)@,
            work@ == old(work)@,
            *st == *old(st),
            forall|i: int| 0 <= i < out@.len() ==> ((#[trigger] out@[i]).0 as nat) < ctx@.texts.len(),
            forall|w: int|
                0 <= w < work@.len() ==> wi_wf(
                    (#[trigger] work@[w])@,
                    ctx@.nt_prods.len(),
                    ctx@.texts.len(),
                ),
        decreases cands@.len() - ci,
    {
        let (p, inst) = cands[ci];
        proof {
            let w = choose|w: int|
                0 <= w < prod_list@.len() && cands@[ci as int].0 == prod_list@[w];
            assert((prod_list@[w] as nat) < ctx@.prods.len());
            assert(ctx@.prods[p as int] == ctx.productions@[p as int]@);
        }
        let prod = &ctx.productions[p];
        if prod.args.len() == occ.args.len() {
            match unify_args(&prod.args, &occ.args, prod.vars.len()) {
                Some(bindings) => {
                    let mut st_try = copy_state(st);
                    let mut pe = PartialExpansion::new();
                    let accepted = match &prod.handler {
                        Some(h) => h.apply(ctx, &mut st_try, &mut pe, inst),
                        None => true,
                    };
                    let valid = tokens_valid(ctx, &pe);
                    if accepted && valid {
                        let ghost out0 = out@;
                        let mut ti: usize = 0;
                        while ti < pe.tokens.len()
                            invariant
                                ctx@.wf(),
                                ti <= pe@.len(),
                                out@ == out0 + pe@.take(ti as int),
                                forall|i: int|
                                    0 <= i < pe@.len() ==> ((#[trigger] pe@[i]).0 as nat)
                                        < ctx@.texts.len(),
                                forall|i: int|
                                    0 <= i < out@.len() ==> ((#[trigger] out@[i]).0 as nat)
                                        < ctx@.texts.len(),
                            decreases pe@.len() - ti,
                        {
                            out.push(pe.tokens[ti]);
                            proof {
                                assert(out@ =~= out0 + pe@.take(ti + 1 as int));
                            }
                            ti = ti + 1;
                        }
                        proof {
                            assert(pe@.take(pe@.len() as int) =~= pe@);
                        }
                        let ghost w1 = work@;
                        let n_new = schedule_chunks(ctx, p, &bindings, work);
                        proof {
                            let pm = ctx@.prods[p as int];
                            assert(crate::grammar::prod_wf(
                                pm,
                                ctx@.nt_prods.len(),
                                ctx@.texts.len(),
                            ));
                            assert forall|w: int| 0 <= w < work@.len() implies wi_wf(
                                (#[trigger] work@[w])@,
                                ctx@.nt_prods.len(),
                                ctx@.texts.len(),
                            ) by {
                                if w < w1.len() {
                                    assert(work@[w] == w1[w]);
                                } else {
                                    let m = w - w1.len();
                                    let c = pm.chunks[n_new - 1 - m];
                                    assert(work@[w1.len() + m]@ == spec_sched(
                                        pm,
                                        bindings@,
                                        pm.chunks[n_new - 1 - m],
                                    ));
                                    assert(crate::grammar::chunk_wf(
                                        c,
                                        pm.nts.len(),
                                        ctx@.texts.len(),
                                    ));
                                    match c {
                                        Chunk::Text(t) => {},
                                        Chunk::Nt(i) => {
                                            assert(crate::grammar::nt_ref_wf(
                                                pm.nts[i as int],
                                                ctx@.nt_prods.len(),
                                                pm.vars.len(),
                                            ));
                                        },
                                    }
                                }
                            }
                        }
                        proof {
                            let pm = ctx@.prods[p as int];
                            assert(pm == ctx.productions@[p as int]@);
                            assert(pm.vars.len() == prod.vars@.len());
                            let w = choose|w: int|
                                0 <= w < prod_list@.len() && cands@[ci as int].0 == prod_list@[w];
                            assert(ctx@.nt_prods[nt as int][w] == p);
                            assert(ctx@.nt_prods[occ@.id as int].contains(p));
                            assert forall|mi: int| 0 <= mi < wi_models(work@).len() implies
                                wi_models(work@)[mi] == (wi_models(w1) + spec_sched_all(
                                pm,
                                bindings@,
                            ))[mi] by {
                                if mi < w1.len() {
                                    assert(work@[mi] == w1[mi]);
                                } else {
                                    assert(work@[w1.len() + (mi - w1.len())]@ == spec_sched(
                                        pm,
                                        bindings@,
                                        pm.chunks[n_new - 1 - (mi - w1.len())],
                                    ));
                                }
                            }
                            assert(wi_models(work@) =~= wi_models(w1) + spec_sched_all(
                                pm,
                                bindings@,
                            ));
                            assert(expansion_commit(
                                ctx@,
                                occ@,
                                p,
                                bindings@,
                                pe@,
                                old(out)@,
                                out@,
                                wi_models(old(work)@),
                                wi_models(work@),
                            ));
                        }
                        *st = st_try;
                        return true;
                    }
                    proof {
                        let pm = ctx@.prods[p as int];
                        if !pm.has_handler {
                            assert(accepted);
                            assert(pe@ =~= Seq::<TextId>::empty());
                            assert(valid);
                            assert(false);
                        }
                        assert(!plain_viable(ctx@, p, occ@));
                    }
                },
                None => {
                    proof {
                        let pm = ctx@.prods[p as int];
                        assert(pm.vars.len() == prod.vars@.len());
                        assert(!plain_viable(ctx@, p, occ@));
                    }
                },
            }
        } else {
            proof {
                assert(!plain_viable(ctx@, p, occ@));
            }
        }
        ci = ci + 1;
    }
    proof {
        if exists|w: int|
            0 <= w < ctx@.nt_prods[occ@.id as int].len() && plain_viable(
                ctx@,
                #[trigger] ctx@.nt_prods[occ@.id as int][w],
                occ@,
            ) {
            let w = choose|w: int|
                0 <= w < ctx@.nt_prods[occ@.id as int].len() && plain_viable(
                    ctx@,
                    #[trigger] ctx@.nt_prods[occ@.id as int][w],
                    occ@,
                );
            assert(prod_list@[w] == ctx@.nt_prods[occ@.id as int][w]);
            assert(ks@[w] == 1);
            lemma_candidates_complete(prod_list@, ks@, w, 0);
            let c = choose|c: int|
                0 <= c < spec_candidates(prod_list@, ks@).len() && #[trigger] spec_candidates(
                    prod_list@,
                    ks@,
                )[c] == (prod_list@[w], 0usize);
            assert(cands@[c].0 == prod_list@[w]);
            assert(!plain_viable(ctx@, cands@[c].0, occ@));
            assert(false);
        }
    }
    false
}

/// Expands one occurrence of a start nonterminal to a finished token
/// stream.  The run is complete when no pending work is left; it fails with
/// the identity of the first pending occurrence all of whose candidates
/// were rejected.  A finished stream is a grammar-conformant derivation of
/// the start occurrence, and its every token points into the grammar's text
/// arena.  `max_steps` bounds the work the run may do: a run that performs
/// that many expansion steps without draining the pending work yields
/// `Incomplete`.
pub fn expand<H: ProductionHandler<M>, M: ProductionMultiplicity>(
    ctx: &Context<H, M>,
    start: &NonterminalRef,
    st: &mut ExpState,
    max_steps: usize,
) -> (r: ExpandResult)
    requires
        ctx@.wf(),
        (start@.id as nat) < ctx@.nt_prods.len(),
    ensures
        match r {
            ExpandResult::Done(out) => {
                &&& forall|i: int|
                    0 <= i < out@.len() ==> ((#[trigger] out@[i]).0 as nat) < ctx@.texts.len()
                &&& derivation(ctx@, start@, out@)
                &&& max_steps > 0
            },
            ExpandResult::Exhausted(nt) => (nt as nat) < ctx@.nt_prods.len() && max_steps > 0,
            ExpandResult::Incomplete => exists|o: Seq<TextId>, w: Seq<WiModel>|
                derives_in(
                    ctx@,
                    max_steps as nat,
                    Seq::empty(),
                    seq![WiModel::Expand(start@)],
                    o,
                    w,
                ),
        },
        (exists|arity: Seq<usize>|
            plain_grammar(ctx@, arity) && start@.args.len() == arity[start@.id as int]) ==> !(r
            matches ExpandResult::Exhausted(_)),
{
    let mut work: Vec<WorkItem> = Vec::new();
    let mut out: Vec<TextId> = Vec::new();
    work.push(WorkItem::Expand(clone_nt_ref(start)));
    let mut steps: usize = max_steps;
    let ghost plain = exists|arity: Seq<usize>|
        plain_grammar(ctx@, arity) && start@.args.len() == arity[start@.id as int];
    let ghost ar = choose|arity: Seq<usize>|
        plain_grammar(ctx@, arity) && start@.args.len() == arity[start@.id as int];
    proof {
        assert(wi_models(work@) =~= seq![WiModel::Expand(start@)]);
        assert(derives_in(
            ctx@,
            0,
            Seq::empty(),
            seq![WiModel::Expand(start@)],
            out@,
            wi_models(work@),
        ));
    }
    loop
        invariant
            ctx@.wf(),
            steps <= max_steps,
            derives_in(
                ctx@,
                (max_steps - steps) as nat,
                Seq::empty(),
                seq![WiModel::Expand(start@)],
                out@,
                wi_models(work@),
            ),
            forall|i: int| 0 <= i < out@.len() ==> ((#[trigger] out@[i]).0 as nat) < ctx@.texts.len(),
            forall|w: int|
                0 <= w < work@.len() ==> wi_wf(
                    (#[trigger] work@[w])@,
                    ctx@.nt_prods.len(),
                    ctx@.texts.len(),
                ),
            plain == (exists|arity: Seq<usize>|
                plain_grammar(ctx@, arity) && start@.args.len() == arity[start@.id as int]),
            plain ==> plain_grammar(ctx@, ar),
            plain ==> forall|k: int|
                0 <= k < work@.len() ==> wi_arity_ok((#[trigger] work@[k])@, ar),
        decreases steps,
    {
        if steps == 0 {
            return ExpandResult::Incomplete;
        }
        let ghost n0 = (max_steps - steps) as nat;
        let ghost out0 = out@;
        let ghost wm0 = wi_models(work@);
        steps = steps - 1;
        let item = work.pop();
        match item {
            None => {
                proof {
                    assert(wm0 =~= Seq::<WiModel>::empty());
                }
                return ExpandResult::Done(out);
            },
            Some(WorkItem::Emit(t)) => {
                out.push(t);
                proof {
                    assert(wm0.len() > 0);
                    assert(wm0.last() == WiModel::Emit(t));
                    assert(wi_models(work@) =~= wm0.drop_last());
                    assert(expansion_step(ctx@, out0, wm0, out@, wi_models(work@)));
                    lemma_derives_extend(
                        ctx@,
                        n0,
                        Seq::empty(),
                        seq![WiModel::Expand(start@)],
                        out0,
                        wm0,
                        out@,
                        wi_models(work@),
                    );
                    if plain {
                        assert forall|k: int| 0 <= k < work@.len() implies wi_arity_ok(
                            (#[trigger] work@[k])@,
                            ar,
                        ) by {
                            assert(work@[k]@ == wm0[k]);
                        }
                    }
                }
            },
            Some(WorkItem::Expand(occ)) => {
                proof {
                    assert(wm0.len() > 0);
                    assert(wm0.last() == WiModel::Expand(occ@));
                    assert(wi_models(work@) =~= wm0.drop_last());
                    assert(wi_wf(
                        WiModel::Expand(occ@),
                        ctx@.nt_prods.len(),
                        ctx@.texts.len(),
                    ));
                }
                let ghost out_pre = out@;
                let ghost wm_pre = wi_models(work@);
                if !expand_occurrence(ctx, st, &occ, &mut out, &mut work) {
                    proof {
                        if plain {
                            assert(wi_arity_ok(wm0.last(), ar));
                            let n_ar = ar[occ@.id as int];
                            assert(has_universal(ctx@, occ@.id as int, n_ar));
                            let j = choose|j: int|
                                0 <= j < ctx@.nt_prods[occ@.id as int].len() && universal_prod(
                                    ctx@.prods[(#[trigger] ctx@.nt_prods[occ@.id as int][j]) as int],
                                    n_ar,
                                );
                            let p = ctx@.nt_prods[occ@.id as int][j];
                            let pm = ctx@.prods[p as int];
                            lemma_unify_fresh_vars(
                                spec_empty_bindings(pm.vars.len()),
                                pm.args,
                                occ@.args,
                                0,
                            );
                            assert(plain_viable(ctx@, p, occ@));
                            assert(false);
                        }
                    }
                    return ExpandResult::Exhausted(occ.id);
                }
                proof {
                    let (p, b, toks) = choose|p: usize, b: Seq<Option<Ty>>, toks: Seq<TextId>|
                        expansion_commit(
                            ctx@,
                            occ@,
                            p,
                            b,
                            toks,
                            out_pre,
                            out@,
                            wm_pre,
                            wi_models(work@),
                        );
                    assert(expansion_commit(
                        ctx@,
                        occ@,
                        p,
                        b,
                        toks,
                        out0,
                        out@,
                        wm0.drop_last(),
                        wi_models(work@),
                    ));
                    assert(expansion_step(ctx@, out0, wm0, out@, wi_models(work@)));
                    lemma_derives_extend(
                        ctx@,
                        n0,
                        Seq::empty(),
                        seq![WiModel::Expand(start@)],
                        out0,
                        wm0,
                        out@,
                        wi_models(work@),
                    );
                    if plain {
                        let w = choose|w: int|
                            0 <= w < ctx@.nt_prods[occ@.id as int].len() && (
                            #[trigger] ctx@.nt_prods[occ@.id as int][w]) == p;
                        assert((p as nat) < ctx@.prods.len());
                        let pm = ctx@.prods[p as int];
                        assert forall|k: int| 0 <= k < work@.len() implies wi_arity_ok(
                            (#[trigger] work@[k])@,
                            ar,
                        ) by {
                            assert(wi_models(work@)[k] == work@[k]@);
                            if k < wm0.drop_last().len() {
                                assert(work@[k]@ == wm0[k]);
                                assert(wi_arity_ok(wm0[k], ar));
                            } else {
                                let m = k - wm0.drop_last().len();
                                assert(wi_models(work@) == wm0.drop_last() + spec_sched_all(
                                    pm,
                                    b,
                                ));
                                assert(wi_models(work@).len() == wm0.drop_last().len()
                                    + spec_sched_all(pm, b).len());
                                assert(0 <= m < pm.chunks.len());
                                assert((wm0.drop_last() + spec_sched_all(pm, b))[k]
                                    == spec_sched_all(pm, b)[m]);
                                assert(work@[k]@ == spec_sched_all(pm, b)[m]);
                                assert(spec_sched_all(pm, b)[m] == spec_sched(
                                    pm,
                                    b,
                                    pm.chunks[pm.chunks.len() - 1 - m],
                                ));
                                let c = pm.chunks[pm.chunks.len() - 1 - m];
                                assert(crate::grammar::prod_wf(
                                    pm,
                                    ctx@.nt_prods.len(),
                                    ctx@.texts.len(),
                                ));
                                assert(crate::grammar::chunk_wf(
                                    c,
                                    pm.nts.len(),
                                    ctx@.texts.len(),
                                ));
                                match c {
                                    Chunk::Text(_) => {},
                                    Chunk::Nt(i) => {
                                        assert(pm.nts[i as int].args.len() == ar[pm.nts[
                                            i as int
                                        ].id as int]);
                                    },
                                }
                            }
                        }
                    }
                }
            },
        }
    }
}

} // verus!

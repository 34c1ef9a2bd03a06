use std::cell::Cell;
use std::rc::Rc;

use crux_test_gen::builder::{GrammarBuilder, ProductionRhs};
use crux_test_gen::expand::{
    expand, enumerate_candidates, ExpState, ExpandResult, NullHandler, PartialExpansion,
    ProductionHandler, ProductionMultiplicity, UnitMultiplicity,
};
use crux_test_gen::grammar::{Chunk, Context, NonterminalRef, TextId};
use crux_test_gen::ty::Ty;

const STEPS: usize = 10_000;

/// Rejects every candidate, counting how often it was consulted.
struct CountingReject {
    calls: Rc<Cell<usize>>,
}

impl<M: ProductionMultiplicity> ProductionHandler<M> for CountingReject {
    fn apply(
        &self,
        _ctx: &Context<Self, M>,
        _st: &mut ExpState,
        _pe: &mut PartialExpansion,
        _index: usize,
    ) -> bool {
        self.calls.set(self.calls.get() + 1);
        false
    }
}

/// Always yields three instances.
struct ThreeInstances;

impl ProductionMultiplicity for ThreeInstances {
    fn count(&self, _st: &ExpState) -> usize {
        3
    }
}

/// Accepts only one instance index, and appends a fixed token.
struct PickInstance {
    wanted: usize,
    token: TextId,
}

impl<M: ProductionMultiplicity> ProductionHandler<M> for PickInstance {
    fn apply(
        &self,
        _ctx: &Context<Self, M>,
        _st: &mut ExpState,
        pe: &mut PartialExpansion,
        index: usize,
    ) -> bool {
        if index == self.wanted {
            pe.tokens.push(self.token);
            true
        } else {
            false
        }
    }
}

fn texts_of(ctx_texts: &[String], tokens: &[TextId]) -> Vec<String> {
    tokens.iter().map(|t| ctx_texts[t.0].clone()).collect()
}

#[test]
fn expand_single_literal() {
    let mut b: GrammarBuilder<NullHandler, UnitMultiplicity> = GrammarBuilder::default();
    let start = b.mk_simple_nt_ref("Start");
    let x = b.intern_text("x");
    let lhs = b.mk_simple_lhs("Start");
    let rhs = ProductionRhs { chunks: vec![Chunk::Text(x)], nts: vec![] };
    b.add_prod(lhs, rhs);
    let ctx = b.finish();
    let mut st = ExpState::new();
    match expand(&ctx, &start, &mut st, STEPS) {
        ExpandResult::Done(tokens) => {
            assert_eq!(tokens, vec![x]);
            assert_eq!(ctx.texts[x.0], "x");
        },
        _ => panic!("expansion of a one-literal grammar must finish"),
    }
}

#[test]
fn expand_keeps_chunk_order() {
    let mut b: GrammarBuilder<NullHandler, UnitMultiplicity> = GrammarBuilder::default();
    let start = b.mk_simple_nt_ref("Start");
    let open = b.intern_text("(");
    let close = b.intern_text(")");
    let inner = b.intern_text("inner");

    let lhs = b.mk_simple_lhs("Start");
    let a_ref = b.mk_simple_nt_ref("A");
    let rhs = ProductionRhs {
        chunks: vec![Chunk::Text(open), Chunk::Nt(0), Chunk::Text(close)],
        nts: vec![a_ref],
    };
    b.add_prod(lhs, rhs);

    let lhs_a = b.mk_simple_lhs("A");
    let rhs_a = ProductionRhs { chunks: vec![Chunk::Text(inner)], nts: vec![] };
    b.add_prod(lhs_a, rhs_a);

    let ctx = b.finish();
    let mut st = ExpState::new();
    match expand(&ctx, &start, &mut st, STEPS) {
        ExpandResult::Done(tokens) => {
            assert_eq!(texts_of(&ctx.texts, &tokens), vec!["(", "inner", ")"]);
        },
        _ => panic!("nested expansion must finish"),
    }
}

#[test]
fn expand_exhaustion_on_rejecting_handler() {
    let mut b: GrammarBuilder<CountingReject, UnitMultiplicity> = GrammarBuilder::default();
    let start = b.mk_simple_nt_ref("Start");
    let calls = Rc::new(Cell::new(0));
    let lhs = b.mk_simple_lhs("Start");
    b.add_prod_with_handler(
        lhs,
        ProductionRhs::default(),
        CountingReject { calls: Rc::clone(&calls) },
    );
    let ctx = b.finish();
    let mut st = ExpState::new();
    match expand(&ctx, &start, &mut st, STEPS) {
        ExpandResult::Exhausted(nt) => assert_eq!(nt, start.id),
        _ => panic!("a production with no alternative whose handler always fails must exhaust"),
    }
    assert_eq!(calls.get(), 1);
}

#[test]
fn expand_explores_all_candidate_instances() {
    let mut b: GrammarBuilder<CountingReject, ThreeInstances> = GrammarBuilder::default();
    let start = b.mk_simple_nt_ref("A");
    let calls = Rc::new(Cell::new(0));

    let lhs1 = b.mk_simple_lhs("A");
    b.add_prod_with_handler(
        lhs1,
        ProductionRhs::default(),
        CountingReject { calls: Rc::clone(&calls) },
    );
    let lhs2 = b.mk_simple_lhs("A");
    b.add_prod_family(
        lhs2,
        ProductionRhs::default(),
        ThreeInstances,
        CountingReject { calls: Rc::clone(&calls) },
    );

    let ctx = b.finish();
    let mut st = ExpState::new();
    match expand(&ctx, &start, &mut st, STEPS) {
        ExpandResult::Exhausted(nt) => assert_eq!(nt, start.id),
        _ => panic!("all-rejecting handlers must exhaust the occurrence"),
    }
    assert_eq!(calls.get(), 4);
}

#[test]
fn expand_falls_back_to_next_candidate() {
    let mut b: GrammarBuilder<CountingReject, UnitMultiplicity> = GrammarBuilder::default();
    let start = b.mk_simple_nt_ref("Start");
    let y = b.intern_text("y");
    let calls = Rc::new(Cell::new(0));

    let lhs1 = b.mk_simple_lhs("Start");
    b.add_prod_with_handler(
        lhs1,
        ProductionRhs::default(),
        CountingReject { calls: Rc::clone(&calls) },
    );
    let lhs2 = b.mk_simple_lhs("Start");
    let rhs2 = ProductionRhs { chunks: vec![Chunk::Text(y)], nts: vec![] };
    b.add_prod(lhs2, rhs2);

    let ctx = b.finish();
    let mut st = ExpState::new();
    match expand(&ctx, &start, &mut st, STEPS) {
        ExpandResult::Done(tokens) => {
            assert_eq!(texts_of(&ctx.texts, &tokens), vec!["y"]);
        },
        _ => panic!("a rejected candidate must not abort the run"),
    }
    assert_eq!(calls.get(), 1);
}

#[test]
fn expand_commits_handler_tokens_before_chunks() {
    let mut b: GrammarBuilder<PickInstance, ThreeInstances> = GrammarBuilder::default();
    let start = b.mk_simple_nt_ref("Start");
    let lead = b.intern_text("lead");
    let body = b.intern_text("body");

    let lhs = b.mk_simple_lhs("Start");
    let rhs = ProductionRhs { chunks: vec![Chunk::Text(body)], nts: vec![] };
    b.add_prod_family(lhs, rhs, ThreeInstances, PickInstance { wanted: 2, token: lead });

    let ctx = b.finish();
    let mut st = ExpState::new();
    match expand(&ctx, &start, &mut st, STEPS) {
        ExpandResult::Done(tokens) => {
            assert_eq!(texts_of(&ctx.texts, &tokens), vec!["lead", "body"]);
        },
        _ => panic!("instance index two of three must be viable"),
    }
}

#[test]
fn expand_unifies_parameterized_reference() {
    let mut b: GrammarBuilder<NullHandler, UnitMultiplicity> = GrammarBuilder::default();
    let start = b.mk_simple_nt_ref("Start");
    let item = b.intern_text("item");

    let list = b.nt_id("List");
    let lhs_start = b.mk_simple_lhs("Start");
    let rhs_start = ProductionRhs {
        chunks: vec![Chunk::Nt(0)],
        nts: vec![NonterminalRef { id: list, args: vec![Ty::Ctor(5)] }],
    };
    b.add_prod(lhs_start, rhs_start);

    let (lhs_list, _vars) = b.mk_lhs_with_args("List", 1);
    let rhs_list = ProductionRhs { chunks: vec![Chunk::Text(item)], nts: vec![] };
    b.add_prod(lhs_list, rhs_list);

    let ctx = b.finish();
    let mut st = ExpState::new();
    match expand(&ctx, &start, &mut st, STEPS) {
        ExpandResult::Done(tokens) => {
            assert_eq!(texts_of(&ctx.texts, &tokens), vec!["item"]);
        },
        _ => panic!("a variable parameter must unify with a concrete argument"),
    }
}

#[test]
fn expand_rejects_argument_count_mismatch() {
    let mut b: GrammarBuilder<NullHandler, UnitMultiplicity> = GrammarBuilder::default();
    let start = b.mk_simple_nt_ref("Start");
    let item = b.intern_text("item");

    let list = b.nt_id("List");
    let lhs_start = b.mk_simple_lhs("Start");
    let rhs_start = ProductionRhs {
        chunks: vec![Chunk::Nt(0)],
        nts: vec![NonterminalRef { id: list, args: vec![Ty::Ctor(5), Ty::Ctor(6)] }],
    };
    b.add_prod(lhs_start, rhs_start);

    let (lhs_list, _vars) = b.mk_lhs_with_args("List", 1);
    let rhs_list = ProductionRhs { chunks: vec![Chunk::Text(item)], nts: vec![] };
    b.add_prod(lhs_list, rhs_list);

    let ctx = b.finish();
    let mut st = ExpState::new();
    match expand(&ctx, &start, &mut st, STEPS) {
        ExpandResult::Exhausted(nt) => assert_eq!(nt, list),
        _ => panic!("an occurrence with the wrong argument count has no viable candidate"),
    }
}

#[test]
fn expand_nonterminal_without_productions_exhausts() {
    let mut b: GrammarBuilder<NullHandler, UnitMultiplicity> = GrammarBuilder::default();
    let start = b.mk_simple_nt_ref("Start");
    let ctx = b.finish();
    let mut st = ExpState::new();
    match expand(&ctx, &start, &mut st, STEPS) {
        ExpandResult::Exhausted(nt) => assert_eq!(nt, start.id),
        _ => panic!("a nonterminal with no productions must exhaust"),
    }
}

#[test]
fn expand_runs_out_of_steps_on_cyclic_grammar() {
    let mut b: GrammarBuilder<NullHandler, UnitMultiplicity> = GrammarBuilder::default();
    let start = b.mk_simple_nt_ref("Start");
    let lhs = b.mk_simple_lhs("Start");
    let self_ref = b.mk_simple_nt_ref("Start");
    let rhs = ProductionRhs { chunks: vec![Chunk::Nt(0)], nts: vec![self_ref] };
    b.add_prod(lhs, rhs);
    let ctx = b.finish();
    let mut st = ExpState::new();
    match expand(&ctx, &start, &mut st, 50) {
        ExpandResult::Incomplete => {},
        _ => panic!("an endlessly recursive grammar must hit the step budget"),
    }
}

#[test]
fn enumerate_candidates_lists_every_pair() {
    let ps: Vec<usize> = vec![7, 9];
    let ks: Vec<usize> = vec![1, 3];
    let cands = enumerate_candidates(&ps, &ks);
    assert_eq!(cands, vec![(7, 0), (9, 0), (9, 1), (9, 2)]);
    assert_eq!(cands.len(), 4);
}

/// Records a value into the run's state, then accepts or rejects.
struct RecordingHandler {
    value: u64,
    accept: bool,
}

impl<M: ProductionMultiplicity> ProductionHandler<M> for RecordingHandler {
    fn apply(
        &self,
        _ctx: &Context<Self, M>,
        st: &mut ExpState,
        _pe: &mut PartialExpansion,
        _index: usize,
    ) -> bool {
        st.vals.push(self.value);
        self.accept
    }
}

#[test]
fn expand_commits_state_of_accepted_candidate() {
    let mut b: GrammarBuilder<RecordingHandler, UnitMultiplicity> = GrammarBuilder::default();
    let start = b.mk_simple_nt_ref("Start");
    let lhs = b.mk_simple_lhs("Start");
    b.add_prod_with_handler(
        lhs,
        ProductionRhs::default(),
        RecordingHandler { value: 42, accept: true },
    );
    let ctx = b.finish();
    let mut st = ExpState::new();
    match expand(&ctx, &start, &mut st, STEPS) {
        ExpandResult::Done(tokens) => assert!(tokens.is_empty()),
        _ => panic!("an accepting handler must finish the run"),
    }
    assert_eq!(st.vals, vec![42]);
}

#[test]
fn expand_discards_state_of_rejected_candidate() {
    let mut b: GrammarBuilder<RecordingHandler, UnitMultiplicity> = GrammarBuilder::default();
    let start = b.mk_simple_nt_ref("Start");
    let lhs = b.mk_simple_lhs("Start");
    b.add_prod_with_handler(
        lhs,
        ProductionRhs::default(),
        RecordingHandler { value: 42, accept: false },
    );
    let ctx = b.finish();
    let mut st = ExpState::new();
    match expand(&ctx, &start, &mut st, STEPS) {
        ExpandResult::Exhausted(_) => {},
        _ => panic!("a rejecting handler with no alternative must exhaust"),
    }
    assert!(st.vals.is_empty());
}

/// Yields as many instances as the state holds recorded values.
struct StateCount;

impl ProductionMultiplicity for StateCount {
    fn count(&self, st: &ExpState) -> usize {
        st.vals.len()
    }
}

#[test]
fn expand_multiplicity_reads_current_state() {
    let mut b: GrammarBuilder<PickInstance, StateCount> = GrammarBuilder::default();
    let start = b.mk_simple_nt_ref("Start");
    let token = b.intern_text("bound");
    let lhs = b.mk_simple_lhs("Start");
    b.add_prod_family(
        lhs,
        ProductionRhs::default(),
        StateCount,
        PickInstance { wanted: 1, token },
    );
    let ctx = b.finish();

    let mut empty_state = ExpState::new();
    match expand(&ctx, &start, &mut empty_state, STEPS) {
        ExpandResult::Exhausted(_) => {},
        _ => panic!("zero instances leave nothing to try"),
    }

    let mut two_state = ExpState { vals: vec![7, 8] };
    match expand(&ctx, &start, &mut two_state, STEPS) {
        ExpandResult::Done(tokens) => {
            assert_eq!(texts_of(&ctx.texts, &tokens), vec!["bound"]);
        },
        _ => panic!("two instances include the wanted index"),
    }
}

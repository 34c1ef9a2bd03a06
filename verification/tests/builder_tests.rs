use crux_test_gen::builder::{GrammarBuilder, ProductionRhs};
use crux_test_gen::expand::{NullHandler, UnitMultiplicity};
use crux_test_gen::grammar::Chunk;
use crux_test_gen::ty::{Ty, VarId};

type Builder = GrammarBuilder<NullHandler, UnitMultiplicity>;

#[test]
fn nt_id_repeated_returns_same_id() {
    let mut b = Builder::default();
    let first = b.nt_id("expr");
    let second = b.nt_id("expr");
    let _other = b.nt_id("stmt");
    let third = b.nt_id("expr");
    assert_eq!(first, second);
    assert_eq!(first, third);
}

#[test]
fn nt_id_distinct_names_distinct_ids() {
    let mut b = Builder::default();
    let e = b.nt_id("expr");
    let s = b.nt_id("stmt");
    let t = b.nt_id("ty");
    assert_ne!(e, s);
    assert_ne!(e, t);
    assert_ne!(s, t);
    assert_eq!(e, 0);
    assert_eq!(s, 1);
    assert_eq!(t, 2);
}

#[test]
fn intern_text_equal_content_same_handle() {
    let mut b = Builder::default();
    let s1 = String::from("let x = 1;");
    let s2 = String::from("let x = 1;");
    let h1 = b.intern_text(&s1);
    let h2 = b.intern_text(&s2);
    let h3 = b.intern_text("something else");
    assert_eq!(h1, h2);
    assert_ne!(h1, h3);
}

#[test]
fn intern_text_empty_string() {
    let mut b = Builder::default();
    let h1 = b.intern_text("");
    let h2 = b.intern_text("");
    assert_eq!(h1, h2);
    let ctx = b.finish();
    assert_eq!(ctx.texts[h1.0], "");
}

#[test]
fn add_prod_indices_increase() {
    let mut b = Builder::default();
    let id0 = {
        let lhs = b.mk_simple_lhs("a");
        b.add_prod(lhs, ProductionRhs::default())
    };
    let id1 = {
        let lhs = b.mk_simple_lhs("a");
        b.add_prod(lhs, ProductionRhs::default())
    };
    let id2 = {
        let lhs = b.mk_simple_lhs("a");
        b.add_prod(lhs, ProductionRhs::default())
    };
    assert_eq!(id0, 0);
    assert_eq!(id1, 1);
    assert_eq!(id2, 2);
    let nt = b.nt_id("a");
    let ctx = b.finish();
    assert_eq!(ctx.nonterminals[nt].productions, vec![0, 1, 2]);
}

#[test]
fn add_prod_registers_only_under_owner() {
    let mut b = Builder::default();
    let a = b.nt_id("a");
    let c = b.nt_id("c");
    let lhs_a = b.mk_simple_lhs("a");
    let first = b.add_prod(lhs_a, ProductionRhs::default());
    let lhs_c = b.mk_simple_lhs("c");
    let second = b.add_prod(lhs_c, ProductionRhs::default());
    let ctx = b.finish();
    assert_eq!(ctx.nonterminals[a].productions, vec![first]);
    assert_eq!(ctx.nonterminals[c].productions, vec![second]);
}

#[test]
fn mk_lhs_with_args_counts() {
    let mut b = Builder::default();
    let (lhs, vars) = b.mk_lhs_with_args("list", 3);
    assert_eq!(vars.len(), 3);
    assert_eq!(lhs.nt.args.len(), 3);
    assert_eq!(lhs.vars.len(), 3);
    assert_eq!(vars, vec![VarId(0), VarId(1), VarId(2)]);
    assert_eq!(lhs.vars, vec!["T0", "T1", "T2"]);
    for (i, arg) in lhs.nt.args.iter().enumerate() {
        assert_eq!(*arg, Ty::Var(VarId(i as u32)));
    }
}

#[test]
fn mk_lhs_with_args_zero() {
    let mut b = Builder::default();
    let (lhs, vars) = b.mk_lhs_with_args("unit", 0);
    assert_eq!(vars.len(), 0);
    assert_eq!(lhs.vars.len(), 0);
    assert_eq!(lhs.nt.args.len(), 0);
}

#[test]
fn mk_lhs_with_args_two_digit_names() {
    let mut b = Builder::default();
    let (lhs, vars) = b.mk_lhs_with_args("wide", 12);
    assert_eq!(vars.len(), 12);
    assert_eq!(lhs.vars[9], "T9");
    assert_eq!(lhs.vars[10], "T10");
    assert_eq!(lhs.vars[11], "T11");
}

#[test]
fn mk_simple_nt_ref_matches_nt_id() {
    let mut b = Builder::default();
    let r = b.mk_simple_nt_ref("start");
    let id = b.nt_id("start");
    assert_eq!(r.id, id);
    assert!(r.args.is_empty());
}

#[test]
fn mk_simple_lhs_has_no_vars() {
    let mut b = Builder::default();
    let lhs = b.mk_simple_lhs("start");
    assert!(lhs.vars.is_empty());
    assert!(lhs.nt.args.is_empty());
    assert_eq!(lhs.nt.id, b.nt_id("start"));
}

#[test]
fn finish_round_trip() {
    let mut b = Builder::default();
    let a = b.nt_id("a");
    let c = b.nt_id("c");
    let hello = b.intern_text("hello");
    let world = b.intern_text("world");

    let lhs = b.mk_simple_lhs("a");
    let c_ref = b.mk_simple_nt_ref("c");
    let rhs = ProductionRhs {
        chunks: vec![Chunk::Text(hello), Chunk::Nt(0)],
        nts: vec![c_ref],
    };
    let p0 = b.add_prod(lhs, rhs);

    let lhs2 = b.mk_simple_lhs("c");
    let rhs2 = ProductionRhs { chunks: vec![Chunk::Text(world)], nts: vec![] };
    let p1 = b.add_prod(lhs2, rhs2);

    let ctx = b.finish();
    assert_eq!(ctx.productions.len(), 2);
    assert_eq!(ctx.nonterminals.len(), 2);
    assert_eq!(ctx.nonterminals_by_name, vec!["a", "c"]);
    assert_eq!(ctx.texts, vec!["hello", "world"]);
    assert_eq!(ctx.nonterminals[a].productions, vec![p0]);
    assert_eq!(ctx.nonterminals[c].productions, vec![p1]);
    assert_eq!(ctx.productions[p0].chunks, vec![Chunk::Text(hello), Chunk::Nt(0)]);
    assert_eq!(ctx.productions[p0].nts.len(), 1);
    assert_eq!(ctx.productions[p0].nts[0].id, c);
    assert_eq!(ctx.productions[p1].chunks, vec![Chunk::Text(world)]);
    assert!(ctx.productions[p0].handler.is_none());
    assert!(ctx.productions[p0].multiplicity.is_none());
}

#[test]
fn add_prod_with_handler_records_capability() {
    let mut b = Builder::default();
    let lhs = b.mk_simple_lhs("a");
    let p = b.add_prod_with_handler(lhs, ProductionRhs::default(), NullHandler);
    let lhs2 = b.mk_simple_lhs("a");
    let q = b.add_prod_family(lhs2, ProductionRhs::default(), UnitMultiplicity, NullHandler);
    let lhs3 = b.mk_simple_lhs("a");
    let r = b.add_prod_with_opt_callbacks(lhs3, ProductionRhs::default(), None, Some(UnitMultiplicity));
    let ctx = b.finish();
    assert!(ctx.productions[p].handler.is_some());
    assert!(ctx.productions[p].multiplicity.is_none());
    assert!(ctx.productions[q].handler.is_some());
    assert!(ctx.productions[q].multiplicity.is_some());
    assert!(ctx.productions[r].handler.is_none());
    assert!(ctx.productions[r].multiplicity.is_some());
}

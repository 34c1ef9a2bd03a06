use crux_test_gen::ty::{subst_args, subst_ty, unify_args, Ty, VarId};

#[test]
fn unify_binds_variable_to_concrete_argument() {
    let pats = vec![Ty::Var(VarId(0)), Ty::Ctor(7)];
    let vals = vec![Ty::Ctor(3), Ty::Ctor(7)];
    let b = unify_args(&pats, &vals, 1).expect("a free variable must match");
    assert_eq!(b, vec![Some(Ty::Ctor(3))]);
}

#[test]
fn unify_rejects_constructor_mismatch() {
    let pats = vec![Ty::Ctor(7)];
    let vals = vec![Ty::Ctor(8)];
    assert!(unify_args(&pats, &vals, 0).is_none());
}

#[test]
fn unify_rejects_length_mismatch() {
    let pats = vec![Ty::Ctor(7)];
    let vals = vec![];
    assert!(unify_args(&pats, &vals, 0).is_none());
}

#[test]
fn unify_repeated_variable_must_agree() {
    let pats = vec![Ty::Var(VarId(0)), Ty::Var(VarId(0))];
    let same = vec![Ty::Ctor(4), Ty::Ctor(4)];
    let differ = vec![Ty::Ctor(4), Ty::Ctor(5)];
    let b = unify_args(&pats, &same, 1).expect("consistent uses must match");
    assert_eq!(b, vec![Some(Ty::Ctor(4))]);
    assert!(unify_args(&pats, &differ, 1).is_none());
}

#[test]
fn unify_rejects_variable_out_of_range() {
    let pats = vec![Ty::Var(VarId(2))];
    let vals = vec![Ty::Ctor(1)];
    assert!(unify_args(&pats, &vals, 1).is_none());
}

#[test]
fn subst_replaces_bound_variables_only() {
    let b = vec![Some(Ty::Ctor(9)), None];
    assert_eq!(subst_ty(Ty::Var(VarId(0)), &b), Ty::Ctor(9));
    assert_eq!(subst_ty(Ty::Var(VarId(1)), &b), Ty::Var(VarId(1)));
    assert_eq!(subst_ty(Ty::Var(VarId(5)), &b), Ty::Var(VarId(5)));
    assert_eq!(subst_ty(Ty::Ctor(2), &b), Ty::Ctor(2));
    let args = vec![Ty::Var(VarId(0)), Ty::Ctor(2), Ty::Var(VarId(1))];
    assert_eq!(
        subst_args(&args, &b),
        vec![Ty::Ctor(9), Ty::Ctor(2), Ty::Var(VarId(1))]
    );
}

#[test]
fn unify_then_subst_round_trips() {
    let pats = vec![Ty::Var(VarId(1)), Ty::Var(VarId(0)), Ty::Ctor(2)];
    let vals = vec![Ty::Ctor(10), Ty::Ctor(11), Ty::Ctor(2)];
    let b = unify_args(&pats, &vals, 2).expect("two free variables must match");
    assert_eq!(subst_args(&pats, &b), vals);
}

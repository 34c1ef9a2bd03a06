//! Type parameters of nonterminal references: variables bound by a
//! production's left-hand side, substitution of bindings into arguments,
//! and the unification pass that matches a production's parameter list
//! against a concrete occurrence.

use vstd::prelude::*;

verus! {

/// Identity of a type variable, local to one production's left-hand side.
#[derive(Clone, Copy, PartialEq, Eq, Structural, Debug)]
pub struct VarId(pub u32);

/// A type argument of a nonterminal reference: either a variable bound by
/// the owning production's left-hand side, or a concrete type constructor
/// tag.
#[derive(Clone, Copy, PartialEq, Eq, Structural, Debug)]
pub enum Ty {
    Var(VarId),
    Ctor(usize),
}

/// Substitution of a binding table into one type argument: a variable bound
/// by the table is replaced by its binding; anything else stays as it is.
pub open spec fn spec_subst(t: Ty, b: Seq<Option<Ty>>) -> Ty {
    match t {
        Ty::Ctor(c) => Ty::Ctor(c),
        Ty::Var(v) => {
            if v.0 < b.len() && b[v.0 as int] is Some {
                b[v.0 as int]->0
            } else {
                Ty::Var(v)
            }
        },
    }
}

/// Applies [`spec_subst`] to one type argument.
pub fn subst_ty(t: Ty, b: &Vec<Option<Ty>>) -> (r: Ty)
    ensures
        r == spec_subst(t, b@),
{
    match t {
        Ty::Ctor(c) => Ty::Ctor(c),
        Ty::Var(v) => {
            if (v.0 as usize) < b.len() {
                match b[v.0 as usize] {
                    Some(bound) => bound,
                    None => Ty::Var(v),
                }
            } else {
                Ty::Var(v)
            }
        },
    }
}

/// Applies [`spec_subst`] to every element of an argument list.
pub fn subst_args(args: &Vec<Ty>, b: &Vec<Option<Ty>>) -> (r: Vec<Ty>)
    ensures
        r@.len() == args@.len(),
        forall|i: int| 0 <= i < args@.len() ==> r@[i] == spec_subst(args@[i], b@),
{
    let mut r: Vec<Ty> = Vec::new();
    let mut i: usize = 0;
    while i < args.len()
        invariant
            i <= args@.len(),
            r@.len() == i,
            forall|j: int| 0 <= j < i ==> r@[j] == spec_subst(args@[j], b@),
        decreases args@.len() - i,
    {
        let s = subst_ty(args[i], b);
        r.push(s);
        i = i + 1;
    }
    r
}

/// One step of unification: matches the pattern argument `pat` (which may be
/// a variable) against the value argument `val`, extending the binding table
/// or failing.
pub open spec fn spec_unify_step(b: Seq<Option<Ty>>, pat: Ty, val: Ty) -> Option<Seq<Option<Ty>>> {
    match pat {
        Ty::Ctor(c) => {
            if val == Ty::Ctor(c) {
                Some(b)
            } else {
                None
            }
        },
        Ty::Var(v) => {
            if v.0 >= b.len() {
                None
            } else {
                match b[v.0 as int] {
                    None => Some(b.update(v.0 as int, Some(val))),
                    Some(t) => if t == val {
                        Some(b)
                    } else {
                        None
                    },
                }
            }
        },
    }
}

/// Unification of a whole parameter list against a value list, left to
/// right, threading the binding table through each step.  Lists of unequal
/// length never unify.
pub open spec fn spec_unify(b: Seq<Option<Ty>>, pats: Seq<Ty>, vals: Seq<Ty>) -> Option<
    Seq<Option<Ty>>,
>
    decreases pats.len(),
{
    if pats.len() != vals.len() {
        None
    } else if pats.len() == 0 {
        Some(b)
    } else {
        match spec_unify_step(b, pats[0], vals[0]) {
            None => None,
            Some(b2) => spec_unify(b2, pats.drop_first(), vals.drop_first()),
        }
    }
}

/// The empty binding table for a production with `n` variables.
pub open spec fn spec_empty_bindings(n: nat) -> Seq<Option<Ty>> {
    Seq::new(n, |i: int| None)
}

/// Unification only fills empty slots of the binding table: it never grows,
/// shrinks or rewrites a binding that is already present.
pub proof fn lemma_unify_monotone(b: Seq<Option<Ty>>, pats: Seq<Ty>, vals: Seq<Ty>)
    requires
        spec_unify(b, pats, vals) is Some,
    ensures
        spec_unify(b, pats, vals)->0.len() == b.len(),
        forall|j: int|
            0 <= j < b.len() && b[j] is Some ==> spec_unify(b, pats, vals)->0[j] == b[j],
    decreases pats.len(),
{
    if pats.len() != vals.len() || pats.len() == 0 {
    } else {
        let b2 = spec_unify_step(b, pats[0], vals[0])->0;
        assert(b2.len() == b.len());
        assert(forall|j: int| 0 <= j < b.len() && b[j] is Some ==> b2[j] == b[j]);
        lemma_unify_monotone(b2, pats.drop_first(), vals.drop_first());
        let r = spec_unify(b, pats, vals)->0;
        assert(r == spec_unify(b2, pats.drop_first(), vals.drop_first())->0);
        assert forall|j: int| 0 <= j < b.len() && b[j] is Some implies r[j] == b[j] by {
            assert(b2[j] == b[j]);
        }
    }
}

/// Soundness of unification: a successful match binds the pattern's
/// variables so that substituting the final binding table into each pattern
/// argument yields exactly the matched value.
pub proof fn lemma_unify_sound(b: Seq<Option<Ty>>, pats: Seq<Ty>, vals: Seq<Ty>)
    requires
        spec_unify(b, pats, vals) is Some,
    ensures
        pats.len() == vals.len(),
        forall|i: int|
            0 <= i < pats.len() ==> spec_subst(pats[i], spec_unify(b, pats, vals)->0)
                == vals[i],
    decreases pats.len(),
{
    if pats.len() != vals.len() || pats.len() == 0 {
    } else {
        let b2 = spec_unify_step(b, pats[0], vals[0])->0;
        let r = spec_unify(b, pats, vals)->0;
        lemma_unify_sound(b2, pats.drop_first(), vals.drop_first());
        lemma_unify_monotone(b2, pats.drop_first(), vals.drop_first());
        match pats[0] {
            Ty::Ctor(c) => {
                assert(spec_subst(pats[0], r) == vals[0]);
            },
            Ty::Var(v) => {
                assert(b2[v.0 as int] == Some(vals[0]));
                assert(r[v.0 as int] == Some(vals[0]));
                assert(spec_subst(pats[0], r) == vals[0]);
            },
        }
        assert forall|i: int| 1 <= i < pats.len() implies spec_subst(pats[i], r) == vals[i] by {
            assert(pats.drop_first()[i - 1] == pats[i]);
            assert(vals.drop_first()[i - 1] == vals[i]);
        }
    }
}

/// A parameter list of distinct fresh variables — `Var(off)`, `Var(off+1)`,
/// ... — matches any argument list of the same length: unification cannot
/// fail on it while those slots of the binding table are still empty.
pub proof fn lemma_unify_fresh_vars(b: Seq<Option<Ty>>, pats: Seq<Ty>, vals: Seq<Ty>, off: int)
    requires
        pats.len() == vals.len(),
        0 <= off,
        off + pats.len() <= b.len(),
        off + pats.len() <= u32::MAX + 1,
        forall|i: int| 0 <= i < pats.len() ==> pats[i] == Ty::Var(VarId((off + i) as u32)),
        forall|i: int| off <= i < off + pats.len() ==> b[i] is None,
    ensures
        spec_unify(b, pats, vals) is Some,
    decreases pats.len(),
{
    if pats.len() == 0 {
    } else {
        assert(pats[0] == Ty::Var(VarId((off + 0) as u32)));
        assert((off as u32) as int == off);
        assert(b[off] is None);
        let b2 = b.update(off, Some(vals[0]));
        assert(spec_unify_step(b, pats[0], vals[0]) == Some(b2));
        assert forall|i: int| 0 <= i < pats.drop_first().len() implies pats.drop_first()[i]
            == Ty::Var(VarId((off + 1 + i) as u32)) by {
            assert(pats.drop_first()[i] == pats[i + 1]);
        }
        assert forall|i: int| off + 1 <= i < off + 1 + pats.drop_first().len() implies b2[i]
            is None by {
            assert(b[i] is None);
        }
        lemma_unify_fresh_vars(b2, pats.drop_first(), vals.drop_first(), off + 1);
    }
}

proof fn lemma_unify_unfold(b: Seq<Option<Ty>>, pats: Seq<Ty>, vals: Seq<Ty>, i: int)
    requires
        pats.len() == vals.len(),
        0 <= i < pats.len(),
    ensures
        spec_unify(b, pats.skip(i), vals.skip(i)) == (match spec_unify_step(
            b,
            pats[i],
            vals[i],
        ) {
            None => None::<Seq<Option<Ty>>>,
            Some(b2) => spec_unify(b2, pats.skip(i + 1), vals.skip(i + 1)),
        }),
{
    assert(pats.skip(i)[0] == pats[i]);
    assert(vals.skip(i)[0] == vals[i]);
    assert(pats.skip(i).drop_first() =~= pats.skip(i + 1));
    assert(vals.skip(i).drop_first() =~= vals.skip(i + 1));
}

/// Unifies a production's parameter list against the concrete arguments of
/// an occurrence, starting from an empty table of `nvars` bindings.
pub fn unify_args(pats: &Vec<Ty>, vals: &Vec<Ty>, nvars: usize) -> (r: Option<Vec<Option<Ty>>>)
    ensures
        match r {
            Some(b) => {
                &&& spec_unify(spec_empty_bindings(nvars as nat), pats@, vals@) == Some(b@)
                &&& b@.len() == nvars
                &&& pats@.len() == vals@.len()
                &&& forall|i: int|
                    0 <= i < pats@.len() ==> spec_subst(pats@[i], b@) == vals@[i]
            },
            None => spec_unify(spec_empty_bindings(nvars as nat), pats@, vals@) is None,
        },
{
    if pats.len() != vals.len() {
        return None;
    }
    let mut b: Vec<Option<Ty>> = Vec::new();
    let mut k: usize = 0;
    while k < nvars
        invariant
            k <= nvars,
            b@.len() == k,
            forall|j: int| 0 <= j < k ==> b@[j] is None,
        decreases nvars - k,
    {
        b.push(None);
        k = k + 1;
    }
    proof {
        assert(b@ =~= spec_empty_bindings(nvars as nat));
    }
    let ghost b0 = b@;
    proof {
        assert(pats@.skip(0) =~= pats@);
        assert(vals@.skip(0) =~= vals@);
    }
    let mut i: usize = 0;
    while i < pats.len()
        invariant
            pats@.len() == vals@.len(),
            i <= pats@.len(),
            b0 == spec_empty_bindings(nvars as nat),
            spec_unify(b0, pats@, vals@) == spec_unify(b@, pats@.skip(i as int), vals@.skip(i as int)),
        decreases pats@.len() - i,
    {
        proof {
            lemma_unify_unfold(b@, pats@, vals@, i as int);
        }
        let pat = pats[i];
        let val = vals[i];
        match pat {
            Ty::Ctor(c) => {
                if !(val == Ty::Ctor(c)) {
                    return None;
                }
            },
            Ty::Var(v) => {
                if (v.0 as usize) >= b.len() {
                    return None;
                }
                match b[v.0 as usize] {
                    None => {
                        b.set(v.0 as usize, Some(val));
                    },
                    Some(t) => {
                        if !(t == val) {
                            return None;
                        }
                    },
                }
            },
        }
        i = i + 1;
    }
    proof {
        assert(pats@.skip(pats@.len() as int) =~= Seq::<Ty>::empty());
        assert(vals@.skip(vals@.len() as int) =~= Seq::<Ty>::empty());
        lemma_unify_sound(spec_empty_bindings(nvars as nat), pats@, vals@);
        lemma_unify_monotone(spec_empty_bindings(nvars as nat), pats@, vals@);
    }
    Some(b)
}

} // verus!

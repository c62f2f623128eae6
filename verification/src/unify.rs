//! Unification: making two types equal by binding type variables.
//!
//! A variable is bound only to a type from which it cannot be reached, so a
//! substitution that is acyclic stays acyclic. Two normal forms that are the
//! same unbound variable unify without a binding.

use vstd::prelude::*;
use crate::types::{Ty, Type, TyVar, TypeErr, model, model_seq, clone_type};
use crate::subst::{
    acyclic, extends, norm, resolve, resolve_seq, occurs_in, subst_model, norm_ty, occurs,
    lemma_norm, lemma_resolve_ext, lemma_resolve_stable, lemma_resolve_var, lemma_resolve_parts,
    lemma_resolve_seq, lemma_bind_acyclic, lemma_subst_model_insert,
};
use std::collections::HashMap;

verus! {

broadcast use vstd::std_specs::hash::group_hash_axioms;

/// Where a unification ended: the substitution it reached, and the two
/// normal forms that clashed if it failed.
pub struct Outcome {
    pub subst: Map<u64, Ty>,
    pub clash: Option<(Ty, Ty)>,
}

/// Unifying the unbound variable `v` with the normal form `t`, where `n1` and
/// `n2` are the two normal forms at hand.
pub open spec fn bind(s: Map<u64, Ty>, v: u64, t: Ty, n1: Ty, n2: Ty) -> Outcome {
    if t == Ty::Var(v) {
        Outcome { subst: s, clash: None }
    } else if occurs_in(v, resolve(s, t)) {
        Outcome { subst: s, clash: Some((n1, n2)) }
    } else {
        Outcome { subst: s.insert(v, t), clash: None }
    }
}

/// The unification of `t1` and `t2` under `s`, as far as `fuel` nested
/// steps reach; `None` where they do not reach the end.
pub open spec fn unify_fuel(fuel: nat, s: Map<u64, Ty>, t1: Ty, t2: Ty) -> Option<Outcome>
    decreases fuel, 0int,
{
    if fuel == 0 {
        None
    } else {
        let n1 = norm(s, t1);
        let n2 = norm(s, t2);
        let stop = Some(Outcome { subst: s, clash: Some((n1, n2)) });
        let done = Some(Outcome { subst: s, clash: None });
        if n1 is Var {
            Some(bind(s, n1->Var_0, n2, n1, n2))
        } else if n2 is Var {
            Some(bind(s, n2->Var_0, n1, n1, n2))
        } else {
            match (n1, n2) {
                (Ty::Unit, Ty::Unit) => done,
                (Ty::Bool, Ty::Bool) => done,
                (Ty::Int, Ty::Int) => done,
                (Ty::Float, Ty::Float) => done,
                (Ty::Fun(a1, r1), Ty::Fun(a2, r2)) => if a1.len() != a2.len() {
                    stop
                } else {
                    match unify_seq_fuel((fuel - 1) as nat, s, a1, a2, 0) {
                        None => None,
                        Some(o) => if o.clash is Some {
                            Some(o)
                        } else {
                            unify_fuel((fuel - 1) as nat, o.subst, *r1, *r2)
                        },
                    }
                },
                (Ty::Tuple(a1), Ty::Tuple(a2)) => if a1.len() != a2.len() {
                    stop
                } else {
                    unify_seq_fuel((fuel - 1) as nat, s, a1, a2, 0)
                },
                (Ty::Array(e1), Ty::Array(e2)) => unify_fuel((fuel - 1) as nat, s, *e1, *e2),
                _ => stop,
            }
        }
    }
}

/// The unification of `a[i..]` with `b[i..]`, pair by pair and in order,
/// stopping at the first clash.
pub open spec fn unify_seq_fuel(fuel: nat, s: Map<u64, Ty>, a: Seq<Ty>, b: Seq<Ty>, i: nat) -> Option<
    Outcome,
>
    decreases fuel, a.len() + 1 - i,
{
    if i >= a.len() {
        Some(Outcome { subst: s, clash: None })
    } else {
        match unify_fuel(fuel, s, a[i as int], b[i as int]) {
            None => None,
            Some(o) => if o.clash is Some {
                Some(o)
            } else {
                unify_seq_fuel(fuel, o.subst, a, b, i + 1)
            },
        }
    }
}

/// Unifying `t1` with `t2` under `s` ends in `o`.
pub open spec fn unifies(s: Map<u64, Ty>, t1: Ty, t2: Ty, o: Outcome) -> bool {
    exists|fuel: nat| unify_fuel(fuel, s, t1, t2) == Some(o)
}

/// Unifying `a[i..]` with `b[i..]` under `s` ends in `o`.
pub open spec fn seq_unifies(s: Map<u64, Ty>, a: Seq<Ty>, b: Seq<Ty>, i: nat, o: Outcome) -> bool {
    exists|fuel: nat| unify_seq_fuel(fuel, s, a, b, i) == Some(o)
}

/// More fuel does not change an outcome that was reached.
pub proof fn lemma_fuel_mono(f: nat, g: nat, s: Map<u64, Ty>, t1: Ty, t2: Ty)
    requires
        f <= g,
        unify_fuel(f, s, t1, t2) is Some,
    ensures
        unify_fuel(g, s, t1, t2) == unify_fuel(f, s, t1, t2),
    decreases f, 0int,
{
    let n1 = norm(s, t1);
    let n2 = norm(s, t2);
    if n1 is Var || n2 is Var {
    } else {
        match (n1, n2) {
            (Ty::Fun(a1, r1), Ty::Fun(a2, r2)) => {
                if a1.len() == a2.len() {
                    lemma_seq_fuel_mono((f - 1) as nat, (g - 1) as nat, s, a1, a2, 0);
                    let o = unify_seq_fuel((f - 1) as nat, s, a1, a2, 0)->Some_0;
                    if o.clash is None {
                        lemma_fuel_mono((f - 1) as nat, (g - 1) as nat, o.subst, *r1, *r2);
                    }
                }
            },
            (Ty::Tuple(a1), Ty::Tuple(a2)) => {
                if a1.len() == a2.len() {
                    lemma_seq_fuel_mono((f - 1) as nat, (g - 1) as nat, s, a1, a2, 0);
                }
            },
            (Ty::Array(e1), Ty::Array(e2)) => {
                lemma_fuel_mono((f - 1) as nat, (g - 1) as nat, s, *e1, *e2);
            },
            _ => {},
        }
    }
}

pub proof fn lemma_seq_fuel_mono(f: nat, g: nat, s: Map<u64, Ty>, a: Seq<Ty>, b: Seq<Ty>, i: nat)
    requires
        f <= g,
        unify_seq_fuel(f, s, a, b, i) is Some,
    ensures
        unify_seq_fuel(g, s, a, b, i) == unify_seq_fuel(f, s, a, b, i),
    decreases f, a.len() + 1 - i,
{
    if i < a.len() {
        lemma_fuel_mono(f, g, s, a[i as int], b[i as int]);
        let o = unify_fuel(f, s, a[i as int], b[i as int])->Some_0;
        if o.clash is None {
            lemma_seq_fuel_mono(f, g, o.subst, a, b, i + 1);
        }
    }
}

/// What a substitution that grew out of `s` by unification is to `s`: it is
/// acyclic, keeps the bindings of `s`, and is either `s` itself or binds
/// more variables.
pub open spec fn grown(s: Map<u64, Ty>, s2: Map<u64, Ty>) -> bool {
    &&& acyclic(s2)
    &&& extends(s, s2)
    &&& s.dom().finite() ==> s2.dom().finite() && (s2 == s || s.dom().len() < s2.dom().len())
}

pub proof fn lemma_grown_trans(s: Map<u64, Ty>, s1: Map<u64, Ty>, s2: Map<u64, Ty>)
    requires
        grown(s, s1),
        grown(s1, s2),
    ensures
        grown(s, s2),
{
    assert forall|v: u64| #[trigger] s.dom().contains(v) implies s2.dom().contains(v) && s2[v]
        == s[v] by {
        assert(s1.dom().contains(v));
    }
}

/// Resolving under a grown substitution sees a type and its old normal form
/// alike.
proof fn lemma_resolve_norm_ext(s: Map<u64, Ty>, s2: Map<u64, Ty>, t: Ty)
    requires
        acyclic(s),
        acyclic(s2),
        extends(s, s2),
    ensures
        resolve(s2, norm(s, t)) == resolve(s2, t),
{
    lemma_norm(s, t);
    lemma_resolve_ext(s, s2, t);
    lemma_resolve_ext(s, s2, norm(s, t));
}

proof fn lemma_bind_sound(s: Map<u64, Ty>, v: u64, t: Ty, t1: Ty, t2: Ty)
    requires
        acyclic(s),
        !s.dom().contains(v),
        (norm(s, t1) == Ty::Var(v) && norm(s, t2) == t) || (norm(s, t2) == Ty::Var(v) && norm(
            s,
            t1,
        ) == t),
    ensures
        ({
            let o = bind(s, v, t, norm(s, t1), norm(s, t2));
            grown(s, o.subst) && (o.clash is None ==> resolve(o.subst, t1) == resolve(
                o.subst,
                t2,
            ))
        }),
{
    let o = bind(s, v, t, norm(s, t1), norm(s, t2));
    lemma_norm(s, t1);
    lemma_norm(s, t2);
    if t == Ty::Var(v) {
    } else if occurs_in(v, resolve(s, t)) {
    } else {
        let s2 = s.insert(v, t);
        lemma_bind_acyclic(s, v, t);
        lemma_resolve_norm_ext(s, s2, t1);
        lemma_resolve_norm_ext(s, s2, t2);
        lemma_resolve_var(s2, v);
        assert(s2.dom() =~= s.dom().insert(v));
    }
}

/// What unification reaches from an acyclic substitution: a grown
/// substitution under which, if there was no clash, the two types resolve
/// to the same type.
pub proof fn lemma_unify_fuel_sound(fuel: nat, s: Map<u64, Ty>, t1: Ty, t2: Ty)
    requires
        acyclic(s),
        unify_fuel(fuel, s, t1, t2) is Some,
    ensures
        ({
            let o = unify_fuel(fuel, s, t1, t2)->Some_0;
            grown(s, o.subst) && (o.clash is None ==> resolve(o.subst, t1) == resolve(
                o.subst,
                t2,
            ))
        }),
    decreases fuel, 0int,
{
    let n1 = norm(s, t1);
    let n2 = norm(s, t2);
    let o = unify_fuel(fuel, s, t1, t2)->Some_0;
    lemma_norm(s, t1);
    lemma_norm(s, t2);
    if n1 is Var {
        lemma_bind_sound(s, n1->Var_0, n2, t1, t2);
    } else if n2 is Var {
        lemma_bind_sound(s, n2->Var_0, n1, t1, t2);
    } else {
        lemma_resolve_parts(s, n1);
        lemma_resolve_parts(s, n2);
        match (n1, n2) {
            (Ty::Fun(a1, r1), Ty::Fun(a2, r2)) => {
                if a1.len() == a2.len() {
                    lemma_unify_seq_fuel_sound((fuel - 1) as nat, s, a1, a2, 0);
                    let oa = unify_seq_fuel((fuel - 1) as nat, s, a1, a2, 0)->Some_0;
                    if oa.clash is None {
                        lemma_unify_fuel_sound((fuel - 1) as nat, oa.subst, *r1, *r2);
                        lemma_grown_trans(s, oa.subst, o.subst);
                        if o.clash is None {
                            let sf = o.subst;
                            assert forall|j: int| 0 <= j < a1.len() implies resolve(sf, a1[j])
                                == resolve(sf, a2[j]) by {
                                lemma_resolve_stable(oa.subst, sf, a1[j], a2[j]);
                            }
                            lemma_resolve_seq(sf, a1);
                            lemma_resolve_seq(sf, a2);
                            assert(resolve_seq(sf, a1) =~= resolve_seq(sf, a2));
                            lemma_resolve_parts(sf, n1);
                            lemma_resolve_parts(sf, n2);
                            lemma_resolve_norm_ext(s, sf, t1);
                            lemma_resolve_norm_ext(s, sf, t2);
                        }
                    }
                }
            },
            (Ty::Tuple(a1), Ty::Tuple(a2)) => {
                if a1.len() == a2.len() {
                    lemma_unify_seq_fuel_sound((fuel - 1) as nat, s, a1, a2, 0);
                    if o.clash is None {
                        let sf = o.subst;
                        lemma_resolve_seq(sf, a1);
                        lemma_resolve_seq(sf, a2);
                        assert(resolve_seq(sf, a1) =~= resolve_seq(sf, a2));
                        lemma_resolve_parts(sf, n1);
                        lemma_resolve_parts(sf, n2);
                        lemma_resolve_norm_ext(s, sf, t1);
                        lemma_resolve_norm_ext(s, sf, t2);
                    }
                }
            },
            (Ty::Array(e1), Ty::Array(e2)) => {
                lemma_unify_fuel_sound((fuel - 1) as nat, s, *e1, *e2);
                if o.clash is None {
                    let sf = o.subst;
                    lemma_resolve_parts(sf, n1);
                    lemma_resolve_parts(sf, n2);
                    lemma_resolve_norm_ext(s, sf, t1);
                    lemma_resolve_norm_ext(s, sf, t2);
                }
            },
            _ => {},
        }
    }
}

pub proof fn lemma_unify_seq_fuel_sound(
    fuel: nat,
    s: Map<u64, Ty>,
    a: Seq<Ty>,
    b: Seq<Ty>,
    i: nat,
)
    requires
        acyclic(s),
        a.len() == b.len(),
        unify_seq_fuel(fuel, s, a, b, i) is Some,
    ensures
        ({
            let o = unify_seq_fuel(fuel, s, a, b, i)->Some_0;
            grown(s, o.subst) && (o.clash is None ==> forall|j: int|
                i <= j < a.len() ==> resolve(o.subst, #[trigger] a[j]) == resolve(o.subst, b[j]))
        }),
    decreases fuel, a.len() + 1 - i,
{
    if i < a.len() {
        lemma_unify_fuel_sound(fuel, s, a[i as int], b[i as int]);
        let o1 = unify_fuel(fuel, s, a[i as int], b[i as int])->Some_0;
        if o1.clash is None {
            lemma_unify_seq_fuel_sound(fuel, o1.subst, a, b, i + 1);
            let o = unify_seq_fuel(fuel, o1.subst, a, b, i + 1)->Some_0;
            lemma_grown_trans(s, o1.subst, o.subst);
            if o.clash is None {
                lemma_resolve_stable(o1.subst, o.subst, a[i as int], b[i as int]);
            }
        }
    }
}

/// The clash that a result of unification reports, if any.
pub open spec fn clash_of(res: Result<(), TypeErr>) -> Option<(Ty, Ty)> {
    match res {
        Err(TypeErr::UnifyError(a, b)) => Some((a@, b@)),
        _ => None,
    }
}

/// The outcome that an executable unification stands for: the model of the
/// substitution it left, and the clash it reported.
pub open spec fn outcome_of(m: Map<u64, Type>, res: Result<(), TypeErr>) -> Outcome {
    Outcome { subst: subst_model(m), clash: clash_of(res) }
}

/// The only error that unification reports is a clash of two types.
pub open spec fn clash_only(res: Result<(), TypeErr>) -> bool {
    res matches Err(e) ==> e is UnifyError
}

/// Learns that a hash map holds no more entries than a `usize` counts.
fn len_fits(substs: &HashMap<TyVar, Type>)
    ensures
        substs@.dom().len() <= usize::MAX,
        substs@.dom().finite(),
{
    let _ = substs.len();
}

fn bind_var(substs: &mut HashMap<TyVar, Type>, v: TyVar, t: Type, n1: Type, n2: Type) -> (res:
    Result<(), TypeErr>)
    requires
        acyclic(subst_model(old(substs)@)),
        !old(substs)@.dom().contains(v),
    ensures
        outcome_of(final(substs)@, res) == bind(subst_model(old(substs)@), v, t@, n1@, n2@),
        clash_only(res),
{
    let same = match &t {
        Type::Var(w) => *w == v,
        _ => false,
    };
    if same {
        return Ok(());
    }
    if occurs(substs, v, &t) {
        return Err(TypeErr::UnifyError(n1, n2));
    }
    proof {
        lemma_subst_model_insert(substs@, v, t);
    }
    substs.insert(v, t);
    Ok(())
}

fn unify_list(substs: &mut HashMap<TyVar, Type>, a: &Vec<Type>, b: &Vec<Type>, i: usize) -> (res:
    Result<(), TypeErr>)
    requires
        acyclic(subst_model(old(substs)@)),
        a.len() == b.len(),
        i <= a.len(),
    ensures
        seq_unifies(
            subst_model(old(substs)@),
            model_seq(a@),
            model_seq(b@),
            i as nat,
            outcome_of(final(substs)@, res),
        ),
        clash_only(res),
        grown(subst_model(old(substs)@), subst_model(final(substs)@)),
    decreases
            usize::MAX - old(substs)@.dom().len(),
            resolve_seq(subst_model(old(substs)@), model_seq(a@)),
            a.len() - i,
{
    let ghost s = subst_model(substs@);
    let ghost ma = model_seq(a@);
    let ghost mb = model_seq(b@);
    proof {
        lemma_subst_model_insert(substs@, 0, Type::Unit);
        lemma_resolve_seq(s, ma);
    }
    if i >= a.len() {
        assert(unify_seq_fuel(0, s, ma, mb, i as nat) == Some(Outcome { subst: s, clash: None }));
        return Ok(());
    }
    proof {
        assert(resolve_seq(s, ma)[i as int] == resolve(s, a[i as int]@));
        assert(decreases_to!(resolve_seq(s, ma) => resolve_seq(s, ma)[i as int]));
    }
    let first = unify(substs, &a[i], &b[i]);
    let ghost s1 = subst_model(substs@);
    let ghost o1 = Outcome { subst: s1, clash: clash_of(first) };
    let ghost f1 = choose|f: nat| unify_fuel(f, s, ma[i as int], mb[i as int]) == Some(o1);
    match first {
        Err(e) => {
            assert(unify_seq_fuel(f1, s, ma, mb, i as nat) == Some(o1));
            Err(e)
        },
        Ok(()) => {
            len_fits(substs);
            proof {
                lemma_subst_model_insert(substs@, 0, Type::Unit);
            }
            let rest = unify_list(substs, a, b, i + 1);
            proof {
                let o = Outcome { subst: subst_model(substs@), clash: clash_of(rest) };
                let i1 = (i + 1) as nat;
                let f2 = choose|f: nat| unify_seq_fuel(f, s1, ma, mb, i1) == Some(o);
                let f = if f1 < f2 {
                    f2
                } else {
                    f1
                };
                lemma_fuel_mono(f1, f, s, ma[i as int], mb[i as int]);
                lemma_seq_fuel_mono(f2, f, s1, ma, mb, i1);
                assert(unify_seq_fuel(f, s, ma, mb, i as nat) == Some(o));
                lemma_grown_trans(s, s1, o.subst);
            }
            rest
        },
    }
}

/// Unifies `ty1` with `ty2`: extends `substs` so that the two types become
/// equal, or reports the two normal forms that cannot be made equal.
///
/// Both types are first brought to normal form. Two equal base types unify
/// as they are; two function types, two tuple types and two array types
/// unify part by part, in order, if they have as many parts; an unbound
/// variable is bound to the other side (the left one, where both sides are
/// variables), unless it can be reached from it. Bindings made before a
/// clash stay.
pub fn unify(substs: &mut HashMap<TyVar, Type>, ty1: &Type, ty2: &Type) -> (res: Result<
    (),
    TypeErr,
>)
    requires
        acyclic(subst_model(old(substs)@)),
    ensures
        unifies(
            subst_model(old(substs)@),
            ty1@,
            ty2@,
            outcome_of(final(substs)@, res),
        ),
        clash_only(res),
        grown(subst_model(old(substs)@), subst_model(final(substs)@)),
        res is Ok ==> resolve(subst_model(final(substs)@), ty1@) == resolve(
            subst_model(final(substs)@),
            ty2@,
        ),
    decreases
            usize::MAX - old(substs)@.dom().len(),
            resolve(subst_model(old(substs)@), ty1@),
            0int,
{
    let ghost s = subst_model(substs@);
    let ghost t1 = ty1@;
    let ghost t2 = ty2@;
    proof {
        lemma_norm(s, t1);
        lemma_norm(s, t2);
        lemma_subst_model_insert(substs@, 0, Type::Unit);
    }
    let n1 = clone_type(norm_ty(substs, ty1));
    let n2 = clone_type(norm_ty(substs, ty2));
    proof {
        lemma_resolve_parts(s, n1@);
    }
    if let Type::Var(v) = &n1 {
        let v = *v;
        let t = clone_type(&n2);
        let res = bind_var(substs, v, t, n1, n2);
        proof {
            assert(unify_fuel(1, s, t1, t2) == Some(outcome_of(substs@, res)));
            lemma_unify_fuel_sound(1, s, t1, t2);
        }
        return res;
    }
    if let Type::Var(w) = &n2 {
        let w = *w;
        let t = clone_type(&n1);
        let res = bind_var(substs, w, t, n1, n2);
        proof {
            assert(unify_fuel(1, s, t1, t2) == Some(outcome_of(substs@, res)));
            lemma_unify_fuel_sound(1, s, t1, t2);
        }
        return res;
    }
    let ghost mut fuel: nat = 1;
    let res = match (&n1, &n2) {
        (Type::Fun { args: a1, ret: r1 }, Type::Fun { args: a2, ret: r2 }) => {
            if a1.len() != a2.len() {
                let r = Err(TypeErr::UnifyError(clone_type(&n1), clone_type(&n2)));
                proof {
                    assert(n1@->Fun_0 == model_seq(a1@) && n2@->Fun_0 == model_seq(a2@));
                    assert(model_seq(a1@).len() == a1.len() && model_seq(a2@).len() == a2.len());
                }
                assert(unify_fuel(fuel, s, t1, t2) == Some(outcome_of(substs@, r)));
                r
            } else {
                let ghost ma = model_seq(a1@);
                let ghost mb = model_seq(a2@);
                proof {
                    assert(resolve(s, t1) == resolve(s, n1@));
                    assert(resolve(s, n1@)->Fun_0 == resolve_seq(s, ma));
                    assert(decreases_to!(resolve(s, t1) => resolve_seq(s, ma)));
                }
                let first = unify_list(substs, a1, a2, 0);
                let ghost s1 = subst_model(substs@);
                let ghost oa = outcome_of(substs@, first);
                let ghost fa = choose|f: nat| unify_seq_fuel(f, s, ma, mb, 0) == Some(oa);
                match first {
                    Err(e) => {
                        let r = Err(e);
                        proof {
                            fuel = fa + 1;
                            assert(unify_fuel(fuel, s, t1, t2) == Some(outcome_of(substs@, r)));
                        }
                        r
                    },
                    Ok(()) => {
                        len_fits(substs);
                        proof {
                            lemma_subst_model_insert(substs@, 0, Type::Unit);
                        }
                        let last = unify(substs, r1, r2);
                        proof {
                            let o = outcome_of(substs@, last);
                            let fr = choose|f: nat| unify_fuel(f, s1, r1@, r2@) == Some(o);
                            let f = if fa < fr {
                                fr
                            } else {
                                fa
                            };
                            lemma_seq_fuel_mono(fa, f, s, ma, mb, 0);
                            lemma_fuel_mono(fr, f, s1, r1@, r2@);
                            fuel = f + 1;
                            assert(unify_fuel(fuel, s, t1, t2) == Some(o));
                        }
                        last
                    },
                }
            }
        },
        (Type::Tuple(a1), Type::Tuple(a2)) => {
            if a1.len() != a2.len() {
                let r = Err(TypeErr::UnifyError(clone_type(&n1), clone_type(&n2)));
                proof {
                    assert(n1@->Tuple_0 == model_seq(a1@) && n2@->Tuple_0 == model_seq(a2@));
                    assert(model_seq(a1@).len() == a1.len() && model_seq(a2@).len() == a2.len());
                }
                assert(unify_fuel(fuel, s, t1, t2) == Some(outcome_of(substs@, r)));
                r
            } else {
                let ghost ma = model_seq(a1@);
                let ghost mb = model_seq(a2@);
                proof {
                    assert(resolve(s, t1) == resolve(s, n1@));
                    assert(resolve(s, n1@)->Tuple_0 == resolve_seq(s, ma));
                    assert(decreases_to!(resolve(s, t1) => resolve_seq(s, ma)));
                }
                let all = unify_list(substs, a1, a2, 0);
                proof {
                    let o = outcome_of(substs@, all);
                    let fa = choose|f: nat| unify_seq_fuel(f, s, ma, mb, 0) == Some(o);
                    fuel = fa + 1;
                    assert(unify_fuel(fuel, s, t1, t2) == Some(o));
                }
                all
            }
        },
        (Type::Array(e1), Type::Array(e2)) => {
            let inner = unify(substs, e1, e2);
            proof {
                let o = outcome_of(substs@, inner);
                let fe = choose|f: nat| unify_fuel(f, s, e1@, e2@) == Some(o);
                fuel = fe + 1;
                assert(unify_fuel(fuel, s, t1, t2) == Some(o));
            }
            inner
        },
        (Type::Unit, Type::Unit) | (Type::Bool, Type::Bool) | (Type::Int, Type::Int) | (
            Type::Float,
            Type::Float,
        ) => {
            let r = Ok(());
            assert(unify_fuel(fuel, s, t1, t2) == Some(outcome_of(substs@, r)));
            r
        },
        _ => {
            let r = Err(TypeErr::UnifyError(clone_type(&n1), clone_type(&n2)));
            assert(unify_fuel(fuel, s, t1, t2) == Some(outcome_of(substs@, r)));
            r
        },
    };
    proof {
        lemma_unify_fuel_sound(fuel, s, t1, t2);
    }
    res
}

/// What one unification reaches is determined by where it starts.
pub proof fn lemma_unify_deterministic(s: Map<u64, Ty>, t1: Ty, t2: Ty, o1: Outcome, o2: Outcome)
    requires
        unifies(s, t1, t2, o1),
        unifies(s, t1, t2, o2),
    ensures
        o1 == o2,
{
    let f1 = choose|f: nat| unify_fuel(f, s, t1, t2) == Some(o1);
    let f2 = choose|f: nat| unify_fuel(f, s, t1, t2) == Some(o2);
    if f1 <= f2 {
        lemma_fuel_mono(f1, f2, s, t1, t2);
    } else {
        lemma_fuel_mono(f2, f1, s, t1, t2);
    }
}

/// After a unification that succeeded, the two types are the same type
/// once resolved, and so are their normal forms; the substitution is
/// acyclic and keeps what it held before.
pub proof fn lemma_unify_equates(s: Map<u64, Ty>, t1: Ty, t2: Ty, o: Outcome)
    requires
        acyclic(s),
        unifies(s, t1, t2, o),
        o.clash is None,
    ensures
        grown(s, o.subst),
        resolve(o.subst, t1) == resolve(o.subst, t2),
        resolve(o.subst, norm(o.subst, t1)) == resolve(o.subst, norm(o.subst, t2)),
{
    let f = choose|f: nat| unify_fuel(f, s, t1, t2) == Some(o);
    lemma_unify_fuel_sound(f, s, t1, t2);
    lemma_norm(o.subst, t1);
    lemma_norm(o.subst, t2);
}

/// If `t` unifies with `u`, and then `u` with `v`, then `t` and `v` are the
/// same type once resolved.
pub proof fn lemma_unify_chain(
    s: Map<u64, Ty>,
    t: Ty,
    u: Ty,
    v: Ty,
    o1: Outcome,
    o2: Outcome,
)
    requires
        acyclic(s),
        unifies(s, t, u, o1),
        o1.clash is None,
        unifies(o1.subst, u, v, o2),
        o2.clash is None,
    ensures
        resolve(o2.subst, t) == resolve(o2.subst, v),
        resolve(o2.subst, norm(o2.subst, t)) == resolve(o2.subst, norm(o2.subst, v)),
{
    lemma_unify_equates(s, t, u, o1);
    lemma_unify_equates(o1.subst, u, v, o2);
    lemma_resolve_stable(o1.subst, o2.subst, t, u);
    lemma_norm(o2.subst, t);
    lemma_norm(o2.subst, v);
}

/// A type that resolves to a base type has that base type as its normal
/// form.
pub proof fn lemma_norm_of_base(s: Map<u64, Ty>, t: Ty, base: Ty)
    requires
        acyclic(s),
        base is Unit || base is Bool || base is Int || base is Float,
        resolve(s, t) == base,
    ensures
        norm(s, t) == base,
{
    lemma_norm(s, t);
    lemma_resolve_parts(s, norm(s, t));
}

/// Unifying a variable with a base type, on whichever side the variable
/// stands, makes the base type the normal form of the variable.
pub proof fn lemma_unify_var_base(s: Map<u64, Ty>, a: u64, base: Ty, o: Outcome)
    requires
        acyclic(s),
        base is Unit || base is Bool || base is Int || base is Float,
        unifies(s, Ty::Var(a), base, o) || unifies(s, base, Ty::Var(a), o),
        o.clash is None,
    ensures
        norm(o.subst, Ty::Var(a)) == base,
{
    if unifies(s, Ty::Var(a), base, o) {
        lemma_unify_equates(s, Ty::Var(a), base, o);
    } else {
        lemma_unify_equates(s, base, Ty::Var(a), o);
    }
    lemma_resolve_parts(o.subst, base);
    lemma_norm_of_base(o.subst, Ty::Var(a), base);
}

} // verus!

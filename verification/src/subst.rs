//! Substitutions: maps from type variables to types, whose entries may form
//! chains. A substitution is usable only while it is acyclic; this module
//! says what that means, what the normal form and the full resolution of a
//! type under a substitution are, and how they behave when a substitution
//! grows.

use vstd::prelude::*;
use crate::types::{Ty, Type, TyVar, model, model_seq, clone_type};
use std::collections::HashMap;

verus! {

broadcast use vstd::std_specs::hash::group_hash_axioms;

/// Whether the variable `v` occurs in `t` as written, without looking
/// anything up.
pub open spec fn occurs_in(v: u64, t: Ty) -> bool
    decreases t,
{
    match t {
        Ty::Var(w) => w == v,
        Ty::Fun(args, ret) => (exists|i: int| 0 <= i < args.len() && occurs_in(v, #[trigger] args[i]))
            || occurs_in(v, *ret),
        Ty::Tuple(args) => exists|i: int| 0 <= i < args.len() && occurs_in(v, #[trigger] args[i]),
        Ty::Array(elem) => occurs_in(v, *elem),
        _ => false,
    }
}

/// Every variable that occurs in `t` has a rank under `h`.
pub open spec fn below(rank: spec_fn(u64) -> nat, t: Ty, h: nat) -> bool {
    forall|x: u64| #[trigger] occurs_in(x, t) ==> rank(x) < h
}

/// `rank` witnesses that `s` has no cycle: every variable that occurs in the
/// type bound to `v` ranks strictly under `v`.
pub open spec fn ranked(s: Map<u64, Ty>, rank: spec_fn(u64) -> nat) -> bool {
    forall|v: u64| #[trigger] s.dom().contains(v) ==> below(rank, s[v], rank(v))
}

/// A substitution is acyclic when no variable is reachable from its own
/// binding.
pub open spec fn acyclic(s: Map<u64, Ty>) -> bool {
    exists|rank: spec_fn(u64) -> nat| ranked(s, rank)
}

/// Some ranking of an acyclic substitution.
pub open spec fn rank_of(s: Map<u64, Ty>) -> spec_fn(u64) -> nat {
    choose|rank: spec_fn(u64) -> nat| ranked(s, rank)
}

/// `s2` holds every binding of `s`, unchanged.
pub open spec fn extends(s: Map<u64, Ty>, s2: Map<u64, Ty>) -> bool {
    forall|v: u64| #[trigger] s.dom().contains(v) ==> s2.dom().contains(v) && s2[v] == s[v]
}

pub open spec fn norm_from(s: Map<u64, Ty>, h: nat, t: Ty) -> Ty
    decreases h,
{
    match t {
        Ty::Var(v) => if s.dom().contains(v) && rank_of(s)(v) < h {
            norm_from(s, rank_of(s)(v), s[v])
        } else {
            t
        },
        _ => t,
    }
}

/// The normal form of `t` under `s`: follow the links from variable to
/// binding until a type that is no variable, or an unbound variable, is
/// reached. Meaningful for an acyclic `s`.
pub open spec fn norm(s: Map<u64, Ty>, t: Ty) -> Ty {
    match t {
        Ty::Var(v) => if s.dom().contains(v) {
            norm_from(s, rank_of(s)(v), s[v])
        } else {
            t
        },
        _ => t,
    }
}

pub open spec fn resolve_from(s: Map<u64, Ty>, h: nat, t: Ty) -> Ty
    decreases h, t,
{
    match t {
        Ty::Var(v) => if s.dom().contains(v) && rank_of(s)(v) < h {
            resolve_from(s, rank_of(s)(v), s[v])
        } else {
            t
        },
        Ty::Fun(args, ret) => Ty::Fun(
            Seq::new(
                args.len(),
                |i: int|
                    if 0 <= i < args.len() {
                        resolve_from(s, h, args[i])
                    } else {
                        Ty::Unit
                    },
            ),
            Box::new(resolve_from(s, h, *ret)),
        ),
        Ty::Tuple(args) => Ty::Tuple(
            Seq::new(
                args.len(),
                |i: int|
                    if 0 <= i < args.len() {
                        resolve_from(s, h, args[i])
                    } else {
                        Ty::Unit
                    },
            ),
        ),
        Ty::Array(elem) => Ty::Array(Box::new(resolve_from(s, h, *elem))),
        _ => t,
    }
}

/// The full resolution of `t` under `s`: every bound variable, at any depth,
/// replaced by the resolution of its binding. Meaningful for an acyclic `s`.
pub open spec fn resolve(s: Map<u64, Ty>, t: Ty) -> Ty
    decreases t, 0int,
{
    match t {
        Ty::Var(v) => if s.dom().contains(v) {
            resolve_from(s, rank_of(s)(v), s[v])
        } else {
            t
        },
        Ty::Fun(args, ret) => Ty::Fun(resolve_seq(s, args), Box::new(resolve(s, *ret))),
        Ty::Tuple(args) => Ty::Tuple(resolve_seq(s, args)),
        Ty::Array(elem) => Ty::Array(Box::new(resolve(s, *elem))),
        _ => t,
    }
}

/// The resolutions of a sequence of types, element by element.
pub open spec fn resolve_seq(s: Map<u64, Ty>, ts: Seq<Ty>) -> Seq<Ty>
    decreases ts, 1int,
{
    Seq::new(
        ts.len(),
        |i: int|
            if 0 <= i < ts.len() {
                resolve(s, ts[i])
            } else {
                Ty::Unit
            },
    )
}

/// How a resolution descends into the components of a type.
pub proof fn lemma_resolve_parts(s: Map<u64, Ty>, t: Ty)
    ensures
        t matches Ty::Fun(args, ret) ==> resolve(s, t) == Ty::Fun(
            resolve_seq(s, args),
            Box::new(resolve(s, *ret)),
        ),
        t matches Ty::Tuple(args) ==> resolve(s, t) == Ty::Tuple(resolve_seq(s, args)),
        t matches Ty::Array(elem) ==> resolve(s, t) == Ty::Array(Box::new(resolve(s, *elem))),
        t matches Ty::Var(v) ==> !s.dom().contains(v) ==> resolve(s, t) == t,
        t is Unit || t is Bool || t is Int || t is Float ==> resolve(s, t) == t,
{
}

/// The resolution of a sequence has the length of the sequence, and holds
/// the resolutions of its elements.
pub proof fn lemma_resolve_seq(s: Map<u64, Ty>, ts: Seq<Ty>)
    ensures
        resolve_seq(s, ts).len() == ts.len(),
        forall|i: int| 0 <= i < ts.len() ==> #[trigger] resolve_seq(s, ts)[i] == resolve(s, ts[i]),
{
}

/// A bound on the ranks of the variables of `t`.
pub open spec fn bound_of(rank: spec_fn(u64) -> nat, t: Ty) -> nat
    decreases t, 0nat,
{
    match t {
        Ty::Var(v) => rank(v) + 1,
        Ty::Fun(args, ret) => {
            let a = bound_upto(rank, args, args.len());
            let r = bound_of(rank, *ret);
            if a < r {
                r
            } else {
                a
            }
        },
        Ty::Tuple(args) => bound_upto(rank, args, args.len()),
        Ty::Array(elem) => bound_of(rank, *elem),
        _ => 0,
    }
}

pub open spec fn bound_upto(rank: spec_fn(u64) -> nat, ts: Seq<Ty>, n: nat) -> nat
    decreases ts, n,
{
    if n == 0 || n > ts.len() {
        0
    } else {
        let a = bound_upto(rank, ts, (n - 1) as nat);
        let r = bound_of(rank, ts[n - 1]);
        if a < r {
            r
        } else {
            a
        }
    }
}

pub proof fn lemma_bound_upto(rank: spec_fn(u64) -> nat, ts: Seq<Ty>, n: nat, i: int)
    requires
        0 <= i < n <= ts.len(),
    ensures
        bound_of(rank, ts[i]) <= bound_upto(rank, ts, n),
    decreases n,
{
    if i < n - 1 {
        lemma_bound_upto(rank, ts, (n - 1) as nat, i);
    }
}

proof fn lemma_bound_of_var(rank: spec_fn(u64) -> nat, t: Ty, x: u64)
    requires
        occurs_in(x, t),
    ensures
        rank(x) < bound_of(rank, t),
    decreases t,
{
    match t {
        Ty::Fun(args, ret) => {
            if occurs_in(x, *ret) {
                lemma_bound_of_var(rank, *ret, x);
            } else {
                let i = choose|i: int| 0 <= i < args.len() && occurs_in(x, #[trigger] args[i]);
                lemma_bound_of_var(rank, args[i], x);
                lemma_bound_upto(rank, args, args.len(), i);
            }
        },
        Ty::Tuple(args) => {
            let i = choose|i: int| 0 <= i < args.len() && occurs_in(x, #[trigger] args[i]);
            lemma_bound_of_var(rank, args[i], x);
            lemma_bound_upto(rank, args, args.len(), i);
        },
        Ty::Array(elem) => {
            lemma_bound_of_var(rank, *elem, x);
        },
        _ => {},
    }
}

/// Every variable of `t` ranks under `bound_of(rank, t)`.
pub proof fn lemma_bound_of(rank: spec_fn(u64) -> nat, t: Ty)
    ensures
        below(rank, t, bound_of(rank, t)),
{
    assert forall|x: u64| #[trigger] occurs_in(x, t) implies rank(x) < bound_of(rank, t) by {
        lemma_bound_of_var(rank, t, x);
    }
}

/// The variables of a component of a type are variables of the type.
pub proof fn lemma_below_parts(rank: spec_fn(u64) -> nat, t: Ty, h: nat)
    requires
        below(rank, t, h),
    ensures
        t matches Ty::Fun(args, ret) ==> below(rank, *ret, h) && forall|i: int|
            0 <= i < args.len() ==> below(rank, #[trigger] args[i], h),
        t matches Ty::Tuple(args) ==> forall|i: int|
            0 <= i < args.len() ==> below(rank, #[trigger] args[i], h),
        t matches Ty::Array(elem) ==> below(rank, *elem, h),
{
    match t {
        Ty::Fun(args, ret) => {
            assert forall|x: u64| #[trigger] occurs_in(x, *ret) implies rank(x) < h by {
                assert(occurs_in(x, t));
            }
            assert forall|i: int| 0 <= i < args.len() implies below(rank, #[trigger] args[i], h) by {
                assert forall|x: u64| occurs_in(x, #[trigger] args[i]) implies rank(x) < h by {
                    assert(occurs_in(x, t));
                }
            }
        },
        Ty::Tuple(args) => {
            assert forall|i: int| 0 <= i < args.len() implies below(rank, #[trigger] args[i], h) by {
                assert forall|x: u64| occurs_in(x, #[trigger] args[i]) implies rank(x) < h by {
                    assert(occurs_in(x, t));
                }
            }
        },
        Ty::Array(elem) => {
            assert forall|x: u64| #[trigger] occurs_in(x, *elem) implies rank(x) < h by {
                assert(occurs_in(x, t));
            }
        },
        _ => {},
    }
}

/// Under an acyclic substitution the bound from which a resolution starts
/// does not matter, as long as it covers the variables of the type.
pub proof fn lemma_resolve_from(s: Map<u64, Ty>, h: nat, t: Ty)
    requires
        acyclic(s),
        below(rank_of(s), t, h),
    ensures
        resolve_from(s, h, t) == resolve(s, t),
    decreases t,
{
    let rank = rank_of(s);
    lemma_below_parts(rank, t, h);
    match t {
        Ty::Var(v) => {
            assert(occurs_in(v, t));
        },
        Ty::Fun(args, ret) => {
            lemma_resolve_from(s, h, *ret);
            assert forall|i: int| 0 <= i < args.len() implies resolve_from(s, h, args[i])
                == resolve(s, args[i]) by {
                lemma_resolve_from(s, h, args[i]);
            }
            assert(resolve_from(s, h, t)->Fun_0 =~= resolve_seq(s, args));
        },
        Ty::Tuple(args) => {
            assert forall|i: int| 0 <= i < args.len() implies resolve_from(s, h, args[i])
                == resolve(s, args[i]) by {
                lemma_resolve_from(s, h, args[i]);
            }
            assert(resolve_from(s, h, t)->Tuple_0 =~= resolve_seq(s, args));
        },
        Ty::Array(elem) => {
            lemma_resolve_from(s, h, *elem);
        },
        _ => {},
    }
}

/// Resolving a bound variable is resolving its binding.
pub proof fn lemma_resolve_var(s: Map<u64, Ty>, v: u64)
    requires
        acyclic(s),
        s.dom().contains(v),
    ensures
        resolve(s, Ty::Var(v)) == resolve(s, s[v]),
{
    lemma_resolve_from(s, rank_of(s)(v), s[v]);
}

/// The normal form of a bound variable is that of its binding.
pub proof fn lemma_norm_var(s: Map<u64, Ty>, v: u64)
    requires
        acyclic(s),
        s.dom().contains(v),
    ensures
        norm(s, Ty::Var(v)) == norm(s, s[v]),
{
    match s[v] {
        Ty::Var(w) => {
            assert(occurs_in(w, s[v]));
        },
        _ => {},
    }
}

/// The rank by which following links from `t` terminates.
pub open spec fn link_rank(s: Map<u64, Ty>, t: Ty) -> nat {
    match t {
        Ty::Var(v) => rank_of(s)(v) + 1,
        _ => 0,
    }
}

/// A normal form is never a bound variable, and resolves as the type it
/// came from.
pub proof fn lemma_norm(s: Map<u64, Ty>, t: Ty)
    requires
        acyclic(s),
    ensures
        norm(s, t) matches Ty::Var(v) ==> !s.dom().contains(v),
        !(t is Var) ==> norm(s, t) == t,
        resolve(s, norm(s, t)) == resolve(s, t),
        norm(s, norm(s, t)) == norm(s, t),
    decreases link_rank(s, t),
{
    match t {
        Ty::Var(v) => {
            if s.dom().contains(v) {
                lemma_norm_var(s, v);
                lemma_resolve_var(s, v);
                match s[v] {
                    Ty::Var(w) => {
                        assert(occurs_in(w, s[v]));
                    },
                    _ => {},
                }
                lemma_norm(s, s[v]);
            }
        },
        _ => {},
    }
}

/// Resolving under a larger substitution absorbs a resolution under a
/// smaller one.
proof fn lemma_resolve_ext_from(s: Map<u64, Ty>, s2: Map<u64, Ty>, h: nat, t: Ty)
    requires
        acyclic(s),
        acyclic(s2),
        extends(s, s2),
        below(rank_of(s), t, h),
    ensures
        resolve(s2, resolve_from(s, h, t)) == resolve(s2, t),
    decreases h, t,
{
    let rank = rank_of(s);
    lemma_below_parts(rank, t, h);
    let r = resolve_from(s, h, t);
    match t {
        Ty::Var(v) => {
            assert(occurs_in(v, t));
            if s.dom().contains(v) {
                lemma_resolve_ext_from(s, s2, rank(v), s[v]);
                lemma_resolve_var(s2, v);
            }
        },
        Ty::Fun(args, ret) => {
            lemma_resolve_ext_from(s, s2, h, *ret);
            assert forall|i: int| 0 <= i < args.len() implies resolve(s2, r->Fun_0[i]) == resolve(
                s2,
                args[i],
            ) by {
                lemma_resolve_ext_from(s, s2, h, args[i]);
            }
            assert(resolve_seq(s2, r->Fun_0) =~= resolve_seq(s2, args));
        },
        Ty::Tuple(args) => {
            assert forall|i: int| 0 <= i < args.len() implies resolve(s2, r->Tuple_0[i])
                == resolve(s2, args[i]) by {
                lemma_resolve_ext_from(s, s2, h, args[i]);
            }
            assert(resolve_seq(s2, r->Tuple_0) =~= resolve_seq(s2, args));
        },
        Ty::Array(elem) => {
            lemma_resolve_ext_from(s, s2, h, *elem);
        },
        _ => {},
    }
}

/// Resolving under a larger substitution absorbs a resolution under a
/// smaller one: `resolve(s2, resolve(s, t)) == resolve(s2, t)`.
pub proof fn lemma_resolve_ext(s: Map<u64, Ty>, s2: Map<u64, Ty>, t: Ty)
    requires
        acyclic(s),
        acyclic(s2),
        extends(s, s2),
    ensures
        resolve(s2, resolve(s, t)) == resolve(s2, t),
{
    let h = bound_of(rank_of(s), t);
    lemma_bound_of(rank_of(s), t);
    lemma_resolve_from(s, h, t);
    lemma_resolve_ext_from(s, s2, h, t);
}

/// Two types that resolve alike keep resolving alike when the substitution
/// grows.
pub proof fn lemma_resolve_stable(s: Map<u64, Ty>, s2: Map<u64, Ty>, a: Ty, b: Ty)
    requires
        acyclic(s),
        acyclic(s2),
        extends(s, s2),
        resolve(s, a) == resolve(s, b),
    ensures
        resolve(s2, a) == resolve(s2, b),
{
    lemma_resolve_ext(s, s2, a);
    lemma_resolve_ext(s, s2, b);
}

/// If `x` occurs in `t` and `v` is reachable from `x`, then `v` is
/// reachable from `t`.
pub proof fn lemma_occurs_resolve(s: Map<u64, Ty>, v: u64, x: u64, t: Ty)
    requires
        acyclic(s),
        occurs_in(x, t),
        occurs_in(v, resolve(s, Ty::Var(x))),
    ensures
        occurs_in(v, resolve(s, t)),
    decreases t,
{
    let r = resolve(s, t);
    lemma_resolve_parts(s, t);
    match t {
        Ty::Fun(args, ret) => {
            lemma_resolve_seq(s, args);
            if occurs_in(x, *ret) {
                lemma_occurs_resolve(s, v, x, *ret);
            } else {
                let i = choose|i: int| 0 <= i < args.len() && occurs_in(x, #[trigger] args[i]);
                lemma_occurs_resolve(s, v, x, args[i]);
                assert(occurs_in(v, r->Fun_0[i]));
            }
        },
        Ty::Tuple(args) => {
            lemma_resolve_seq(s, args);
            let i = choose|i: int| 0 <= i < args.len() && occurs_in(x, #[trigger] args[i]);
            lemma_occurs_resolve(s, v, x, args[i]);
            assert(occurs_in(v, r->Tuple_0[i]));
        },
        Ty::Array(elem) => {
            lemma_occurs_resolve(s, v, x, *elem);
        },
        _ => {},
    }
}

/// Binding an unbound variable to a type from which it cannot be reached
/// keeps the substitution acyclic.
pub proof fn lemma_bind_acyclic(s: Map<u64, Ty>, v: u64, t: Ty)
    requires
        acyclic(s),
        !s.dom().contains(v),
        !occurs_in(v, resolve(s, t)),
    ensures
        acyclic(s.insert(v, t)),
        extends(s, s.insert(v, t)),
{
    let rank = rank_of(s);
    let big = bound_of(rank, t);
    let rank2 = |w: u64|
        if occurs_in(v, resolve(s, Ty::Var(w))) {
            (rank(w) + big) as nat
        } else {
            rank(w)
        };
    let s2 = s.insert(v, t);
    lemma_bound_of(rank, t);
    assert(occurs_in(v, resolve(s, Ty::Var(v))));
    assert forall|w: u64| #[trigger] s2.dom().contains(w) implies below(rank2, s2[w], rank2(w)) by {
        assert forall|x: u64| #[trigger] occurs_in(x, s2[w]) implies rank2(x) < rank2(w) by {
            if w == v {
                if occurs_in(v, resolve(s, Ty::Var(x))) {
                    lemma_occurs_resolve(s, v, x, t);
                }
            } else {
                assert(s.dom().contains(w));
                if occurs_in(v, resolve(s, Ty::Var(x))) {
                    lemma_occurs_resolve(s, v, x, s[w]);
                    lemma_resolve_var(s, w);
                }
            }
        }
    }
    assert(ranked(s2, rank2));
}

proof fn lemma_resolve_from_closed(s: Map<u64, Ty>, h: nat, t: Ty, x: u64)
    requires
        acyclic(s),
        below(rank_of(s), t, h),
        occurs_in(x, resolve_from(s, h, t)),
    ensures
        !s.dom().contains(x),
    decreases h, t,
{
    let rank = rank_of(s);
    let r = resolve_from(s, h, t);
    lemma_below_parts(rank, t, h);
    match t {
        Ty::Var(v) => {
            assert(occurs_in(v, t));
            if s.dom().contains(v) {
                lemma_resolve_from_closed(s, rank(v), s[v], x);
            }
        },
        Ty::Fun(args, ret) => {
            if occurs_in(x, *r->Fun_1) {
                lemma_resolve_from_closed(s, h, *ret, x);
            } else {
                let i = choose|i: int| 0 <= i < r->Fun_0.len() && occurs_in(x, #[trigger] r->Fun_0[i]);
                lemma_resolve_from_closed(s, h, args[i], x);
            }
        },
        Ty::Tuple(args) => {
            let i = choose|i: int|
                0 <= i < r->Tuple_0.len() && occurs_in(x, #[trigger] r->Tuple_0[i]);
            lemma_resolve_from_closed(s, h, args[i], x);
        },
        Ty::Array(elem) => {
            lemma_resolve_from_closed(s, h, *elem, x);
        },
        _ => {},
    }
}

/// A resolution holds no bound variable.
pub proof fn lemma_resolve_closed(s: Map<u64, Ty>, t: Ty, x: u64)
    requires
        acyclic(s),
        occurs_in(x, resolve(s, t)),
    ensures
        !s.dom().contains(x),
{
    let h = bound_of(rank_of(s), t);
    lemma_bound_of(rank_of(s), t);
    lemma_resolve_from(s, h, t);
    lemma_resolve_from_closed(s, h, t, x);
}

/// The empty substitution is acyclic.
pub proof fn lemma_empty_acyclic()
    ensures
        acyclic(Map::<u64, Ty>::empty()),
{
    let rank = |w: u64| 0nat;
    assert(ranked(Map::<u64, Ty>::empty(), rank));
}

/// The model of a substitution held in a hash map: the same variables, each
/// bound to the model of its type.
pub open spec fn subst_model(m: Map<u64, Type>) -> Map<u64, Ty> {
    Map::new(|v: u64| m.dom().contains(v), |v: u64| model(m[v]))
}

pub proof fn lemma_subst_model_insert(m: Map<u64, Type>, v: u64, t: Type)
    ensures
        subst_model(m.insert(v, t)) == subst_model(m).insert(v, model(t)),
        subst_model(m).dom() == m.dom(),
{
    assert(subst_model(m.insert(v, t)) =~= subst_model(m).insert(v, model(t)));
    assert(subst_model(m).dom() =~= m.dom());
}

/// Walks the links from `ty` to its normal form under `subst`.
pub fn norm_ty<'a>(subst: &'a HashMap<TyVar, Type>, ty: &'a Type) -> (r: &'a Type)
    requires
        acyclic(subst_model(subst@)),
    ensures
        r@ == norm(subst_model(subst@), ty@),
{
    let ghost s = subst_model(subst@);
    let mut cur = ty;
    loop
        invariant
            s == subst_model(subst@),
            acyclic(s),
            norm(s, cur@) == norm(s, ty@),
        decreases link_rank(s, cur@),
    {
        match cur {
            Type::Var(v) => {
                match subst.get(v) {
                    None => {
                        return cur;
                    },
                    Some(t) => {
                        proof {
                            lemma_norm_var(s, *v);
                            match s[*v] {
                                Ty::Var(w) => {
                                    assert(occurs_in(w, s[*v]));
                                },
                                _ => {},
                            }
                        }
                        cur = t;
                    },
                }
            },
            _ => {
                return cur;
            },
        }
    }
}

/// The normal form of the variable `tyvar` under `substs`.
pub fn deref_tyvar(substs: &HashMap<TyVar, Type>, tyvar: TyVar) -> (r: Type)
    requires
        acyclic(subst_model(substs@)),
    ensures
        r@ == norm(subst_model(substs@), Ty::Var(tyvar)),
{
    let start = Type::Var(tyvar);
    let r = clone_type(norm_ty(substs, &start));
    r
}

fn resolve_from_tys(substs: &HashMap<TyVar, Type>, ts: &Vec<Type>, Ghost(h): Ghost<nat>) -> (r: Vec<
    Type,
>)
    requires
        acyclic(subst_model(substs@)),
        forall|i: int|
            0 <= i < ts.len() ==> below(
                rank_of(subst_model(substs@)),
                #[trigger] model_seq(ts@)[i],
                h,
            ),
    ensures
        model_seq(r@) == resolve_seq(subst_model(substs@), model_seq(ts@)),
    decreases h, ts, 1int,
{
    let ghost s = subst_model(substs@);
    let mut out: Vec<Type> = Vec::new();
    let mut i: usize = 0;
    while i < ts.len()
        invariant
            s == subst_model(substs@),
            acyclic(s),
            forall|i: int| 0 <= i < ts.len() ==> below(rank_of(s), #[trigger] model_seq(ts@)[i], h),
            i <= ts.len(),
            out.len() == i,
            forall|j: int| 0 <= j < i ==> model(out@[j]) == resolve(s, model(ts@[j])),
        decreases ts.len() - i,
    {
        assert(below(rank_of(s), model_seq(ts@)[i as int], h));
        out.push(resolve_from_ty(substs, &ts[i], Ghost(h)));
        i += 1;
    }
    assert(model_seq(out@) =~= resolve_seq(s, model_seq(ts@)));
    out
}

fn resolve_from_ty(substs: &HashMap<TyVar, Type>, t: &Type, Ghost(h): Ghost<nat>) -> (r: Type)
    requires
        acyclic(subst_model(substs@)),
        below(rank_of(subst_model(substs@)), t@, h),
    ensures
        r@ == resolve(subst_model(substs@), t@),
    decreases h, t, 0int,
{
    let ghost s = subst_model(substs@);
    proof {
        lemma_below_parts(rank_of(s), t@, h);
    }
    match t {
        Type::Var(v) => {
            match substs.get(v) {
                None => Type::Var(*v),
                Some(t2) => {
                    proof {
                        assert(occurs_in(*v, t@));
                        lemma_resolve_var(s, *v);
                    }
                    resolve_from_ty(substs, t2, Ghost(rank_of(s)(*v)))
                },
            }
        },
        Type::Fun { args, ret } => {
            let a = resolve_from_tys(substs, args, Ghost(h));
            let r = resolve_from_ty(substs, ret, Ghost(h));
            Type::Fun { args: a, ret: Box::new(r) }
        },
        Type::Tuple(args) => Type::Tuple(resolve_from_tys(substs, args, Ghost(h))),
        Type::Array(elem) => Type::Array(Box::new(resolve_from_ty(substs, elem, Ghost(h)))),
        Type::Unit => Type::Unit,
        Type::Bool => Type::Bool,
        Type::Int => Type::Int,
        Type::Float => Type::Float,
    }
}

/// The full resolution of `t` under `substs`: the type with every bound
/// variable, at any depth, replaced by what it stands for.
pub fn resolve_ty(substs: &HashMap<TyVar, Type>, t: &Type) -> (r: Type)
    requires
        acyclic(subst_model(substs@)),
    ensures
        r@ == resolve(subst_model(substs@), t@),
{
    let ghost h = bound_of(rank_of(subst_model(substs@)), t@);
    proof {
        lemma_bound_of(rank_of(subst_model(substs@)), t@);
    }
    resolve_from_ty(substs, t, Ghost(h))
}

fn occurs_from_tys(substs: &HashMap<TyVar, Type>, v: TyVar, ts: &Vec<Type>, Ghost(h): Ghost<nat>) -> (r:
    bool)
    requires
        acyclic(subst_model(substs@)),
        forall|i: int|
            0 <= i < ts.len() ==> below(
                rank_of(subst_model(substs@)),
                #[trigger] model_seq(ts@)[i],
                h,
            ),
    ensures
        r == exists|i: int|
            0 <= i < ts.len() && occurs_in(
                v,
                #[trigger] resolve_seq(subst_model(substs@), model_seq(ts@))[i],
            ),
    decreases h, ts, 1int,
{
    let ghost s = subst_model(substs@);
    let ghost rs = resolve_seq(s, model_seq(ts@));
    let mut i: usize = 0;
    while i < ts.len()
        invariant
            s == subst_model(substs@),
            rs == resolve_seq(s, model_seq(ts@)),
            acyclic(s),
            forall|i: int| 0 <= i < ts.len() ==> below(rank_of(s), #[trigger] model_seq(ts@)[i], h),
            i <= ts.len(),
            forall|j: int| 0 <= j < i ==> !occurs_in(v, #[trigger] rs[j]),
        decreases ts.len() - i,
    {
        assert(below(rank_of(s), model_seq(ts@)[i as int], h));
        if occurs_from(substs, v, &ts[i], Ghost(h)) {
            assert(occurs_in(v, rs[i as int]));
            return true;
        }
        i += 1;
    }
    false
}

fn occurs_from(substs: &HashMap<TyVar, Type>, v: TyVar, t: &Type, Ghost(h): Ghost<nat>) -> (r: bool)
    requires
        acyclic(subst_model(substs@)),
        below(rank_of(subst_model(substs@)), t@, h),
    ensures
        r == occurs_in(v, resolve(subst_model(substs@), t@)),
    decreases h, t, 0int,
{
    let ghost s = subst_model(substs@);
    proof {
        lemma_below_parts(rank_of(s), t@, h);
        lemma_resolve_parts(s, t@);
    }
    match t {
        Type::Var(w) => {
            match substs.get(w) {
                None => {
                    assert(resolve(s, t@) == Ty::Var(*w));
                    *w == v
                },
                Some(t2) => {
                    proof {
                        assert(occurs_in(*w, t@));
                        lemma_resolve_var(s, *w);
                    }
                    occurs_from(substs, v, t2, Ghost(rank_of(s)(*w)))
                },
            }
        },
        Type::Fun { args, ret } => {
            proof {
                lemma_resolve_seq(s, model_seq(args@));
            }
            if occurs_from_tys(substs, v, args, Ghost(h)) {
                let ghost i = choose|i: int|
                    0 <= i < args.len() && occurs_in(
                        v,
                        #[trigger] resolve_seq(s, model_seq(args@))[i],
                    );
                assert(occurs_in(v, resolve(s, t@)->Fun_0[i]));
                true
            } else {
                occurs_from(substs, v, ret, Ghost(h))
            }
        },
        Type::Tuple(args) => {
            proof {
                lemma_resolve_seq(s, model_seq(args@));
            }
            let r = occurs_from_tys(substs, v, args, Ghost(h));
            proof {
                if r {
                    let i = choose|i: int|
                        0 <= i < args.len() && occurs_in(
                            v,
                            #[trigger] resolve_seq(s, model_seq(args@))[i],
                        );
                    assert(occurs_in(v, resolve(s, t@)->Tuple_0[i]));
                }
            }
            r
        },
        Type::Array(elem) => occurs_from(substs, v, elem, Ghost(h)),
        _ => false,
    }
}

/// Whether the variable `v` can be reached from `t` under `substs`: whether
/// it occurs in the full resolution of `t`.
pub fn occurs(substs: &HashMap<TyVar, Type>, v: TyVar, t: &Type) -> (r: bool)
    requires
        acyclic(subst_model(substs@)),
    ensures
        r == occurs_in(v, resolve(subst_model(substs@), t@)),
{
    let ghost h = bound_of(rank_of(subst_model(substs@)), t@);
    proof {
        lemma_bound_of(rank_of(subst_model(substs@)), t@);
    }
    occurs_from(substs, v, t, Ghost(h))
}

} // verus!

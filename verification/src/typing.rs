//! The typing rules of the language, and the soundness of inference: what
//! inference accepts has, by the rules, the type that inference gives it.
//! So a program that has no type by the rules is rejected.

use vstd::prelude::*;
use crate::subst::{
    acyclic, extends, occurs_in, ranked, rank_of, resolve, resolve_seq, lemma_empty_acyclic,
    lemma_resolve_closed, lemma_resolve_ext, lemma_resolve_parts, lemma_resolve_seq,
    lemma_resolve_stable, lemma_resolve_var,
};
use crate::syntax::{Binder, Expr};
use crate::type_check::{
    InferState, bind_name, bind_names, binder_types, constrain, fresh, fresh_seq, infer, infer_all,
    init_state, lookup, program_type, settle, settle_seq, unify_spec,
};
use crate::types::{Ty};
use crate::unify::{grown, lemma_grown_trans, lemma_unify_equates};

verus! {

/// Always true: marks the type that a rule asks for.
pub open spec fn is_ty(t: Ty) -> bool {
    true
}

/// Always true: marks the types that a rule asks for.
pub open spec fn are_tys(ts: Seq<Ty>) -> bool {
    true
}

/// Always true: marks the parameter types and the result type that a rule
/// asks for.
pub open spec fn is_fun(ts: Seq<Ty>, r: Ty) -> bool {
    true
}

/// The binders `bs`, each with the type at its index in `ts`.
pub open spec fn zip_env(bs: Seq<Binder>, ts: Seq<Ty>) -> Seq<(Seq<char>, Ty)> {
    Seq::new(bs.len(), |i: int| (bs[i].name@, ts[i]))
}

/// The typing rules: whether `e` has the type `t` where the names in scope
/// have the types that `env` gives them, innermost last. The parameters of
/// a recursive function are in scope in what follows its definition, too.
pub open spec fn typed(env: Seq<(Seq<char>, Ty)>, e: Expr, t: Ty) -> bool
    decreases e,
{
    match e {
        Expr::Unit => t == Ty::Unit,
        Expr::Bool(_) => t == Ty::Bool,
        Expr::Int(_) => t == Ty::Int,
        Expr::Float(_) => t == Ty::Float,
        Expr::Not(a) => t == Ty::Bool && typed(env, *a, Ty::Bool),
        Expr::Neg(a) => t == Ty::Int && typed(env, *a, Ty::Int),
        Expr::FNeg(a) => t == Ty::Float && typed(env, *a, Ty::Float),
        Expr::Add(a, b) | Expr::Sub(a, b) => t == Ty::Int && typed(env, *a, Ty::Int) && typed(
            env,
            *b,
            Ty::Int,
        ),
        Expr::FAdd(a, b) | Expr::FSub(a, b) | Expr::FMul(a, b) | Expr::FDiv(a, b) => t
            == Ty::Float && typed(env, *a, Ty::Float) && typed(env, *b, Ty::Float),
        Expr::Eq(a, b) | Expr::Le(a, b) => t == Ty::Bool && exists|u: Ty| #[trigger]
            is_ty(u) && typed(env, *a, u) && typed(env, *b, u),
        Expr::If(c, a, b) => typed(env, *c, Ty::Bool) && typed(env, *a, t) && typed(env, *b, t),
        Expr::Let { bndr, rhs, body } => exists|u: Ty| #[trigger]
            is_ty(u) && typed(env, *rhs, u) && typed(env.push((bndr.name@, u)), *body, t),
        Expr::Var(name) => lookup(env, name@) == Some(t),
        Expr::LetRec { bndr, args, rhs, body } => exists|us: Seq<Ty>, r: Ty| #[trigger]
            is_fun(us, r) && us.len() == args@.len() && typed(
                env.push((bndr.name@, Ty::Fun(us, Box::new(r)))) + zip_env(args@, us),
                *rhs,
                r,
            ) && typed(
                env.push((bndr.name@, Ty::Fun(us, Box::new(r)))) + zip_env(args@, us),
                *body,
                t,
            ),
        Expr::App { fun, args } => exists|us: Seq<Ty>| #[trigger]
            are_tys(us) && us.len() == args@.len() && typed(env, *fun, Ty::Fun(us, Box::new(t)))
                && forall|i: int| 0 <= i < args@.len() ==> typed(env, #[trigger] args@[i], us[i]),
        Expr::Tuple(args) => exists|us: Seq<Ty>| #[trigger]
            are_tys(us) && us.len() == args@.len() && t == Ty::Tuple(us) && forall|i: int|
                0 <= i < args@.len() ==> typed(env, #[trigger] args@[i], us[i]),
        Expr::LetTuple { bndrs, rhs, body } => exists|us: Seq<Ty>| #[trigger]
            are_tys(us) && us.len() == bndrs@.len() && typed(env, *rhs, Ty::Tuple(us)) && typed(
                env + zip_env(bndrs@, us),
                *body,
                t,
            ),
        Expr::Array(a, b) => exists|u: Ty| #[trigger]
            is_ty(u) && t == Ty::Array(Box::new(u)) && typed(env, *a, Ty::Int) && typed(
                env,
                *b,
                u,
            ),
        Expr::Get(a, b) => typed(env, *a, Ty::Array(Box::new(t))) && typed(env, *b, Ty::Int),
        Expr::Put(a, b, c) => t == Ty::Unit && exists|u: Ty| #[trigger]
            is_ty(u) && typed(env, *a, Ty::Array(Box::new(u))) && typed(env, *b, Ty::Int)
                && typed(env, *c, u),
    }
}

/// The environment `env` with every type resolved under `s`.
pub open spec fn resolve_env(s: Map<u64, Ty>, env: Seq<(Seq<char>, Ty)>) -> Seq<(Seq<char>, Ty)> {
    Seq::new(env.len(), |i: int| (env[i].0, resolve(s, env[i].1)))
}

proof fn lemma_lookup_resolved(s: Map<u64, Ty>, env: Seq<(Seq<char>, Ty)>, name: Seq<char>)
    ensures
        lookup(resolve_env(s, env), name) == match lookup(env, name) {
            Some(t) => Some(resolve(s, t)),
            None => None,
        },
    decreases env.len(),
{
    if env.len() > 0 {
        assert(resolve_env(s, env).drop_last() =~= resolve_env(s, env.drop_last()));
        lemma_lookup_resolved(s, env.drop_last(), name);
    }
}

proof fn lemma_extends_trans(a: Map<u64, Ty>, b: Map<u64, Ty>, c: Map<u64, Ty>)
    requires
        extends(a, b),
        extends(b, c),
    ensures
        extends(a, c),
{
    assert forall|v: u64| #[trigger] a.dom().contains(v) implies c.dom().contains(v) && c[v]
        == a[v] by {
        assert(b.dom().contains(v));
    }
}

proof fn lemma_grown_refl(s: Map<u64, Ty>)
    requires
        acyclic(s),
    ensures
        grown(s, s),
{
}

/// What a constraint that holds leaves: a grown substitution, under which
/// the two types resolve to the same type.
proof fn lemma_constrain(st: InferState, t1: Ty, t2: Ty)
    requires
        acyclic(st.subst),
        constrain(st, t1, t2) is Ok,
    ensures
        ({
            let st2 = constrain(st, t1, t2)->Ok_0;
            &&& grown(st.subst, st2.subst)
            &&& resolve(st2.subst, t1) == resolve(st2.subst, t2)
            &&& st2.env == st.env
            &&& st2.next == st.next
        }),
{
    let o = unify_spec(st.subst, t1, t2);
    lemma_unify_equates(st.subst, t1, t2, o);
}

proof fn lemma_bind_names(st: InferState, bs: Seq<Binder>, ts: Seq<Ty>, i: nat)
    requires
        i <= bs.len(),
        bs.len() == ts.len(),
    ensures
        bind_names(st, bs, ts, i).subst == st.subst,
        bind_names(st, bs, ts, i).next == st.next,
        bind_names(st, bs, ts, i).env == st.env + zip_env(bs, ts).subrange(
            i as int,
            bs.len() as int,
        ),
    decreases bs.len() - i,
{
    let all = zip_env(bs, ts);
    if i < bs.len() {
        let st1 = bind_name(st, bs[i as int], ts[i as int]);
        lemma_bind_names(st1, bs, ts, i + 1);
        assert(st1.env + all.subrange(i as int + 1, bs.len() as int) =~= st.env + all.subrange(
            i as int,
            bs.len() as int,
        ));
    } else {
        assert(st.env + all.subrange(i as int, bs.len() as int) =~= st.env);
    }
}

/// Inference that goes through leaves a grown substitution, and the names
/// in scope as they were.
pub proof fn lemma_infer_grows(st: InferState, e: Expr)
    requires
        acyclic(st.subst),
        infer(st, e) is Ok,
    ensures
        grown(st.subst, infer(st, e)->Ok_0.0.subst),
        infer(st, e)->Ok_0.0.env == st.env,
    decreases e, 0int,
{
    lemma_grown_refl(st.subst);
    let s0 = st.subst;
    match e {
        Expr::Not(a) | Expr::Neg(a) | Expr::FNeg(a) => {
            let (st1, ta) = infer(st, *a)->Ok_0;
            lemma_infer_grows(st, *a);
            let want = if e is Not {
                Ty::Bool
            } else if e is Neg {
                Ty::Int
            } else {
                Ty::Float
            };
            lemma_constrain(st1, want, ta);
            lemma_grown_trans(s0, st1.subst, constrain(st1, want, ta)->Ok_0.subst);
        },
        Expr::Add(a, b) | Expr::Sub(a, b) | Expr::FAdd(a, b) | Expr::FSub(a, b) | Expr::FMul(
            a,
            b,
        ) | Expr::FDiv(a, b) => {
            let (st1, ta) = infer(st, *a)->Ok_0;
            lemma_infer_grows(st, *a);
            let (st2, tb) = infer(st1, *b)->Ok_0;
            lemma_infer_grows(st1, *b);
            lemma_grown_trans(s0, st1.subst, st2.subst);
            let want = if e is Add || e is Sub {
                Ty::Int
            } else {
                Ty::Float
            };
            lemma_constrain(st2, want, ta);
            let st3 = constrain(st2, want, ta)->Ok_0;
            lemma_grown_trans(s0, st2.subst, st3.subst);
            lemma_constrain(st3, want, tb);
            lemma_grown_trans(s0, st3.subst, constrain(st3, want, tb)->Ok_0.subst);
        },
        Expr::Eq(a, b) | Expr::Le(a, b) => {
            let (st1, ta) = infer(st, *a)->Ok_0;
            lemma_infer_grows(st, *a);
            let (st2, tb) = infer(st1, *b)->Ok_0;
            lemma_infer_grows(st1, *b);
            lemma_grown_trans(s0, st1.subst, st2.subst);
            lemma_constrain(st2, ta, tb);
            lemma_grown_trans(s0, st2.subst, constrain(st2, ta, tb)->Ok_0.subst);
        },
        Expr::If(c, a, b) => {
            let (st1, tc) = infer(st, *c)->Ok_0;
            lemma_infer_grows(st, *c);
            let (st2, ta) = infer(st1, *a)->Ok_0;
            lemma_infer_grows(st1, *a);
            lemma_grown_trans(s0, st1.subst, st2.subst);
            let (st3, tb) = infer(st2, *b)->Ok_0;
            lemma_infer_grows(st2, *b);
            lemma_grown_trans(s0, st2.subst, st3.subst);
            lemma_constrain(st3, tc, Ty::Bool);
            let st4 = constrain(st3, tc, Ty::Bool)->Ok_0;
            lemma_grown_trans(s0, st3.subst, st4.subst);
            lemma_constrain(st4, ta, tb);
            lemma_grown_trans(s0, st4.subst, constrain(st4, ta, tb)->Ok_0.subst);
        },
        Expr::Let { bndr, rhs, body } => {
            let (st1, alpha) = fresh(st);
            let (st2, tr) = infer(st1, *rhs)->Ok_0;
            lemma_infer_grows(st1, *rhs);
            lemma_constrain(st2, alpha, tr);
            let st3 = constrain(st2, alpha, tr)->Ok_0;
            lemma_grown_trans(s0, st2.subst, st3.subst);
            let st3b = bind_name(st3, bndr, alpha);
            lemma_infer_grows(st3b, *body);
            lemma_grown_trans(s0, st3.subst, infer(st3b, *body)->Ok_0.0.subst);
        },
        Expr::LetRec { bndr, args, rhs, body } => {
            let n = args@.len();
            let alphas = fresh_seq(st.next, n);
            let beta = Ty::Var((st.next + n) as u64);
            let fun_ty = Ty::Fun(alphas, Box::new(beta));
            let st1 = InferState { next: st.next + n + 1, ..st };
            let st2 = bind_names(bind_name(st1, bndr, fun_ty), args@, alphas, 0);
            lemma_bind_names(bind_name(st1, bndr, fun_ty), args@, alphas, 0);
            let (st3, tr) = infer(st2, *rhs)->Ok_0;
            lemma_infer_grows(st2, *rhs);
            lemma_constrain(st3, beta, tr);
            let st4 = constrain(st3, beta, tr)->Ok_0;
            lemma_grown_trans(s0, st3.subst, st4.subst);
            lemma_infer_grows(st4, *body);
            lemma_grown_trans(s0, st4.subst, infer(st4, *body)->Ok_0.0.subst);
        },
        Expr::App { fun, args } => {
            let (st1, rho) = fresh(st);
            let (st2, ts) = infer_all(st1, args@, 0, Seq::empty())->Ok_0;
            lemma_infer_all_grows(st1, args@, 0, Seq::empty());
            let (st3, tf) = infer(st2, *fun)->Ok_0;
            lemma_infer_grows(st2, *fun);
            lemma_grown_trans(s0, st2.subst, st3.subst);
            let want = Ty::Fun(ts, Box::new(rho));
            lemma_constrain(st3, want, tf);
            lemma_grown_trans(s0, st3.subst, constrain(st3, want, tf)->Ok_0.subst);
        },
        Expr::Tuple(args) => {
            lemma_infer_all_grows(st, args@, 0, Seq::empty());
        },
        Expr::LetTuple { bndrs, rhs, body } => {
            let n = bndrs@.len();
            let alphas = fresh_seq(st.next, n);
            let st1 = InferState { next: st.next + n, ..st };
            let (st2, tr) = infer(st1, *rhs)->Ok_0;
            lemma_infer_grows(st1, *rhs);
            lemma_constrain(st2, tr, Ty::Tuple(alphas));
            let st3 = constrain(st2, tr, Ty::Tuple(alphas))->Ok_0;
            lemma_grown_trans(s0, st2.subst, st3.subst);
            let st3b = bind_names(st3, bndrs@, alphas, 0);
            lemma_bind_names(st3, bndrs@, alphas, 0);
            lemma_infer_grows(st3b, *body);
            lemma_grown_trans(s0, st3.subst, infer(st3b, *body)->Ok_0.0.subst);
        },
        Expr::Array(a, b) => {
            let (st1, ta) = infer(st, *a)->Ok_0;
            lemma_infer_grows(st, *a);
            lemma_constrain(st1, ta, Ty::Int);
            let st2 = constrain(st1, ta, Ty::Int)->Ok_0;
            lemma_grown_trans(s0, st1.subst, st2.subst);
            lemma_infer_grows(st2, *b);
            lemma_grown_trans(s0, st2.subst, infer(st2, *b)->Ok_0.0.subst);
        },
        Expr::Get(a, b) => {
            let (st1, alpha) = fresh(st);
            let (st2, ta) = infer(st1, *a)->Ok_0;
            lemma_infer_grows(st1, *a);
            let arr = Ty::Array(Box::new(alpha));
            lemma_constrain(st2, ta, arr);
            let st3 = constrain(st2, ta, arr)->Ok_0;
            lemma_grown_trans(s0, st2.subst, st3.subst);
            let (st4, tb) = infer(st3, *b)->Ok_0;
            lemma_infer_grows(st3, *b);
            lemma_grown_trans(s0, st3.subst, st4.subst);
            lemma_constrain(st4, tb, Ty::Int);
            lemma_grown_trans(s0, st4.subst, constrain(st4, tb, Ty::Int)->Ok_0.subst);
        },
        Expr::Put(a, b, c) => {
            let (st1, alpha) = fresh(st);
            let (st2, ta) = infer(st1, *a)->Ok_0;
            lemma_infer_grows(st1, *a);
            let arr = Ty::Array(Box::new(alpha));
            lemma_constrain(st2, ta, arr);
            let st3 = constrain(st2, ta, arr)->Ok_0;
            lemma_grown_trans(s0, st2.subst, st3.subst);
            let (st4, tb) = infer(st3, *b)->Ok_0;
            lemma_infer_grows(st3, *b);
            lemma_grown_trans(s0, st3.subst, st4.subst);
            lemma_constrain(st4, tb, Ty::Int);
            let st5 = constrain(st4, tb, Ty::Int)->Ok_0;
            lemma_grown_trans(s0, st4.subst, st5.subst);
            let (st6, tc) = infer(st5, *c)->Ok_0;
            lemma_infer_grows(st5, *c);
            lemma_grown_trans(s0, st5.subst, st6.subst);
            lemma_constrain(st6, tc, alpha);
            lemma_grown_trans(s0, st6.subst, constrain(st6, tc, alpha)->Ok_0.subst);
        },
        _ => {},
    }
}

proof fn lemma_infer_all_grows(st: InferState, es: Seq<Expr>, i: nat, acc: Seq<Ty>)
    requires
        acyclic(st.subst),
        infer_all(st, es, i, acc) is Ok,
    ensures
        ({
            let (st2, ts) = infer_all(st, es, i, acc)->Ok_0;
            &&& grown(st.subst, st2.subst)
            &&& st2.env == st.env
            &&& i <= es.len() ==> ts.len() == acc.len() + es.len() - i
            &&& forall|j: int| 0 <= j < acc.len() ==> ts[j] == acc[j]
        }),
    decreases es, es.len() - i,
{
    lemma_grown_refl(st.subst);
    if i < es.len() {
        let (st1, t) = infer(st, es[i as int])->Ok_0;
        lemma_infer_grows(st, es[i as int]);
        lemma_infer_all_grows(st1, es, i + 1, acc.push(t));
        let (st2, ts) = infer_all(st1, es, i + 1, acc.push(t))->Ok_0;
        lemma_grown_trans(st.subst, st1.subst, st2.subst);
        assert forall|j: int| 0 <= j < acc.len() implies ts[j] == acc[j] by {
            assert(acc.push(t)[j] == acc[j]);
        }
    }
}

proof fn lemma_env_push(s: Map<u64, Ty>, env: Seq<(Seq<char>, Ty)>, name: Seq<char>, t: Ty)
    ensures
        resolve_env(s, env.push((name, t))) == resolve_env(s, env).push((name, resolve(s, t))),
{
    assert(resolve_env(s, env.push((name, t))) =~= resolve_env(s, env).push(
        (name, resolve(s, t)),
    ));
}

proof fn lemma_env_zip(s: Map<u64, Ty>, env: Seq<(Seq<char>, Ty)>, bs: Seq<Binder>, ts: Seq<Ty>)
    requires
        bs.len() == ts.len(),
    ensures
        resolve_env(s, env + zip_env(bs, ts)) == resolve_env(s, env) + zip_env(
            bs,
            resolve_seq(s, ts),
        ),
        resolve_seq(s, ts).len() == ts.len(),
{
    lemma_resolve_seq(s, ts);
    assert(resolve_env(s, env + zip_env(bs, ts)) =~= resolve_env(s, env) + zip_env(
        bs,
        resolve_seq(s, ts),
    ));
}

/// A substitution beyond a grown one is beyond the one it grew from.
proof fn lemma_reach(a: Map<u64, Ty>, b: Map<u64, Ty>, s2: Map<u64, Ty>)
    requires
        grown(a, b),
        extends(b, s2),
    ensures
        extends(a, s2),
{
    lemma_extends_trans(a, b, s2);
}

/// Inference is sound: what it accepts has, by the typing rules, the type
/// that it gives, under every acyclic substitution that keeps the bindings
/// it made.
pub proof fn lemma_infer_sound(st: InferState, e: Expr, s2: Map<u64, Ty>)
    requires
        acyclic(st.subst),
        infer(st, e) is Ok,
        acyclic(s2),
        extends(infer(st, e)->Ok_0.0.subst, s2),
    ensures
        typed(resolve_env(s2, st.env), e, resolve(s2, infer(st, e)->Ok_0.1)),
    decreases e, 0int,
{
    let env = resolve_env(s2, st.env);
    let t = resolve(s2, infer(st, e)->Ok_0.1);
    lemma_resolve_parts(s2, infer(st, e)->Ok_0.1);
    match e {
        Expr::Var(name) => {
            lemma_lookup_resolved(s2, st.env, name@);
        },
        Expr::Not(a) | Expr::Neg(a) | Expr::FNeg(a) => {
            let (st1, ta) = infer(st, *a)->Ok_0;
            lemma_infer_grows(st, *a);
            let want = if e is Not {
                Ty::Bool
            } else if e is Neg {
                Ty::Int
            } else {
                Ty::Float
            };
            lemma_constrain(st1, want, ta);
            let st2 = constrain(st1, want, ta)->Ok_0;
            lemma_reach(st1.subst, st2.subst, s2);
            lemma_infer_sound(st, *a, s2);
            lemma_resolve_stable(st2.subst, s2, want, ta);
            lemma_resolve_parts(s2, want);
        },
        Expr::Add(a, b) | Expr::Sub(a, b) | Expr::FAdd(a, b) | Expr::FSub(a, b) | Expr::FMul(
            a,
            b,
        ) | Expr::FDiv(a, b) => {
            let (st1, ta) = infer(st, *a)->Ok_0;
            lemma_infer_grows(st, *a);
            let (st2, tb) = infer(st1, *b)->Ok_0;
            lemma_infer_grows(st1, *b);
            let want = if e is Add || e is Sub {
                Ty::Int
            } else {
                Ty::Float
            };
            lemma_constrain(st2, want, ta);
            let st3 = constrain(st2, want, ta)->Ok_0;
            lemma_constrain(st3, want, tb);
            let st4 = constrain(st3, want, tb)->Ok_0;
            lemma_reach(st3.subst, st4.subst, s2);
            lemma_reach(st2.subst, st3.subst, s2);
            lemma_reach(st1.subst, st2.subst, s2);
            lemma_infer_sound(st, *a, s2);
            lemma_infer_sound(st1, *b, s2);
            lemma_resolve_stable(st3.subst, s2, want, ta);
            lemma_resolve_stable(st4.subst, s2, want, tb);
            lemma_resolve_parts(s2, want);
        },
        Expr::Eq(a, b) | Expr::Le(a, b) => {
            let (st1, ta) = infer(st, *a)->Ok_0;
            lemma_infer_grows(st, *a);
            let (st2, tb) = infer(st1, *b)->Ok_0;
            lemma_infer_grows(st1, *b);
            lemma_constrain(st2, ta, tb);
            let st3 = constrain(st2, ta, tb)->Ok_0;
            lemma_reach(st2.subst, st3.subst, s2);
            lemma_reach(st1.subst, st2.subst, s2);
            lemma_infer_sound(st, *a, s2);
            lemma_infer_sound(st1, *b, s2);
            lemma_resolve_stable(st3.subst, s2, ta, tb);
            lemma_resolve_parts(s2, Ty::Bool);
            assert(is_ty(resolve(s2, ta)));
        },
        Expr::If(c, a, b) => {
            let (st1, tc) = infer(st, *c)->Ok_0;
            lemma_infer_grows(st, *c);
            let (st2, ta) = infer(st1, *a)->Ok_0;
            lemma_infer_grows(st1, *a);
            let (st3, tb) = infer(st2, *b)->Ok_0;
            lemma_infer_grows(st2, *b);
            lemma_constrain(st3, tc, Ty::Bool);
            let st4 = constrain(st3, tc, Ty::Bool)->Ok_0;
            lemma_constrain(st4, ta, tb);
            let st5 = constrain(st4, ta, tb)->Ok_0;
            lemma_reach(st4.subst, st5.subst, s2);
            lemma_reach(st3.subst, st4.subst, s2);
            lemma_reach(st2.subst, st3.subst, s2);
            lemma_reach(st1.subst, st2.subst, s2);
            lemma_infer_sound(st, *c, s2);
            lemma_infer_sound(st1, *a, s2);
            lemma_infer_sound(st2, *b, s2);
            lemma_resolve_stable(st4.subst, s2, tc, Ty::Bool);
            lemma_resolve_stable(st5.subst, s2, ta, tb);
            lemma_resolve_parts(s2, Ty::Bool);
        },
        Expr::Let { bndr, rhs, body } => {
            let (st1, alpha) = fresh(st);
            let (st2, tr) = infer(st1, *rhs)->Ok_0;
            lemma_infer_grows(st1, *rhs);
            lemma_constrain(st2, alpha, tr);
            let st3 = constrain(st2, alpha, tr)->Ok_0;
            let st3b = bind_name(st3, bndr, alpha);
            let (st4, tb) = infer(st3b, *body)->Ok_0;
            lemma_infer_grows(st3b, *body);
            lemma_reach(st3.subst, st4.subst, s2);
            lemma_reach(st2.subst, st3.subst, s2);
            lemma_infer_sound(st1, *rhs, s2);
            lemma_infer_sound(st3b, *body, s2);
            lemma_resolve_stable(st3.subst, s2, alpha, tr);
            lemma_env_push(s2, st.env, bndr.name@, alpha);
            assert(is_ty(resolve(s2, alpha)));
        },
        Expr::LetRec { bndr, args, rhs, body } => {
            let n = args@.len();
            let alphas = fresh_seq(st.next, n);
            let beta = Ty::Var((st.next + n) as u64);
            let fun_ty = Ty::Fun(alphas, Box::new(beta));
            let st1 = InferState { next: st.next + n + 1, ..st };
            let st1b = bind_name(st1, bndr, fun_ty);
            let st2 = bind_names(st1b, args@, alphas, 0);
            lemma_bind_names(st1b, args@, alphas, 0);
            assert(zip_env(args@, alphas).subrange(0, n as int) =~= zip_env(args@, alphas));
            let (st3, tr) = infer(st2, *rhs)->Ok_0;
            lemma_infer_grows(st2, *rhs);
            lemma_constrain(st3, beta, tr);
            let st4 = constrain(st3, beta, tr)->Ok_0;
            let (st5, tb) = infer(st4, *body)->Ok_0;
            lemma_infer_grows(st4, *body);
            lemma_reach(st4.subst, st5.subst, s2);
            lemma_reach(st3.subst, st4.subst, s2);
            lemma_infer_sound(st2, *rhs, s2);
            lemma_infer_sound(st4, *body, s2);
            lemma_resolve_stable(st4.subst, s2, beta, tr);
            let us = resolve_seq(s2, alphas);
            let r = resolve(s2, beta);
            lemma_resolve_parts(s2, fun_ty);
            lemma_env_push(s2, st.env, bndr.name@, fun_ty);
            lemma_env_zip(s2, st.env.push((bndr.name@, fun_ty)), args@, alphas);
            assert(is_fun(us, r));
        },
        Expr::App { fun, args } => {
            let (st1, rho) = fresh(st);
            let (st2, ts) = infer_all(st1, args@, 0, Seq::empty())->Ok_0;
            lemma_infer_all_grows(st1, args@, 0, Seq::empty());
            let (st3, tf) = infer(st2, *fun)->Ok_0;
            lemma_infer_grows(st2, *fun);
            let want = Ty::Fun(ts, Box::new(rho));
            lemma_constrain(st3, want, tf);
            let st4 = constrain(st3, want, tf)->Ok_0;
            lemma_reach(st3.subst, st4.subst, s2);
            lemma_reach(st2.subst, st3.subst, s2);
            lemma_infer_all_sound(st1, args@, 0, Seq::empty(), s2);
            lemma_infer_sound(st2, *fun, s2);
            lemma_resolve_stable(st4.subst, s2, want, tf);
            lemma_resolve_parts(s2, want);
            lemma_resolve_seq(s2, ts);
            let us = resolve_seq(s2, ts);
            assert(are_tys(us));
            assert forall|i: int| 0 <= i < args@.len() implies typed(
                env,
                #[trigger] args@[i],
                us[i],
            ) by {}
        },
        Expr::Tuple(args) => {
            let (st1, ts) = infer_all(st, args@, 0, Seq::empty())->Ok_0;
            lemma_infer_all_grows(st, args@, 0, Seq::empty());
            lemma_infer_all_sound(st, args@, 0, Seq::empty(), s2);
            lemma_resolve_parts(s2, Ty::Tuple(ts));
            lemma_resolve_seq(s2, ts);
            let us = resolve_seq(s2, ts);
            assert(are_tys(us));
            assert forall|i: int| 0 <= i < args@.len() implies typed(
                env,
                #[trigger] args@[i],
                us[i],
            ) by {}
        },
        Expr::LetTuple { bndrs, rhs, body } => {
            let n = bndrs@.len();
            let alphas = fresh_seq(st.next, n);
            let st1 = InferState { next: st.next + n, ..st };
            let (st2, tr) = infer(st1, *rhs)->Ok_0;
            lemma_infer_grows(st1, *rhs);
            lemma_constrain(st2, tr, Ty::Tuple(alphas));
            let st3 = constrain(st2, tr, Ty::Tuple(alphas))->Ok_0;
            let st3b = bind_names(st3, bndrs@, alphas, 0);
            lemma_bind_names(st3, bndrs@, alphas, 0);
            assert(zip_env(bndrs@, alphas).subrange(0, n as int) =~= zip_env(bndrs@, alphas));
            let (st4, tb) = infer(st3b, *body)->Ok_0;
            lemma_infer_grows(st3b, *body);
            lemma_reach(st3.subst, st4.subst, s2);
            lemma_reach(st2.subst, st3.subst, s2);
            lemma_infer_sound(st1, *rhs, s2);
            lemma_infer_sound(st3b, *body, s2);
            lemma_resolve_stable(st3.subst, s2, tr, Ty::Tuple(alphas));
            lemma_resolve_parts(s2, Ty::Tuple(alphas));
            lemma_env_zip(s2, st.env, bndrs@, alphas);
            assert(are_tys(resolve_seq(s2, alphas)));
        },
        Expr::Array(a, b) => {
            let (st1, ta) = infer(st, *a)->Ok_0;
            lemma_infer_grows(st, *a);
            lemma_constrain(st1, ta, Ty::Int);
            let st2 = constrain(st1, ta, Ty::Int)->Ok_0;
            let (st3, tb) = infer(st2, *b)->Ok_0;
            lemma_infer_grows(st2, *b);
            lemma_reach(st2.subst, st3.subst, s2);
            lemma_reach(st1.subst, st2.subst, s2);
            lemma_infer_sound(st, *a, s2);
            lemma_infer_sound(st2, *b, s2);
            lemma_resolve_stable(st2.subst, s2, ta, Ty::Int);
            lemma_resolve_parts(s2, Ty::Int);
            lemma_resolve_parts(s2, Ty::Array(Box::new(tb)));
            assert(is_ty(resolve(s2, tb)));
        },
        Expr::Get(a, b) => {
            let (st1, alpha) = fresh(st);
            let (st2, ta) = infer(st1, *a)->Ok_0;
            lemma_infer_grows(st1, *a);
            let arr = Ty::Array(Box::new(alpha));
            lemma_constrain(st2, ta, arr);
            let st3 = constrain(st2, ta, arr)->Ok_0;
            let (st4, tb) = infer(st3, *b)->Ok_0;
            lemma_infer_grows(st3, *b);
            lemma_constrain(st4, tb, Ty::Int);
            let st5 = constrain(st4, tb, Ty::Int)->Ok_0;
            lemma_reach(st4.subst, st5.subst, s2);
            lemma_reach(st3.subst, st4.subst, s2);
            lemma_reach(st2.subst, st3.subst, s2);
            lemma_infer_sound(st1, *a, s2);
            lemma_infer_sound(st3, *b, s2);
            lemma_resolve_stable(st3.subst, s2, ta, arr);
            lemma_resolve_stable(st5.subst, s2, tb, Ty::Int);
            lemma_resolve_parts(s2, Ty::Int);
            lemma_resolve_parts(s2, arr);
        },
        Expr::Put(a, b, c) => {
            let (st1, alpha) = fresh(st);
            let (st2, ta) = infer(st1, *a)->Ok_0;
            lemma_infer_grows(st1, *a);
            let arr = Ty::Array(Box::new(alpha));
            lemma_constrain(st2, ta, arr);
            let st3 = constrain(st2, ta, arr)->Ok_0;
            let (st4, tb) = infer(st3, *b)->Ok_0;
            lemma_infer_grows(st3, *b);
            lemma_constrain(st4, tb, Ty::Int);
            let st5 = constrain(st4, tb, Ty::Int)->Ok_0;
            let (st6, tc) = infer(st5, *c)->Ok_0;
            lemma_infer_grows(st5, *c);
            lemma_constrain(st6, tc, alpha);
            let st7 = constrain(st6, tc, alpha)->Ok_0;
            lemma_reach(st6.subst, st7.subst, s2);
            lemma_reach(st5.subst, st6.subst, s2);
            lemma_reach(st4.subst, st5.subst, s2);
            lemma_reach(st3.subst, st4.subst, s2);
            lemma_reach(st2.subst, st3.subst, s2);
            lemma_infer_sound(st1, *a, s2);
            lemma_infer_sound(st3, *b, s2);
            lemma_infer_sound(st5, *c, s2);
            lemma_resolve_stable(st3.subst, s2, ta, arr);
            lemma_resolve_stable(st5.subst, s2, tb, Ty::Int);
            lemma_resolve_stable(st7.subst, s2, tc, alpha);
            lemma_resolve_parts(s2, Ty::Int);
            lemma_resolve_parts(s2, Ty::Unit);
            lemma_resolve_parts(s2, arr);
            assert(is_ty(resolve(s2, alpha)));
        },
        _ => {},
    }
}

proof fn lemma_infer_all_sound(
    st: InferState,
    es: Seq<Expr>,
    i: nat,
    acc: Seq<Ty>,
    s2: Map<u64, Ty>,
)
    requires
        acyclic(st.subst),
        i <= es.len(),
        infer_all(st, es, i, acc) is Ok,
        acyclic(s2),
        extends(infer_all(st, es, i, acc)->Ok_0.0.subst, s2),
    ensures
        forall|j: int|
            i <= j < es.len() ==> typed(
                resolve_env(s2, st.env),
                #[trigger] es[j],
                resolve(s2, infer_all(st, es, i, acc)->Ok_0.1[acc.len() + j - i]),
            ),
    decreases es, es.len() - i,
{
    if i < es.len() {
        let (st1, t) = infer(st, es[i as int])->Ok_0;
        lemma_infer_grows(st, es[i as int]);
        let (st2, ts) = infer_all(st1, es, i + 1, acc.push(t))->Ok_0;
        lemma_infer_all_grows(st1, es, i + 1, acc.push(t));
        lemma_reach(st1.subst, st2.subst, s2);
        lemma_infer_sound(st, es[i as int], s2);
        lemma_infer_all_sound(st1, es, i + 1, acc.push(t), s2);
        assert(ts[acc.len() as int] == acc.push(t)[acc.len() as int]);
        assert forall|j: int| i <= j < es.len() implies typed(
            resolve_env(s2, st.env),
            #[trigger] es[j],
            resolve(s2, ts[acc.len() + j - i]),
        ) by {
            if j > i {
                assert(acc.push(t).len() + j - (i + 1) == acc.len() + j - i);
            }
        }
    }
}

/// The substitution `s` with every variable that it leaves open bound to
/// `Unit`.
pub open spec fn settled(s: Map<u64, Ty>) -> Map<u64, Ty> {
    Map::new(
        |v: u64| true,
        |v: u64|
            if s.dom().contains(v) {
                s[v]
            } else {
                Ty::Unit
            },
    )
}

proof fn lemma_settled_acyclic(s: Map<u64, Ty>)
    requires
        acyclic(s),
    ensures
        acyclic(settled(s)),
        extends(s, settled(s)),
{
    let rank = rank_of(s);
    let ss = settled(s);
    let rank2 = |v: u64|
        if s.dom().contains(v) {
            (rank(v) + 1) as nat
        } else {
            0nat
        };
    assert forall|v: u64| #[trigger] ss.dom().contains(v) implies crate::subst::below(
        rank2,
        ss[v],
        rank2(v),
    ) by {
        assert forall|x: u64| #[trigger] occurs_in(x, ss[v]) implies rank2(x) < rank2(v) by {
            if s.dom().contains(v) {
                assert(rank(x) < rank(v));
            }
        }
    }
    assert(ranked(ss, rank2));
}

proof fn lemma_settle_open(s: Map<u64, Ty>, u: Ty)
    requires
        acyclic(settled(s)),
        forall|x: u64| #[trigger] occurs_in(x, u) ==> !s.dom().contains(x),
    ensures
        resolve(settled(s), u) == settle(u),
    decreases u,
{
    let ss = settled(s);
    lemma_resolve_parts(ss, u);
    match u {
        Ty::Var(v) => {
            assert(occurs_in(v, u));
            lemma_resolve_var(ss, v);
            lemma_resolve_parts(ss, Ty::Unit);
        },
        Ty::Fun(args, ret) => {
            assert forall|x: u64| #[trigger] occurs_in(x, *ret) implies !s.dom().contains(x) by {
                assert(occurs_in(x, u));
            }
            lemma_settle_open(s, *ret);
            lemma_resolve_seq(ss, args);
            assert forall|i: int| 0 <= i < args.len() implies resolve(ss, args[i]) == settle(
                args[i],
            ) by {
                assert forall|x: u64| #[trigger] occurs_in(x, args[i]) implies !s.dom().contains(
                    x,
                ) by {
                    assert(occurs_in(x, u));
                }
                lemma_settle_open(s, args[i]);
            }
            assert(resolve_seq(ss, args) =~= settle_seq(args));
        },
        Ty::Tuple(args) => {
            lemma_resolve_seq(ss, args);
            assert forall|i: int| 0 <= i < args.len() implies resolve(ss, args[i]) == settle(
                args[i],
            ) by {
                assert forall|x: u64| #[trigger] occurs_in(x, args[i]) implies !s.dom().contains(
                    x,
                ) by {
                    assert(occurs_in(x, u));
                }
                lemma_settle_open(s, args[i]);
            }
            assert(resolve_seq(ss, args) =~= settle_seq(args));
        },
        Ty::Array(elem) => {
            assert forall|x: u64| #[trigger] occurs_in(x, *elem) implies !s.dom().contains(x) by {
                assert(occurs_in(x, u));
            }
            lemma_settle_open(s, *elem);
        },
        _ => {},
    }
}

/// Resolving a type and replacing the variables that stay open by `Unit`
/// is resolving it under the settled substitution.
proof fn lemma_resolve_settled(s: Map<u64, Ty>, t: Ty)
    requires
        acyclic(s),
    ensures
        resolve(settled(s), t) == settle(resolve(s, t)),
{
    lemma_settled_acyclic(s);
    lemma_resolve_ext(s, settled(s), t);
    assert forall|x: u64| #[trigger] occurs_in(x, resolve(s, t)) implies !s.dom().contains(x) by {
        lemma_resolve_closed(s, t, x);
    }
    lemma_settle_open(s, resolve(s, t));
}

/// The names in scope at the start of a program, with their types.
pub open spec fn start_env() -> Seq<(Seq<char>, Ty)> {
    init_state(0).env
}

proof fn lemma_start_env(s: Map<u64, Ty>)
    requires
        acyclic(s),
    ensures
        resolve_env(s, start_env()) == start_env(),
{
    let f = Ty::Fun(seq![Ty::Int], Box::new(Ty::Unit));
    lemma_resolve_parts(s, f);
    lemma_resolve_parts(s, Ty::Int);
    lemma_resolve_parts(s, Ty::Unit);
    lemma_resolve_seq(s, seq![Ty::Int]);
    assert(resolve_seq(s, seq![Ty::Int]) =~= seq![Ty::Int]);
    assert(resolve_env(s, start_env()) =~= start_env());
}

/// A program that inference accepts has, by the typing rules, the type
/// that inference reports.
pub proof fn lemma_type_check_sound(e: Expr)
    requires
        program_type(e) is Ok,
    ensures
        typed(start_env(), e, program_type(e)->Ok_0),
{
    let st0 = init_state(0);
    lemma_empty_acyclic();
    let (st1, t) = infer(st0, e)->Ok_0;
    lemma_infer_grows(st0, e);
    let ss = settled(st1.subst);
    lemma_settled_acyclic(st1.subst);
    lemma_infer_sound(st0, e, ss);
    lemma_resolve_settled(st1.subst, t);
    lemma_start_env(ss);
}

/// A program for which inference gives a table of binder types has a type
/// by the typing rules.
pub proof fn lemma_type_check_pgm_sound(e: Expr, n: nat)
    requires
        binder_types(e, n) is Ok,
    ensures
        exists|t: Ty| typed(start_env(), e, t),
{
    let st0 = init_state(n);
    lemma_empty_acyclic();
    let (st1, t) = infer(st0, e)->Ok_0;
    lemma_infer_grows(st0, e);
    let ss = settled(st1.subst);
    lemma_settled_acyclic(st1.subst);
    lemma_infer_sound(st0, e, ss);
    lemma_start_env(ss);
    assert(typed(start_env(), e, resolve(ss, t)));
}

/// A program that has no type by the typing rules is rejected: inference
/// ends in a type error, whatever the number of binders it is run with.
pub proof fn lemma_ill_typed_rejected(e: Expr, n: nat)
    requires
        forall|t: Ty| !typed(start_env(), e, t),
    ensures
        program_type(e) is Err,
        binder_types(e, n) is Err,
{
    if program_type(e) is Ok {
        lemma_type_check_sound(e);
    }
    if binder_types(e, n) is Ok {
        lemma_type_check_pgm_sound(e, n);
    }
}

} // verus!

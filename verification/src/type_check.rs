//! Type inference: a walk over the syntax tree that gives every binder a
//! type variable, unifies what the language's rules equate, and resolves
//! every binder's type at the end.

use vstd::prelude::*;
use crate::types::{
    Ty, Type, TyVar, TypeErr, TypeErrModel, model, model_seq, clone_type, clone_types, ground,
    lemma_model_parts, lemma_model_seq,
};
use crate::subst::{acyclic, resolve, subst_model, resolve_ty, lemma_empty_acyclic};
use crate::unify::{Outcome, unifies, unify, outcome_of, lemma_unify_deterministic};
use crate::syntax::{Binder, BinderId, Expr};
use std::collections::HashMap;

verus! {

broadcast use vstd::std_specs::hash::group_hash_axioms;

/// The state that inference threads through a program.
pub struct InferState {
    /// The next fresh type variable.
    pub next: nat,
    /// The substitution built so far.
    pub subst: Map<u64, Ty>,
    /// The names in scope, innermost last, each with its type.
    pub env: Seq<(Seq<char>, Ty)>,
    /// The type given to each binder, by the binder's identity.
    pub table: Seq<Ty>,
}

/// The outcome of the unification of `t1` with `t2` under `s`.
pub open spec fn unify_spec(s: Map<u64, Ty>, t1: Ty, t2: Ty) -> Outcome {
    choose|o: Outcome| unifies(s, t1, t2, o)
}

/// Hands out the next fresh type variable.
pub open spec fn fresh(st: InferState) -> (InferState, Ty) {
    (InferState { next: st.next + 1, ..st }, Ty::Var(st.next as u64))
}

/// `n` fresh type variables, in order.
pub open spec fn fresh_seq(next: nat, n: nat) -> Seq<Ty> {
    Seq::new(n, |i: int| Ty::Var((next + i) as u64))
}

/// Whether the unification of `t1` with `t2` under `s` comes to an end, as
/// it does under every acyclic substitution held in memory.
pub open spec fn unify_ends(s: Map<u64, Ty>, t1: Ty, t2: Ty) -> bool {
    exists|o: Outcome| unifies(s, t1, t2, o)
}

/// Requires `t1` and `t2` to be the same type: unifies them, and fails with
/// the clash if there is one.
pub open spec fn constrain(st: InferState, t1: Ty, t2: Ty) -> Result<InferState, TypeErrModel> {
    if !unify_ends(st.subst, t1, t2) {
        Err(TypeErrModel::UnifyError(t1, t2))
    } else {
        let o = unify_spec(st.subst, t1, t2);
        match o.clash {
            Some((a, b)) => Err(TypeErrModel::UnifyError(a, b)),
            None => Ok(InferState { subst: o.subst, ..st }),
        }
    }
}

/// Notes the type of the binder `id`, where the table has a place for it.
pub open spec fn record(table: Seq<Ty>, id: BinderId, t: Ty) -> Seq<Ty> {
    if id < table.len() {
        table.update(id as int, t)
    } else {
        table
    }
}

/// Brings the binder `b` into scope with type `t`.
pub open spec fn bind_name(st: InferState, b: Binder, t: Ty) -> InferState {
    InferState { env: st.env.push((b.name@, t)), table: record(st.table, b.id, t), ..st }
}

/// Brings the binders `bs[i..]` into scope, each with the type at its
/// index in `ts`.
pub open spec fn bind_names(st: InferState, bs: Seq<Binder>, ts: Seq<Ty>, i: nat) -> InferState
    decreases bs.len() - i,
{
    if i >= bs.len() {
        st
    } else {
        bind_names(bind_name(st, bs[i as int], ts[i as int]), bs, ts, i + 1)
    }
}

/// Leaves a scope: the names in scope are again those of `env`.
pub open spec fn leave(st: InferState, env: Seq<(Seq<char>, Ty)>) -> InferState {
    InferState { env: env, ..st }
}

/// The type of the innermost binding of `name` in `env`.
pub open spec fn lookup(env: Seq<(Seq<char>, Ty)>, name: Seq<char>) -> Option<Ty>
    decreases env.len(),
{
    if env.len() == 0 {
        None
    } else if env.last().0 == name {
        Some(env.last().1)
    } else {
        lookup(env.drop_last(), name)
    }
}

/// The result of checking an operand that must have type `want`.
pub open spec fn expect(r: Result<(InferState, Ty), TypeErrModel>, want: Ty) -> Result<
    (InferState, Ty),
    TypeErrModel,
> {
    match r {
        Err(e) => Err(e),
        Ok((st, t)) => match constrain(st, want, t) {
            Err(e) => Err(e),
            Ok(st2) => Ok((st2, want)),
        },
    }
}

/// Two operands of types `ta` and `tb` that must both have type `want`.
pub open spec fn both_are(st: InferState, want: Ty, ta: Ty, tb: Ty) -> Result<
    (InferState, Ty),
    TypeErrModel,
> {
    match constrain(st, want, ta) {
        Err(e) => Err(e),
        Ok(st2) => match constrain(st2, want, tb) {
            Err(e) => Err(e),
            Ok(st3) => Ok((st3, want)),
        },
    }
}

/// Constrains `t1` to `t2` and then gives `result`.
pub open spec fn constrained(st: InferState, t1: Ty, t2: Ty, result: Ty) -> Result<
    (InferState, Ty),
    TypeErrModel,
> {
    match constrain(st, t1, t2) {
        Err(e) => Err(e),
        Ok(st2) => Ok((st2, result)),
    }
}

/// Type inference on `e` from the state `st`: the state it reaches and the
/// type of `e`, or the first error.
pub open spec fn infer(st: InferState, e: Expr) -> Result<(InferState, Ty), TypeErrModel>
    decreases e, 0int,
{
    match e {
        Expr::Unit => Ok((st, Ty::Unit)),
        Expr::Bool(_) => Ok((st, Ty::Bool)),
        Expr::Int(_) => Ok((st, Ty::Int)),
        Expr::Float(_) => Ok((st, Ty::Float)),
        Expr::Not(a) => expect(infer(st, *a), Ty::Bool),
        Expr::Neg(a) => expect(infer(st, *a), Ty::Int),
        Expr::FNeg(a) => expect(infer(st, *a), Ty::Float),
        Expr::Add(a, b) | Expr::Sub(a, b) => match infer(st, *a) {
            Err(e) => Err(e),
            Ok((st1, ta)) => match infer(st1, *b) {
                Err(e) => Err(e),
                Ok((st2, tb)) => both_are(st2, Ty::Int, ta, tb),
            },
        },
        Expr::FAdd(a, b) | Expr::FSub(a, b) | Expr::FMul(a, b) | Expr::FDiv(a, b) => match infer(
            st,
            *a,
        ) {
            Err(e) => Err(e),
            Ok((st1, ta)) => match infer(st1, *b) {
                Err(e) => Err(e),
                Ok((st2, tb)) => both_are(st2, Ty::Float, ta, tb),
            },
        },
        Expr::Eq(a, b) | Expr::Le(a, b) => match infer(st, *a) {
            Err(e) => Err(e),
            Ok((st1, ta)) => match infer(st1, *b) {
                Err(e) => Err(e),
                Ok((st2, tb)) => constrained(st2, ta, tb, Ty::Bool),
            },
        },
        Expr::If(c, a, b) => match infer(st, *c) {
            Err(e) => Err(e),
            Ok((st1, tc)) => match infer(st1, *a) {
                Err(e) => Err(e),
                Ok((st2, ta)) => match infer(st2, *b) {
                    Err(e) => Err(e),
                    Ok((st3, tb)) => match constrain(st3, tc, Ty::Bool) {
                        Err(e) => Err(e),
                        Ok(st4) => constrained(st4, ta, tb, ta),
                    },
                },
            },
        },
        Expr::Let { bndr, rhs, body } => {
            let (st1, alpha) = fresh(st);
            match infer(st1, *rhs) {
                Err(e) => Err(e),
                Ok((st2, tr)) => match constrain(st2, alpha, tr) {
                    Err(e) => Err(e),
                    Ok(st3) => match infer(bind_name(st3, bndr, alpha), *body) {
                        Err(e) => Err(e),
                        Ok((st4, tb)) => Ok((leave(st4, st.env), tb)),
                    },
                },
            }
        },
        Expr::Var(name) => match lookup(st.env, name@) {
            Some(t) => Ok((st, t)),
            None => Err(TypeErrModel::UnboundVar(name@)),
        },
        Expr::LetRec { bndr, args, rhs, body } => {
            let n = args@.len();
            let alphas = fresh_seq(st.next, n);
            let beta = Ty::Var((st.next + n) as u64);
            let fun_ty = Ty::Fun(alphas, Box::new(beta));
            let st1 = InferState { next: st.next + n + 1, ..st };
            let st2 = bind_names(bind_name(st1, bndr, fun_ty), args@, alphas, 0);
            match infer(st2, *rhs) {
                Err(e) => Err(e),
                Ok((st3, tr)) => match constrain(st3, beta, tr) {
                    Err(e) => Err(e),
                    Ok(st4) => match infer(st4, *body) {
                        Err(e) => Err(e),
                        Ok((st5, tb)) => Ok((leave(st5, st.env), tb)),
                    },
                },
            }
        },
        Expr::App { fun, args } => {
            let (st1, rho) = fresh(st);
            match infer_all(st1, args@, 0, Seq::empty()) {
                Err(e) => Err(e),
                Ok((st2, ts)) => match infer(st2, *fun) {
                    Err(e) => Err(e),
                    Ok((st3, tf)) => constrained(st3, Ty::Fun(ts, Box::new(rho)), tf, rho),
                },
            }
        },
        Expr::Tuple(args) => match infer_all(st, args@, 0, Seq::empty()) {
            Err(e) => Err(e),
            Ok((st1, ts)) => Ok((st1, Ty::Tuple(ts))),
        },
        Expr::LetTuple { bndrs, rhs, body } => {
            let n = bndrs@.len();
            let alphas = fresh_seq(st.next, n);
            let st1 = InferState { next: st.next + n, ..st };
            match infer(st1, *rhs) {
                Err(e) => Err(e),
                Ok((st2, tr)) => match constrain(st2, tr, Ty::Tuple(alphas)) {
                    Err(e) => Err(e),
                    Ok(st3) => match infer(bind_names(st3, bndrs@, alphas, 0), *body) {
                        Err(e) => Err(e),
                        Ok((st4, tb)) => Ok((leave(st4, st.env), tb)),
                    },
                },
            }
        },
        Expr::Array(a, b) => match infer(st, *a) {
            Err(e) => Err(e),
            Ok((st1, ta)) => match constrain(st1, ta, Ty::Int) {
                Err(e) => Err(e),
                Ok(st2) => match infer(st2, *b) {
                    Err(e) => Err(e),
                    Ok((st3, tb)) => Ok((st3, Ty::Array(Box::new(tb)))),
                },
            },
        },
        Expr::Get(a, b) => {
            let (st1, alpha) = fresh(st);
            match infer(st1, *a) {
                Err(e) => Err(e),
                Ok((st2, ta)) => match constrain(st2, ta, Ty::Array(Box::new(alpha))) {
                    Err(e) => Err(e),
                    Ok(st3) => match infer(st3, *b) {
                        Err(e) => Err(e),
                        Ok((st4, tb)) => constrained(st4, tb, Ty::Int, alpha),
                    },
                },
            }
        },
        Expr::Put(a, b, c) => {
            let (st1, alpha) = fresh(st);
            match infer(st1, *a) {
                Err(e) => Err(e),
                Ok((st2, ta)) => match constrain(st2, ta, Ty::Array(Box::new(alpha))) {
                    Err(e) => Err(e),
                    Ok(st3) => match infer(st3, *b) {
                        Err(e) => Err(e),
                        Ok((st4, tb)) => match constrain(st4, tb, Ty::Int) {
                            Err(e) => Err(e),
                            Ok(st5) => match infer(st5, *c) {
                                Err(e) => Err(e),
                                Ok((st6, tc)) => constrained(st6, tc, alpha, Ty::Unit),
                            },
                        },
                    },
                },
            }
        },
    }
}

/// Type inference on `es[i..]`, in order; `acc` holds the types of
/// `es[..i]`.
pub open spec fn infer_all(st: InferState, es: Seq<Expr>, i: nat, acc: Seq<Ty>) -> Result<
    (InferState, Seq<Ty>),
    TypeErrModel,
>
    decreases es, es.len() - i,
{
    if i >= es.len() {
        Ok((st, acc))
    } else {
        match infer(st, es[i as int]) {
            Err(e) => Err(e),
            Ok((st1, t)) => infer_all(st1, es, i + 1, acc.push(t)),
        }
    }
}

/// How many fresh type variables inference on `e` takes, if it goes
/// through.
pub open spec fn demand(e: Expr) -> nat
    decreases e, 0nat,
{
    match e {
        Expr::Unit | Expr::Bool(_) | Expr::Int(_) | Expr::Float(_) | Expr::Var(_) => 0,
        Expr::Not(a) | Expr::Neg(a) | Expr::FNeg(a) => demand(*a),
        Expr::Add(a, b) | Expr::Sub(a, b) | Expr::FAdd(a, b) | Expr::FSub(a, b) | Expr::FMul(
            a,
            b,
        ) | Expr::FDiv(a, b) | Expr::Eq(a, b) | Expr::Le(a, b) | Expr::Array(a, b) => demand(*a)
            + demand(*b),
        Expr::If(c, a, b) => demand(*c) + demand(*a) + demand(*b),
        Expr::Let { bndr, rhs, body } => 1 + demand(*rhs) + demand(*body),
        Expr::LetRec { bndr, args, rhs, body } => args@.len() + 1 + demand(*rhs) + demand(*body),
        Expr::App { fun, args } => 1 + demand_from(args@, 0) + demand(*fun),
        Expr::Tuple(args) => demand_from(args@, 0),
        Expr::LetTuple { bndrs, rhs, body } => bndrs@.len() + demand(*rhs) + demand(*body),
        Expr::Get(a, b) => 1 + demand(*a) + demand(*b),
        Expr::Put(a, b, c) => 1 + demand(*a) + demand(*b) + demand(*c),
    }
}

/// How many fresh type variables inference on `es[i..]` takes.
pub open spec fn demand_from(es: Seq<Expr>, i: nat) -> nat
    decreases es, es.len() - i,
{
    if i >= es.len() {
        0
    } else {
        demand(es[i as int]) + demand_from(es, i + 1)
    }
}

/// The inference state in executable form.
pub struct Checker {
    /// The next fresh type variable.
    pub tyvar_cnt: u64,
    /// The substitution built so far.
    pub substs: HashMap<TyVar, Type>,
    /// The names in scope, innermost last.
    pub env: Vec<(String, Type)>,
    /// The type given to each binder.
    pub bndr_tys: Vec<Type>,
}

/// The model of an environment: names and types by their views.
pub open spec fn env_model(env: Seq<(String, Type)>) -> Seq<(Seq<char>, Ty)> {
    Seq::new(env.len(), |i: int| (env[i].0@, env[i].1@))
}

impl View for Checker {
    type V = InferState;

    open spec fn view(&self) -> InferState {
        InferState {
            next: self.tyvar_cnt as nat,
            subst: subst_model(self.substs@),
            env: env_model(self.env@),
            table: model_seq(self.bndr_tys@),
        }
    }
}

/// An executable result stands for a result of the model, reached in the
/// state `st`.
pub open spec fn agrees(
    res: Result<Type, TypeErr>,
    st: InferState,
    m: Result<(InferState, Ty), TypeErrModel>,
) -> bool {
    match res {
        Ok(t) => m == Ok::<(InferState, Ty), TypeErrModel>((st, t@)),
        Err(e) => m == Err::<(InferState, Ty), TypeErrModel>(e@),
    }
}

/// The same for a list of types.
pub open spec fn agrees_all(
    res: Result<Vec<Type>, TypeErr>,
    st: InferState,
    m: Result<(InferState, Seq<Ty>), TypeErrModel>,
) -> bool {
    match res {
        Ok(ts) => m == Ok::<(InferState, Seq<Ty>), TypeErrModel>((st, model_seq(ts@))),
        Err(e) => m == Err::<(InferState, Seq<Ty>), TypeErrModel>(e@),
    }
}

/// The same for a constraint.
pub open spec fn agrees_unit(
    res: Result<(), TypeErr>,
    st: InferState,
    m: Result<InferState, TypeErrModel>,
) -> bool {
    match res {
        Ok(_) => m == Ok::<InferState, TypeErrModel>(st),
        Err(e) => m == Err::<InferState, TypeErrModel>(e@),
    }
}

/// Create initial type environment with built-in stuff.
pub fn mk_type_env() -> (env: Vec<(String, Type)>)
    ensures
        env_model(env@) == seq![
            ("print_int"@, Ty::Fun(seq![Ty::Int], Box::new(Ty::Unit))),
        ],
{
    let mut args: Vec<Type> = Vec::new();
    args.push(Type::Int);
    assert(model_seq(args@) =~= seq![Ty::Int]);
    let ty = Type::Fun { args, ret: Box::new(Type::Unit) };
    proof {
        lemma_model_parts(ty);
        lemma_model_parts(Type::Unit);
    }
    let mut env: Vec<(String, Type)> = Vec::new();
    env.push(("print_int".to_owned(), ty));
    assert(env_model(env@) =~= seq![("print_int"@, Ty::Fun(seq![Ty::Int], Box::new(Ty::Unit)))]);
    env
}

/// Hands out the type variable `*tyvar_cnt` and steps the counter.
pub fn new_tyvar(tyvar_cnt: &mut u64) -> (t: Type)
    requires
        *old(tyvar_cnt) < u64::MAX,
    ensures
        t@ == Ty::Var(*old(tyvar_cnt)),
        *final(tyvar_cnt) == *old(tyvar_cnt) + 1,
{
    let tyvar = *tyvar_cnt;
    *tyvar_cnt = *tyvar_cnt + 1;
    Type::Var(tyvar)
}

fn fresh_one(ck: &mut Checker) -> (t: Type)
    requires
        old(ck).tyvar_cnt < u64::MAX,
    ensures
        (final(ck)@, t@) == fresh(old(ck)@),
        final(ck).substs == old(ck).substs,
        final(ck).env == old(ck).env,
        final(ck).bndr_tys == old(ck).bndr_tys,
        final(ck).tyvar_cnt == old(ck).tyvar_cnt + 1,
{
    let mut cnt = ck.tyvar_cnt;
    let t = new_tyvar(&mut cnt);
    ck.tyvar_cnt = cnt;
    t
}

fn fresh_many(ck: &mut Checker, n: usize) -> (ts: Vec<Type>)
    requires
        old(ck).tyvar_cnt + n <= u64::MAX,
    ensures
        model_seq(ts@) == fresh_seq(old(ck)@.next, n as nat),
        ts.len() == n,
        final(ck).substs == old(ck).substs,
        final(ck).env == old(ck).env,
        final(ck).bndr_tys == old(ck).bndr_tys,
        final(ck).tyvar_cnt == old(ck).tyvar_cnt + n,
{
    let ghost st0 = ck@;
    let mut ts: Vec<Type> = Vec::new();
    let mut i: usize = 0;
    while i < n
        invariant
            i <= n,
            ts.len() == i,
            st0.next + n <= u64::MAX,
            ck.tyvar_cnt == st0.next + i,
            ck.substs == old(ck).substs,
            ck.env == old(ck).env,
            ck.bndr_tys == old(ck).bndr_tys,
            forall|j: int| 0 <= j < i ==> model(#[trigger] ts@[j]) == Ty::Var((st0.next + j) as u64),
        decreases n - i,
    {
        let t = fresh_one(ck);
        ts.push(t);
        i += 1;
    }
    assert(model_seq(ts@) =~= fresh_seq(st0.next, n as nat));
    ts
}

fn constrain_types(ck: &mut Checker, t1: &Type, t2: &Type) -> (res: Result<(), TypeErr>)
    requires
        acyclic(old(ck)@.subst),
    ensures
        agrees_unit(res, final(ck)@, constrain(old(ck)@, t1@, t2@)),
        acyclic(final(ck)@.subst),
        final(ck).tyvar_cnt == old(ck).tyvar_cnt,
        final(ck).env == old(ck).env,
        final(ck).bndr_tys == old(ck).bndr_tys,
{
    let ghost s = subst_model(ck.substs@);
    let mut substs = HashMap::new();
    std::mem::swap(&mut substs, &mut ck.substs);
    let res = unify(&mut substs, t1, t2);
    std::mem::swap(&mut substs, &mut ck.substs);
    proof {
        assert(unifies(s, t1@, t2@, outcome_of(ck.substs@, res)));
        lemma_unify_deterministic(
            s,
            t1@,
            t2@,
            outcome_of(ck.substs@, res),
            unify_spec(s, t1@, t2@),
        );
    }
    res
}

fn lookup_env(env: &Vec<(String, Type)>, name: &String) -> (r: Option<Type>)
    ensures
        match r {
            Some(t) => lookup(env_model(env@), name@) == Some(t@),
            None => lookup(env_model(env@), name@) is None,
        },
{
    let ghost full = env_model(env@);
    let mut i: usize = env.len();
    assert(full.subrange(0, i as int) =~= full);
    while i > 0
        invariant
            i <= env.len(),
            full == env_model(env@),
            lookup(full, name@) == lookup(full.subrange(0, i as int), name@),
        decreases i,
    {
        i -= 1;
        let entry = &env[i];
        proof {
            let upto = full.subrange(0, i + 1);
            assert(upto.last() == full[i as int]);
            assert(upto.drop_last() =~= full.subrange(0, i as int));
        }
        if entry.0 == *name {
            return Some(clone_type(&entry.1));
        }
    }
    None
}

fn bind_one(ck: &mut Checker, b: &Binder, t: Type)
    ensures
        final(ck)@ == bind_name(old(ck)@, *b, t@),
        final(ck).substs == old(ck).substs,
        final(ck).tyvar_cnt == old(ck).tyvar_cnt,
        final(ck).env@ == old(ck).env@.push((b.name, t)),
        final(ck).bndr_tys.len() == old(ck).bndr_tys.len(),
{
    if (b.id as usize) < ck.bndr_tys.len() {
        ck.bndr_tys.set(b.id as usize, clone_type(&t));
        assert(model_seq(ck.bndr_tys@) =~= record(model_seq(old(ck).bndr_tys@), b.id, t@));
    }
    ck.env.push((b.name.clone(), t));
    assert(env_model(ck.env@) =~= env_model(old(ck).env@).push((b.name@, t@)));
}

fn bind_many(ck: &mut Checker, bs: &Vec<Binder>, ts: &Vec<Type>)
    requires
        bs.len() == ts.len(),
    ensures
        final(ck)@ == bind_names(old(ck)@, bs@, model_seq(ts@), 0),
        final(ck).substs == old(ck).substs,
        final(ck).tyvar_cnt == old(ck).tyvar_cnt,
        final(ck).env@.len() == old(ck).env@.len() + bs.len(),
        final(ck).env@.subrange(0, old(ck).env@.len() as int) == old(ck).env@,
        final(ck).bndr_tys.len() == old(ck).bndr_tys.len(),
{
    let ghost st0 = ck@;
    let ghost mts = model_seq(ts@);
    let mut i: usize = 0;
    assert(ck.env@.subrange(0, old(ck).env@.len() as int) =~= old(ck).env@);
    while i < bs.len()
        invariant
            i <= bs.len(),
            bs.len() == ts.len(),
            mts == model_seq(ts@),
            bind_names(st0, bs@, mts, 0) == bind_names(ck@, bs@, mts, i as nat),
            ck.substs == old(ck).substs,
            ck.tyvar_cnt == old(ck).tyvar_cnt,
            ck.env@.len() == old(ck).env@.len() + i,
            ck.env@.subrange(0, old(ck).env@.len() as int) == old(ck).env@,
            ck.bndr_tys.len() == old(ck).bndr_tys.len(),
        decreases bs.len() - i,
    {
        let ghost before = ck.env@;
        bind_one(ck, &bs[i], clone_type(&ts[i]));
        assert(ck.env@.subrange(0, old(ck).env@.len() as int) =~= before.subrange(
            0,
            old(ck).env@.len() as int,
        ));
        i += 1;
    }
}

fn leave_scope(ck: &mut Checker, depth: usize)
    requires
        depth <= old(ck).env.len(),
    ensures
        final(ck).env@ == old(ck).env@.subrange(0, depth as int),
        final(ck).substs == old(ck).substs,
        final(ck).tyvar_cnt == old(ck).tyvar_cnt,
        final(ck).bndr_tys == old(ck).bndr_tys,
{
    ck.env.truncate(depth);
}

fn constrained_to(ck: &mut Checker, t1: &Type, t2: &Type, result: Type) -> (res: Result<
    Type,
    TypeErr,
>)
    requires
        acyclic(old(ck)@.subst),
    ensures
        agrees(res, final(ck)@, constrained(old(ck)@, t1@, t2@, result@)),
        acyclic(final(ck)@.subst),
        final(ck).tyvar_cnt == old(ck).tyvar_cnt,
        final(ck).env == old(ck).env,
        final(ck).bndr_tys == old(ck).bndr_tys,
{
    match constrain_types(ck, t1, t2) {
        Err(e) => Err(e),
        Ok(_) => Ok(result),
    }
}

fn both_types(ck: &mut Checker, want: Type, ta: &Type, tb: &Type) -> (res: Result<Type, TypeErr>)
    requires
        acyclic(old(ck)@.subst),
    ensures
        agrees(res, final(ck)@, both_are(old(ck)@, want@, ta@, tb@)),
        acyclic(final(ck)@.subst),
        final(ck).tyvar_cnt == old(ck).tyvar_cnt,
        final(ck).env == old(ck).env,
        final(ck).bndr_tys == old(ck).bndr_tys,
{
    match constrain_types(ck, &want, ta) {
        Err(e) => Err(e),
        Ok(_) => constrained_to(ck, &want, tb, clone_type(&want)),
    }
}

fn check_all(ck: &mut Checker, es: &Vec<Expr>) -> (res: Result<Vec<Type>, TypeErr>)
    requires
        acyclic(old(ck)@.subst),
        old(ck)@.next + demand_from(es@, 0) <= u64::MAX,
    ensures
        agrees_all(res, final(ck)@, infer_all(old(ck)@, es@, 0, Seq::empty())),
        acyclic(final(ck)@.subst),
        final(ck).bndr_tys.len() == old(ck).bndr_tys.len(),
        res is Ok ==> final(ck)@.next == old(ck)@.next + demand_from(es@, 0),
        res is Ok ==> final(ck).env@ == old(ck).env@,
    decreases es, 1int,
{
    let ghost st0 = ck@;
    let mut out: Vec<Type> = Vec::new();
    let mut i: usize = 0;
    assert(model_seq(out@) =~= Seq::<Ty>::empty());
    while i < es.len()
        invariant
            i <= es.len(),
            st0 == old(ck)@,
            acyclic(ck@.subst),
            infer_all(st0, es@, 0, Seq::empty()) == infer_all(
                ck@,
                es@,
                i as nat,
                model_seq(out@),
            ),
            ck@.next + demand_from(es@, i as nat) == st0.next + demand_from(es@, 0),
            st0.next + demand_from(es@, 0) <= u64::MAX,
            ck.env@ == old(ck).env@,
            ck.bndr_tys.len() == old(ck).bndr_tys.len(),
        decreases es.len() - i,
    {
        let ghost acc = model_seq(out@);
        let ghost before = ck@;
        match type_check_(ck, &es[i]) {
            Err(e) => {
                assert(infer_all(before, es@, i as nat, acc) == Err::<
                    (InferState, Seq<Ty>),
                    TypeErrModel,
                >(e@));
                return Err(e);
            },
            Ok(t) => {
                out.push(t);
                assert(model_seq(out@) =~= acc.push(t@));
            },
        }
        i += 1;
    }
    Ok(out)
}

fn type_check_(ck: &mut Checker, expr: &Expr) -> (res: Result<Type, TypeErr>)
    requires
        acyclic(old(ck)@.subst),
        old(ck)@.next + demand(*expr) <= u64::MAX,
    ensures
        agrees(res, final(ck)@, infer(old(ck)@, *expr)),
        acyclic(final(ck)@.subst),
        final(ck).bndr_tys.len() == old(ck).bndr_tys.len(),
        res is Ok ==> final(ck)@.next == old(ck)@.next + demand(*expr),
        res is Ok ==> final(ck).env@ == old(ck).env@,
    decreases expr, 0int,
{
    let ghost st0 = ck@;
    match expr {
        Expr::Unit => Ok(Type::Unit),
        Expr::Bool(_) => Ok(Type::Bool),
        Expr::Int(_) => Ok(Type::Int),
        Expr::Float(_) => Ok(Type::Float),
        Expr::Not(a) => match type_check_(ck, a) {
            Err(e) => Err(e),
            Ok(t) => constrained_to(ck, &Type::Bool, &t, Type::Bool),
        },
        Expr::Neg(a) => match type_check_(ck, a) {
            Err(e) => Err(e),
            Ok(t) => constrained_to(ck, &Type::Int, &t, Type::Int),
        },
        Expr::FNeg(a) => match type_check_(ck, a) {
            Err(e) => Err(e),
            Ok(t) => constrained_to(ck, &Type::Float, &t, Type::Float),
        },
        Expr::Add(a, b) | Expr::Sub(a, b) => match type_check_(ck, a) {
            Err(e) => Err(e),
            Ok(ta) => match type_check_(ck, b) {
                Err(e) => Err(e),
                Ok(tb) => both_types(ck, Type::Int, &ta, &tb),
            },
        },
        Expr::FAdd(a, b) | Expr::FSub(a, b) | Expr::FMul(a, b) | Expr::FDiv(a, b) => match type_check_(
            ck,
            a,
        ) {
            Err(e) => Err(e),
            Ok(ta) => match type_check_(ck, b) {
                Err(e) => Err(e),
                Ok(tb) => both_types(ck, Type::Float, &ta, &tb),
            },
        },
        Expr::Eq(a, b) | Expr::Le(a, b) => match type_check_(ck, a) {
            Err(e) => Err(e),
            Ok(ta) => match type_check_(ck, b) {
                Err(e) => Err(e),
                Ok(tb) => constrained_to(ck, &ta, &tb, Type::Bool),
            },
        },
        Expr::If(c, a, b) => match type_check_(ck, c) {
            Err(e) => Err(e),
            Ok(tc) => match type_check_(ck, a) {
                Err(e) => Err(e),
                Ok(ta) => match type_check_(ck, b) {
                    Err(e) => Err(e),
                    Ok(tb) => match constrain_types(ck, &tc, &Type::Bool) {
                        Err(e) => Err(e),
                        Ok(_) => constrained_to(ck, &ta, &tb, clone_type(&ta)),
                    },
                },
            },
        },
        Expr::Let { bndr, rhs, body } => {
            let depth = ck.env.len();
            let alpha = fresh_one(ck);
            match type_check_(ck, rhs) {
                Err(e) => Err(e),
                Ok(tr) => match constrain_types(ck, &alpha, &tr) {
                    Err(e) => Err(e),
                    Ok(_) => {
                        bind_one(ck, bndr, alpha);
                        match type_check_(ck, body) {
                            Err(e) => Err(e),
                            Ok(tb) => {
                                leave_scope(ck, depth);
                                assert(ck.env@ =~= old(ck).env@);
                                Ok(tb)
                            },
                        }
                    },
                },
            }
        },
        Expr::Var(name) => match lookup_env(&ck.env, name) {
            Some(t) => Ok(t),
            None => Err(TypeErr::UnboundVar(name.clone())),
        },
        Expr::LetRec { bndr, args, rhs, body } => {
            let depth = ck.env.len();
            let alphas = fresh_many(ck, args.len());
            let beta = fresh_one(ck);
            let fun_ty = Type::Fun { args: clone_types(&alphas), ret: Box::new(clone_type(&beta)) };
            proof {
                lemma_model_parts(fun_ty);
            }
            bind_one(ck, bndr, fun_ty);
            bind_many(ck, args, &alphas);
            match type_check_(ck, rhs) {
                Err(e) => Err(e),
                Ok(tr) => match constrain_types(ck, &beta, &tr) {
                    Err(e) => Err(e),
                    Ok(_) => match type_check_(ck, body) {
                        Err(e) => Err(e),
                        Ok(tb) => {
                            leave_scope(ck, depth);
                            assert(ck.env@ =~= old(ck).env@);
                            Ok(tb)
                        },
                    },
                },
            }
        },
        Expr::App { fun, args } => {
            let rho = fresh_one(ck);
            match check_all(ck, args) {
                Err(e) => Err(e),
                Ok(ts) => match type_check_(ck, fun) {
                    Err(e) => Err(e),
                    Ok(tf) => {
                        let fun_ty = Type::Fun { args: ts, ret: Box::new(clone_type(&rho)) };
                        proof {
                            lemma_model_parts(fun_ty);
                        }
                        constrained_to(ck, &fun_ty, &tf, rho)
                    },
                },
            }
        },
        Expr::Tuple(args) => match check_all(ck, args) {
            Err(e) => Err(e),
            Ok(ts) => {
                let t = Type::Tuple(ts);
                proof {
                    lemma_model_parts(t);
                }
                Ok(t)
            },
        },
        Expr::LetTuple { bndrs, rhs, body } => {
            let depth = ck.env.len();
            let alphas = fresh_many(ck, bndrs.len());
            match type_check_(ck, rhs) {
                Err(e) => Err(e),
                Ok(tr) => {
                    let tuple_ty = Type::Tuple(clone_types(&alphas));
                    proof {
                        lemma_model_parts(tuple_ty);
                    }
                    match constrain_types(ck, &tr, &tuple_ty) {
                        Err(e) => Err(e),
                        Ok(_) => {
                            bind_many(ck, bndrs, &alphas);
                            match type_check_(ck, body) {
                                Err(e) => Err(e),
                                Ok(tb) => {
                                    leave_scope(ck, depth);
                                    assert(ck.env@ =~= old(ck).env@);
                                    Ok(tb)
                                },
                            }
                        },
                    }
                },
            }
        },
        Expr::Array(a, b) => match type_check_(ck, a) {
            Err(e) => Err(e),
            Ok(ta) => match constrain_types(ck, &ta, &Type::Int) {
                Err(e) => Err(e),
                Ok(_) => match type_check_(ck, b) {
                    Err(e) => Err(e),
                    Ok(tb) => {
                        let t = Type::Array(Box::new(tb));
                        proof {
                            lemma_model_parts(t);
                        }
                        Ok(t)
                    },
                },
            },
        },
        Expr::Get(a, b) => {
            let alpha = fresh_one(ck);
            match type_check_(ck, a) {
                Err(e) => Err(e),
                Ok(ta) => {
                    let array_ty = Type::Array(Box::new(clone_type(&alpha)));
                    proof {
                        lemma_model_parts(array_ty);
                    }
                    match constrain_types(ck, &ta, &array_ty) {
                        Err(e) => Err(e),
                        Ok(_) => match type_check_(ck, b) {
                            Err(e) => Err(e),
                            Ok(tb) => constrained_to(ck, &tb, &Type::Int, alpha),
                        },
                    }
                },
            }
        },
        Expr::Put(a, b, c) => {
            let alpha = fresh_one(ck);
            match type_check_(ck, a) {
                Err(e) => Err(e),
                Ok(ta) => {
                    let array_ty = Type::Array(Box::new(clone_type(&alpha)));
                    proof {
                        lemma_model_parts(array_ty);
                    }
                    match constrain_types(ck, &ta, &array_ty) {
                        Err(e) => Err(e),
                        Ok(_) => match type_check_(ck, b) {
                            Err(e) => Err(e),
                            Ok(tb) => match constrain_types(ck, &tb, &Type::Int) {
                                Err(e) => Err(e),
                                Ok(_) => match type_check_(ck, c) {
                                    Err(e) => Err(e),
                                    Ok(tc) => constrained_to(ck, &tc, &alpha, Type::Unit),
                                },
                            },
                        },
                    }
                },
            }
        },
    }
}

/// Every type variable of `t` replaced by `Unit`: what becomes of a type
/// that inference left open.
pub open spec fn settle(t: Ty) -> Ty
    decreases t, 0int,
{
    match t {
        Ty::Var(_) => Ty::Unit,
        Ty::Fun(args, ret) => Ty::Fun(settle_seq(args), Box::new(settle(*ret))),
        Ty::Tuple(args) => Ty::Tuple(settle_seq(args)),
        Ty::Array(elem) => Ty::Array(Box::new(settle(*elem))),
        _ => t,
    }
}

pub open spec fn settle_seq(ts: Seq<Ty>) -> Seq<Ty>
    decreases ts, 1int,
{
    Seq::new(
        ts.len(),
        |i: int|
            if 0 <= i < ts.len() {
                settle(ts[i])
            } else {
                Ty::Unit
            },
    )
}

/// A settled type holds no type variable.
pub proof fn lemma_settle_ground(t: Ty)
    ensures
        ground(settle(t)),
    decreases t,
{
    let r = settle(t);
    match t {
        Ty::Fun(args, ret) => {
            lemma_settle_ground(*ret);
            assert(r->Fun_0 == settle_seq(args));
            assert forall|i: int| 0 <= i < r->Fun_0.len() implies ground(#[trigger] r->Fun_0[i]) by {
                lemma_settle_ground(args[i]);
            }
        },
        Ty::Tuple(args) => {
            assert(r->Tuple_0 == settle_seq(args));
            assert forall|i: int| 0 <= i < r->Tuple_0.len() implies ground(
                #[trigger] r->Tuple_0[i],
            ) by {
                lemma_settle_ground(args[i]);
            }
        },
        Ty::Array(elem) => {
            lemma_settle_ground(*elem);
        },
        _ => {},
    }
}

fn settle_types(ts: &Vec<Type>) -> (r: Vec<Type>)
    ensures
        model_seq(r@) == settle_seq(model_seq(ts@)),
    decreases ts, 1int,
{
    let mut out: Vec<Type> = Vec::new();
    let mut i: usize = 0;
    while i < ts.len()
        invariant
            i <= ts.len(),
            out.len() == i,
            forall|j: int| 0 <= j < i ==> model(out@[j]) == settle(model(ts@[j])),
        decreases ts.len() - i,
    {
        out.push(settle_type(&ts[i]));
        i += 1;
    }
    assert(model_seq(out@) =~= settle_seq(model_seq(ts@)));
    out
}

/// Replaces every type variable of `t` by `Unit`.
pub fn settle_type(t: &Type) -> (r: Type)
    ensures
        r@ == settle(t@),
        ground(r@),
    decreases t, 0int,
{
    proof {
        lemma_settle_ground(t@);
        lemma_model_parts(*t);
    }
    let r = match t {
        Type::Var(_) => Type::Unit,
        Type::Fun { args, ret } => Type::Fun {
            args: settle_types(args),
            ret: Box::new(settle_type(ret)),
        },
        Type::Tuple(args) => Type::Tuple(settle_types(args)),
        Type::Array(elem) => Type::Array(Box::new(settle_type(elem))),
        Type::Unit => Type::Unit,
        Type::Bool => Type::Bool,
        Type::Int => Type::Int,
        Type::Float => Type::Float,
    };
    proof {
        lemma_model_parts(r);
    }
    r
}

/// The state in which inference starts on a program with `n` binders: no
/// type variable handed out, nothing bound, the built-in names in scope and
/// every binder's place in the table filled with `Unit`.
pub open spec fn init_state(n: nat) -> InferState {
    InferState {
        next: 0,
        subst: Map::empty(),
        env: seq![("print_int"@, Ty::Fun(seq![Ty::Int], Box::new(Ty::Unit)))],
        table: Seq::new(n, |i: int| Ty::Unit),
    }
}

/// The type of the program `e`, fully resolved, or the first type error.
pub open spec fn program_type(e: Expr) -> Result<Ty, TypeErrModel> {
    match infer(init_state(0), e) {
        Err(x) => Err(x),
        Ok((st, t)) => Ok(settle(resolve(st.subst, t))),
    }
}

/// The table that gives each of the `n` binders of the program `e` its
/// fully resolved type, or the first type error.
pub open spec fn binder_types(e: Expr, n: nat) -> Result<Seq<Ty>, TypeErrModel> {
    match infer(init_state(n), e) {
        Err(x) => Err(x),
        Ok((st, t)) => Ok(Seq::new(n, |i: int| settle(resolve(st.subst, st.table[i])))),
    }
}

fn start(bndr_count: usize) -> (ck: Checker)
    ensures
        ck@ == init_state(bndr_count as nat),
        acyclic(ck@.subst),
        ck.bndr_tys.len() == bndr_count,
{
    let mut bndr_tys: Vec<Type> = Vec::new();
    let mut i: usize = 0;
    while i < bndr_count
        invariant
            i <= bndr_count,
            bndr_tys.len() == i,
            forall|j: int| 0 <= j < i ==> model(#[trigger] bndr_tys@[j]) == Ty::Unit,
        decreases bndr_count - i,
    {
        bndr_tys.push(Type::Unit);
        i += 1;
    }
    let ck = Checker { tyvar_cnt: 0, substs: HashMap::new(), env: mk_type_env(), bndr_tys };
    proof {
        lemma_empty_acyclic();
        assert(ck@.subst =~= Map::<u64, Ty>::empty());
        assert(ck@.table =~= init_state(bndr_count as nat).table);
    }
    ck
}

/// Infers the type of the program `expr`: its type with every binding
/// resolved and every variable that stayed open replaced by `Unit`, or the
/// first type error.
pub fn type_check(expr: &Expr) -> (res: Result<Type, TypeErr>)
    requires
        demand(*expr) <= u64::MAX,
    ensures
        match res {
            Ok(t) => program_type(*expr) == Ok::<Ty, TypeErrModel>(t@) && ground(t@),
            Err(e) => program_type(*expr) == Err::<Ty, TypeErrModel>(e@),
        },
{
    let mut ck = start(0);
    match type_check_(&mut ck, expr) {
        Err(e) => Err(e),
        Ok(t) => {
            let resolved = resolve_ty(&ck.substs, &t);
            Ok(settle_type(&resolved))
        },
    }
}

/// Infers the types of the binders of the program `expr`, whose binders are
/// numbered below `bndr_count`: the table that gives each binder its type,
/// with every binding resolved and every variable that stayed open replaced
/// by `Unit`, or the first type error. No type in the table holds a type
/// variable.
pub fn type_check_pgm(expr: &Expr, bndr_count: usize) -> (res: Result<Vec<Type>, TypeErr>)
    requires
        demand(*expr) <= u64::MAX,
    ensures
        match res {
            Ok(tys) => binder_types(*expr, bndr_count as nat) == Ok::<Seq<Ty>, TypeErrModel>(
                model_seq(tys@),
            ) && tys.len() == bndr_count && forall|i: int|
                0 <= i < tys.len() ==> ground(#[trigger] tys[i]@),
            Err(e) => binder_types(*expr, bndr_count as nat) == Err::<Seq<Ty>, TypeErrModel>(e@),
        },
{
    let mut ck = start(bndr_count);
    match type_check_(&mut ck, expr) {
        Err(e) => Err(e),
        Ok(_) => {
            let ghost st = ck@;
            let mut tys: Vec<Type> = Vec::new();
            let mut i: usize = 0;
            proof {
                lemma_model_seq(ck.bndr_tys@);
            }
            while i < bndr_count
                invariant
                    i <= bndr_count,
                    ck.bndr_tys.len() == bndr_count,
                    st == ck@,
                    acyclic(st.subst),
                    tys.len() == i,
                    forall|j: int|
                        0 <= j < i ==> model(#[trigger] tys@[j]) == settle(
                            resolve(st.subst, st.table[j]),
                        ),
                    forall|j: int| 0 <= j < i ==> ground(#[trigger] tys[j]@),
                decreases bndr_count - i,
            {
                let resolved = resolve_ty(&ck.substs, &ck.bndr_tys[i]);
                tys.push(settle_type(&resolved));
                i += 1;
            }
            assert(model_seq(tys@) =~= Seq::new(
                bndr_count as nat,
                |i: int| settle(resolve(st.subst, st.table[i])),
            ));
            Ok(tys)
        },
    }
}

/// `r` counts `n`: it holds `n`, or nothing where `n` is beyond what a
/// `u64` can hold.
pub open spec fn counts(r: Option<u64>, n: nat) -> bool {
    match r {
        Some(k) => k == n,
        None => n > u64::MAX,
    }
}

fn add_counts(a: Option<u64>, b: Option<u64>, Ghost(m): Ghost<nat>, Ghost(n): Ghost<nat>) -> (r:
    Option<u64>)
    requires
        counts(a, m),
        counts(b, n),
    ensures
        counts(r, m + n),
{
    match (a, b) {
        (Some(x), Some(y)) => if x > u64::MAX - y {
            None
        } else {
            Some(x + y)
        },
        _ => None,
    }
}

fn tyvar_demand_all(es: &Vec<Expr>) -> (r: Option<u64>)
    ensures
        counts(r, demand_from(es@, 0)),
    decreases es, 1int,
{
    let mut acc: Option<u64> = Some(0);
    let mut i: usize = es.len();
    while i > 0
        invariant
            i <= es.len(),
            counts(acc, demand_from(es@, i as nat)),
        decreases i,
    {
        i -= 1;
        let one = tyvar_demand(&es[i]);
        acc = add_counts(
            one,
            acc,
            Ghost(demand(es@[i as int])),
            Ghost(demand_from(es@, (i + 1) as nat)),
        );
    }
    acc
}

/// How many fresh type variables inference on `expr` takes, or `None`
/// where they are more than a `u64` counts: whether `type_check` and
/// `type_check_pgm` can be called on `expr`.
pub fn tyvar_demand(expr: &Expr) -> (r: Option<u64>)
    ensures
        counts(r, demand(*expr)),
    decreases expr, 0int,
{
    match expr {
        Expr::Unit | Expr::Bool(_) | Expr::Int(_) | Expr::Float(_) | Expr::Var(_) => Some(0),
        Expr::Not(a) | Expr::Neg(a) | Expr::FNeg(a) => tyvar_demand(a),
        Expr::Add(a, b) | Expr::Sub(a, b) | Expr::FAdd(a, b) | Expr::FSub(a, b) | Expr::FMul(
            a,
            b,
        ) | Expr::FDiv(a, b) | Expr::Eq(a, b) | Expr::Le(a, b) | Expr::Array(a, b) => {
            let x = tyvar_demand(a);
            let y = tyvar_demand(b);
            add_counts(x, y, Ghost(demand(**a)), Ghost(demand(**b)))
        },
        Expr::If(c, a, b) => {
            let x = tyvar_demand(c);
            let y = tyvar_demand(a);
            let z = tyvar_demand(b);
            let xy = add_counts(x, y, Ghost(demand(**c)), Ghost(demand(**a)));
            add_counts(xy, z, Ghost(demand(**c) + demand(**a)), Ghost(demand(**b)))
        },
        Expr::Let { bndr, rhs, body } => {
            let x = tyvar_demand(rhs);
            let y = tyvar_demand(body);
            let xy = add_counts(x, y, Ghost(demand(**rhs)), Ghost(demand(**body)));
            add_counts(Some(1), xy, Ghost(1), Ghost(demand(**rhs) + demand(**body)))
        },
        Expr::LetRec { bndr, args, rhs, body } => {
            let x = tyvar_demand(rhs);
            let y = tyvar_demand(body);
            let xy = add_counts(x, y, Ghost(demand(**rhs)), Ghost(demand(**body)));
            let n = add_counts(Some(args.len() as u64), Some(1), Ghost(args@.len()), Ghost(1));
            add_counts(n, xy, Ghost(args@.len() + 1), Ghost(demand(**rhs) + demand(**body)))
        },
        Expr::App { fun, args } => {
            let x = tyvar_demand_all(args);
            let y = tyvar_demand(fun);
            let xy = add_counts(x, y, Ghost(demand_from(args@, 0)), Ghost(demand(**fun)));
            add_counts(Some(1), xy, Ghost(1), Ghost(demand_from(args@, 0) + demand(**fun)))
        },
        Expr::Tuple(args) => tyvar_demand_all(args),
        Expr::LetTuple { bndrs, rhs, body } => {
            let x = tyvar_demand(rhs);
            let y = tyvar_demand(body);
            let xy = add_counts(x, y, Ghost(demand(**rhs)), Ghost(demand(**body)));
            add_counts(
                Some(bndrs.len() as u64),
                xy,
                Ghost(bndrs@.len()),
                Ghost(demand(**rhs) + demand(**body)),
            )
        },
        Expr::Get(a, b) => {
            let x = tyvar_demand(a);
            let y = tyvar_demand(b);
            let xy = add_counts(x, y, Ghost(demand(**a)), Ghost(demand(**b)));
            add_counts(Some(1), xy, Ghost(1), Ghost(demand(**a) + demand(**b)))
        },
        Expr::Put(a, b, c) => {
            let x = tyvar_demand(a);
            let y = tyvar_demand(b);
            let z = tyvar_demand(c);
            let xy = add_counts(x, y, Ghost(demand(**a)), Ghost(demand(**b)));
            let xyz = add_counts(xy, z, Ghost(demand(**a) + demand(**b)), Ghost(demand(**c)));
            add_counts(
                Some(1),
                xyz,
                Ghost(1),
                Ghost(demand(**a) + demand(**b) + demand(**c)),
            )
        },
    }
}

} // verus!

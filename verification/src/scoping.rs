//! Variables of the K-normal form are variables of the table: where the
//! binders of a program stand in the table of variables, so does every
//! variable of its K-normal form, the ones that the pass made included.

use vstd::prelude::*;
use crate::ctx::extend;
use crate::knormal::{
    Bind, KE, KModel, Normed, assemble, enter, enter_one, ids_of, knorm, knorm_all, knormal_spec,
    lookup_id, names_of, operand, resolve_name, wrap,
};
use crate::syntax::{Binder, Expr};
use crate::types::Ty;
use crate::var::VarModel;

verus! {

/// Every variable of the list `vs` is below `n`.
pub open spec fn ids_below(vs: Seq<u32>, n: nat) -> bool {
    forall|i: int| 0 <= i < vs.len() ==> #[trigger] vs[i] < n
}

/// Every variable of `e`, bound or used, is below `n`.
pub open spec fn vars_below(e: KE, n: nat) -> bool
    decreases e,
{
    match e {
        KE::Unary(_, a) => a < n,
        KE::Binary(_, a, b) => a < n && b < n,
        KE::Put(a, b, c) => a < n && b < n && c < n,
        KE::If(c, a, b) => c < n && vars_below(*a, n) && vars_below(*b, n),
        KE::Let(x, rhs, body) => x < n && vars_below(*rhs, n) && vars_below(*body, n),
        KE::Var(x) => x < n,
        KE::LetRec(f, params, rhs, body) => f < n && ids_below(params, n) && vars_below(*rhs, n)
            && vars_below(*body, n),
        KE::App(f, args) => f < n && ids_below(args, n),
        KE::Tuple(args) => ids_below(args, n),
        KE::LetTuple(xs, y, body) => ids_below(xs, n) && y < n && vars_below(*body, n),
        _ => true,
    }
}

/// Every binder of the list `bs` is below `n`.
pub open spec fn binder_ids_below(bs: Seq<Binder>, n: nat) -> bool {
    forall|i: int| 0 <= i < bs.len() ==> (#[trigger] bs[i]).id < n
}

/// Every binder of the program `e` is below `n`.
pub open spec fn binders_below(e: Expr, n: nat) -> bool
    decreases e,
{
    match e {
        Expr::Not(a) | Expr::Neg(a) | Expr::FNeg(a) => binders_below(*a, n),
        Expr::Add(a, b) | Expr::Sub(a, b) | Expr::FAdd(a, b) | Expr::FSub(a, b) | Expr::FMul(
            a,
            b,
        ) | Expr::FDiv(a, b) | Expr::Eq(a, b) | Expr::Le(a, b) | Expr::Array(a, b) | Expr::Get(
            a,
            b,
        ) => binders_below(*a, n) && binders_below(*b, n),
        Expr::Put(a, b, c) | Expr::If(a, b, c) => binders_below(*a, n) && binders_below(*b, n)
            && binders_below(*c, n),
        Expr::Let { bndr, rhs, body } => bndr.id < n && binders_below(*rhs, n) && binders_below(
            *body,
            n,
        ),
        Expr::LetRec { bndr, args, rhs, body } => bndr.id < n && binder_ids_below(args@, n)
            && binders_below(*rhs, n) && binders_below(*body, n),
        Expr::App { fun, args } => binders_below(*fun, n) && forall|i: int|
            0 <= i < args@.len() ==> binders_below(#[trigger] args@[i], n),
        Expr::Tuple(args) => forall|i: int|
            0 <= i < args@.len() ==> binders_below(#[trigger] args@[i], n),
        Expr::LetTuple { bndrs, rhs, body } => binder_ids_below(bndrs@, n) && binders_below(
            *rhs,
            n,
        ) && binders_below(*body, n),
        _ => true,
    }
}

/// Every variable that a list of names gives is below `n`.
pub open spec fn names_below(env: Seq<(Seq<char>, u32)>, n: nat) -> bool {
    forall|i: int| 0 <= i < env.len() ==> (#[trigger] env[i]).1 < n
}

/// Every variable of the link `b` is below `n`.
pub open spec fn bind_below(b: Bind, n: nat) -> bool {
    match b {
        Bind::Let(x, rhs) => x < n && vars_below(rhs, n),
        Bind::LetRec(f, params, rhs) => f < n && ids_below(params, n) && vars_below(rhs, n),
        Bind::LetTuple(xs, y) => ids_below(xs, n) && y < n,
    }
}

/// Every variable of the chain `binds` is below `n`.
pub open spec fn chain_below(binds: Seq<Bind>, n: nat) -> bool {
    forall|i: int| 0 <= i < binds.len() ==> bind_below(#[trigger] binds[i], n)
}

/// The names in scope, the names bound by no binder and the chain speak
/// only of variables of the table.
pub open spec fn fits(st: KModel, binds: Seq<Bind>) -> bool {
    &&& names_below(st.env, st.vars.len())
    &&& names_below(st.globals, st.vars.len())
    &&& chain_below(binds, st.vars.len())
}

proof fn lemma_vars_below_mono(e: KE, n: nat, m: nat)
    requires
        vars_below(e, n),
        n <= m,
    ensures
        vars_below(e, m),
    decreases e,
{
    match e {
        KE::If(c, a, b) => {
            lemma_vars_below_mono(*a, n, m);
            lemma_vars_below_mono(*b, n, m);
        },
        KE::Let(x, rhs, body) => {
            lemma_vars_below_mono(*rhs, n, m);
            lemma_vars_below_mono(*body, n, m);
        },
        KE::LetRec(f, params, rhs, body) => {
            lemma_vars_below_mono(*rhs, n, m);
            lemma_vars_below_mono(*body, n, m);
        },
        KE::LetTuple(xs, y, body) => {
            lemma_vars_below_mono(*body, n, m);
        },
        _ => {},
    }
}

proof fn lemma_chain_below_mono(binds: Seq<Bind>, n: nat, m: nat)
    requires
        chain_below(binds, n),
        n <= m,
    ensures
        chain_below(binds, m),
{
    assert forall|i: int| 0 <= i < binds.len() implies bind_below(#[trigger] binds[i], m) by {
        match binds[i] {
            Bind::Let(x, rhs) => {
                lemma_vars_below_mono(rhs, n, m);
            },
            Bind::LetRec(f, params, rhs) => {
                lemma_vars_below_mono(rhs, n, m);
            },
            Bind::LetTuple(xs, y) => {},
        }
    }
}

pub proof fn lemma_chain_below_push(binds: Seq<Bind>, b: Bind, n: nat)
    requires
        chain_below(binds, n),
        bind_below(b, n),
    ensures
        chain_below(binds.push(b), n),
{
    assert forall|i: int| 0 <= i < binds.push(b).len() implies bind_below(
        #[trigger] binds.push(b)[i],
        n,
    ) by {
        if i < binds.len() {
            assert(binds.push(b)[i] == binds[i]);
        }
    }
}

proof fn lemma_assemble_below(binds: Seq<Bind>, last: KE, n: nat)
    requires
        chain_below(binds, n),
        vars_below(last, n),
    ensures
        vars_below(assemble(binds, last), n),
    decreases binds.len(),
{
    if binds.len() > 0 {
        let b = binds.last();
        assert(b == binds[binds.len() - 1]);
        assert forall|i: int| 0 <= i < binds.drop_last().len() implies bind_below(
            #[trigger] binds.drop_last()[i],
            n,
        ) by {
            assert(binds.drop_last()[i] == binds[i]);
        }
        lemma_assemble_below(binds.drop_last(), wrap(b, last), n);
    }
}

proof fn lemma_lookup_below(env: Seq<(Seq<char>, u32)>, name: Seq<char>, n: nat)
    requires
        names_below(env, n),
        lookup_id(env, name) is Some,
    ensures
        lookup_id(env, name)->Some_0 < n,
    decreases env.len(),
{
    if env.len() > 0 {
        assert(env.last() == env[env.len() - 1]);
        if env.last().0 != name {
            assert forall|i: int| 0 <= i < env.drop_last().len() implies (
            #[trigger] env.drop_last()[i]).1 < n by {
                assert(env.drop_last()[i] == env[i]);
            }
            lemma_lookup_below(env.drop_last(), name, n);
        }
    }
}

pub proof fn lemma_names_push(env: Seq<(Seq<char>, u32)>, name: Seq<char>, id: u32, n: nat)
    requires
        names_below(env, n),
        id < n,
    ensures
        names_below(env.push((name, id)), n),
{
    assert forall|i: int| 0 <= i < env.push((name, id)).len() implies (#[trigger] env.push(
        (name, id),
    )[i]).1 < n by {
        if i < env.len() {
            assert(env.push((name, id))[i] == env[i]);
        }
    }
}

pub proof fn lemma_names_enter(env: Seq<(Seq<char>, u32)>, bs: Seq<Binder>, n: nat)
    requires
        names_below(env, n),
        binder_ids_below(bs, n),
    ensures
        names_below(env + names_of(bs), n),
        ids_below(ids_of(bs), n),
{
    assert forall|i: int| 0 <= i < (env + names_of(bs)).len() implies (#[trigger] (env + names_of(
        bs,
    ))[i]).1 < n by {
        if i < env.len() {
            assert((env + names_of(bs))[i] == env[i]);
        } else {
            assert((env + names_of(bs))[i] == names_of(bs)[i - env.len()]);
            assert(bs[i - env.len()].id < n);
        }
    }
    assert forall|i: int| 0 <= i < ids_of(bs).len() implies #[trigger] ids_of(bs)[i] < n by {
        assert(bs[i].id < n);
    }
}

proof fn lemma_names_mono(env: Seq<(Seq<char>, u32)>, n: nat, m: nat)
    requires
        names_below(env, n),
        n <= m,
    ensures
        names_below(env, m),
{
}

/// What normalizing on gives fits a table that has only grown.
pub open spec fn goes_on(st: KModel, n: Normed) -> bool {
    &&& st.vars.len() <= n.st.vars.len()
    &&& fits(n.st, n.binds)
    &&& vars_below(n.last, n.st.vars.len())
}

pub proof fn lemma_operand_below(n: Normed)
    requires
        fits(n.st, n.binds),
        vars_below(n.last, n.st.vars.len()),
        operand(n) is Some,
    ensures
        ({
            let (st2, b2, v) = operand(n)->Some_0;
            &&& n.st.vars.len() <= st2.vars.len()
            &&& fits(st2, b2)
            &&& v < st2.vars.len()
            &&& st2.env == n.st.env
        }),
{
    match n.last {
        KE::Var(v) => {},
        _ => {
            let (st2, b2, v) = operand(n)->Some_0;
            let m = st2.vars.len();
            lemma_chain_below_mono(n.binds, n.st.vars.len(), m);
            lemma_vars_below_mono(n.last, n.st.vars.len(), m);
            lemma_chain_below_push(n.binds, Bind::Let(v, n.last), m);
        },
    }
}

proof fn lemma_resolve_below(st: KModel, name: Seq<char>)
    requires
        names_below(st.env, st.vars.len()),
        names_below(st.globals, st.vars.len()),
        resolve_name(st, name) is Some,
    ensures
        ({
            let (st2, id) = resolve_name(st, name)->Some_0;
            &&& st.vars.len() <= st2.vars.len()
            &&& names_below(st2.env, st2.vars.len())
            &&& names_below(st2.globals, st2.vars.len())
            &&& id < st2.vars.len()
            &&& st2.env == st.env
        }),
{
    let n = st.vars.len();
    if lookup_id(st.env, name) is Some {
        lemma_lookup_below(st.env, name, n);
    } else if lookup_id(st.globals, name) is Some {
        lemma_lookup_below(st.globals, name, n);
    } else {
        let (st2, id) = resolve_name(st, name)->Some_0;
        lemma_names_mono(st.globals, n, n + 1);
        lemma_names_push(st.globals, name, id, n + 1);
    }
}

/// K-normalization of a program whose binders are below `n0`, from a state
/// whose table holds `n0` variables or more and fits, gives a state and a
/// chain that fit, and an expression whose variables are in the table.
pub proof fn lemma_knorm_below(st: KModel, binds: Seq<Bind>, e: Expr, n0: nat)
    requires
        fits(st, binds),
        n0 <= st.vars.len(),
        binders_below(e, n0),
        knorm(st, binds, e) is Some,
    ensures
        goes_on(st, knorm(st, binds, e)->Some_0),
    decreases e, 0int,
{
    let none = Seq::<Bind>::empty();
    let r = knorm(st, binds, e)->Some_0;
    match e {
        Expr::Not(a) | Expr::Neg(a) | Expr::FNeg(a) => {
            lemma_knorm_below(st, binds, *a, n0);
            lemma_operand_below(knorm(st, binds, *a)->Some_0);
        },
        Expr::Add(a, b) | Expr::Sub(a, b) | Expr::FAdd(a, b) | Expr::FSub(a, b) | Expr::FMul(
            a,
            b,
        ) | Expr::FDiv(a, b) | Expr::Eq(a, b) | Expr::Le(a, b) | Expr::Array(a, b) | Expr::Get(
            a,
            b,
        ) => {
            let n1 = knorm(st, binds, *a)->Some_0;
            lemma_knorm_below(st, binds, *a, n0);
            lemma_operand_below(n1);
            let (st2, b2, v1) = operand(n1)->Some_0;
            let n2 = knorm(st2, b2, *b)->Some_0;
            lemma_knorm_below(st2, b2, *b, n0);
            lemma_operand_below(n2);
        },
        Expr::Put(a, b, c) => {
            let n1 = knorm(st, binds, *a)->Some_0;
            lemma_knorm_below(st, binds, *a, n0);
            lemma_operand_below(n1);
            let (st2, b2, v1) = operand(n1)->Some_0;
            let n2 = knorm(st2, b2, *b)->Some_0;
            lemma_knorm_below(st2, b2, *b, n0);
            lemma_operand_below(n2);
            let (st4, b4, v2) = operand(n2)->Some_0;
            let n3 = knorm(st4, b4, *c)->Some_0;
            lemma_knorm_below(st4, b4, *c, n0);
            lemma_operand_below(n3);
        },
        Expr::If(c, a, b) => {
            let n1 = knorm(st, binds, *c)->Some_0;
            lemma_knorm_below(st, binds, *c, n0);
            lemma_operand_below(n1);
            let (st2, b2, v) = operand(n1)->Some_0;
            let na = knorm(st2, none, *a)->Some_0;
            lemma_knorm_below(st2, none, *a, n0);
            lemma_assemble_below(na.binds, na.last, na.st.vars.len());
            let nb = knorm(na.st, none, *b)->Some_0;
            lemma_knorm_below(na.st, none, *b, n0);
            let m = nb.st.vars.len();
            lemma_assemble_below(nb.binds, nb.last, m);
            lemma_vars_below_mono(assemble(na.binds, na.last), na.st.vars.len(), m);
            lemma_chain_below_mono(b2, st2.vars.len(), m);
        },
        Expr::Let { bndr, rhs, body } => {
            let nr = knorm(st, binds, *rhs)->Some_0;
            lemma_knorm_below(st, binds, *rhs, n0);
            let link = Bind::Let(bndr.id, nr.last);
            lemma_chain_below_push(nr.binds, link, nr.st.vars.len());
            lemma_names_push(nr.st.env, bndr.name@, bndr.id, nr.st.vars.len());
            lemma_knorm_below(enter_one(nr.st, bndr), nr.binds.push(link), *body, n0);
            lemma_names_mono(st.env, st.vars.len(), r.st.vars.len());
        },
        Expr::Var(name) => {
            lemma_resolve_below(st, name@);
            let (st2, id) = resolve_name(st, name@)->Some_0;
            lemma_chain_below_mono(binds, st.vars.len(), st2.vars.len());
        },
        Expr::LetRec { bndr, args, rhs, body } => {
            let n = st.vars.len();
            lemma_names_push(st.env, bndr.name@, bndr.id, n);
            lemma_names_enter(enter_one(st, bndr).env, args@, n);
            let st1 = enter(enter_one(st, bndr), args@);
            let nr = knorm(st1, none, *rhs)->Some_0;
            lemma_knorm_below(st1, none, *rhs, n0);
            let m = nr.st.vars.len();
            lemma_assemble_below(nr.binds, nr.last, m);
            let link = Bind::LetRec(bndr.id, ids_of(args@), assemble(nr.binds, nr.last));
            lemma_chain_below_mono(binds, n, m);
            lemma_chain_below_push(binds, link, m);
            lemma_names_mono(enter_one(st, bndr).env, n, m);
            lemma_knorm_below(
                crate::knormal::exit(nr.st, enter_one(st, bndr).env),
                binds.push(link),
                *body,
                n0,
            );
            lemma_names_mono(st.env, n, r.st.vars.len());
        },
        Expr::App { fun, args } => {
            let nf = knorm(st, binds, *fun)->Some_0;
            lemma_knorm_below(st, binds, *fun, n0);
            lemma_operand_below(nf);
            let (st2, b2, vf) = operand(nf)->Some_0;
            lemma_knorm_all_below(st2, b2, args@, 0, Seq::empty(), Seq::empty(), n0);
        },
        Expr::Tuple(args) => {
            lemma_knorm_all_below(st, binds, args@, 0, Seq::empty(), Seq::empty(), n0);
        },
        Expr::LetTuple { bndrs, rhs, body } => {
            let nr = knorm(st, binds, *rhs)->Some_0;
            lemma_knorm_below(st, binds, *rhs, n0);
            lemma_operand_below(nr);
            let (st2, b2, v) = operand(nr)->Some_0;
            let m = st2.vars.len();
            lemma_names_enter(st2.env, bndrs@, m);
            let link = Bind::LetTuple(ids_of(bndrs@), v);
            lemma_chain_below_push(b2, link, m);
            lemma_knorm_below(enter(st2, bndrs@), b2.push(link), *body, n0);
            lemma_names_mono(st.env, st.vars.len(), r.st.vars.len());
        },
        _ => {},
    }
}

proof fn lemma_knorm_all_below(
    st: KModel,
    binds: Seq<Bind>,
    es: Seq<Expr>,
    i: nat,
    vs: Seq<u32>,
    ts: Seq<Ty>,
    n0: nat,
)
    requires
        fits(st, binds),
        n0 <= st.vars.len(),
        forall|j: int| 0 <= j < es.len() ==> binders_below(#[trigger] es[j], n0),
        ids_below(vs, st.vars.len()),
        knorm_all(st, binds, es, i, vs, ts) is Some,
    ensures
        ({
            let (st2, b2, vs2, ts2) = knorm_all(st, binds, es, i, vs, ts)->Some_0;
            &&& st.vars.len() <= st2.vars.len()
            &&& fits(st2, b2)
            &&& ids_below(vs2, st2.vars.len())
            &&& st2.env == st.env
        }),
    decreases es, es.len() - i,
{
    if i < es.len() {
        let n = knorm(st, binds, es[i as int])->Some_0;
        lemma_knorm_below(st, binds, es[i as int], n0);
        lemma_knorm_env(st, binds, es[i as int]);
        lemma_operand_below(n);
        let (st2, b2, v) = operand(n)->Some_0;
        assert forall|j: int| 0 <= j < vs.push(v).len() implies #[trigger] vs.push(v)[j]
            < st2.vars.len() by {
            if j < vs.len() {
                assert(vs.push(v)[j] == vs[j]);
            }
        }
        lemma_knorm_all_below(st2, b2, es, i + 1, vs.push(v), ts.push(n.ty), n0);
    }
}

/// K-normalization leaves the names in scope as they were.
pub proof fn lemma_knorm_env(st: KModel, binds: Seq<Bind>, e: Expr)
    requires
        knorm(st, binds, e) is Some,
    ensures
        knorm(st, binds, e)->Some_0.st.env == st.env,
    decreases e, 0int,
{
    let none = Seq::<Bind>::empty();
    match e {
        Expr::Not(a) | Expr::Neg(a) | Expr::FNeg(a) => {
            lemma_knorm_env(st, binds, *a);
        },
        Expr::Add(a, b) | Expr::Sub(a, b) | Expr::FAdd(a, b) | Expr::FSub(a, b) | Expr::FMul(
            a,
            b,
        ) | Expr::FDiv(a, b) | Expr::Eq(a, b) | Expr::Le(a, b) | Expr::Array(a, b) | Expr::Get(
            a,
            b,
        ) => {
            let n1 = knorm(st, binds, *a)->Some_0;
            lemma_knorm_env(st, binds, *a);
            let (st2, b2, v1) = operand(n1)->Some_0;
            lemma_knorm_env(st2, b2, *b);
        },
        Expr::Put(a, b, c) => {
            let n1 = knorm(st, binds, *a)->Some_0;
            lemma_knorm_env(st, binds, *a);
            let (st2, b2, v1) = operand(n1)->Some_0;
            let n2 = knorm(st2, b2, *b)->Some_0;
            lemma_knorm_env(st2, b2, *b);
            let (st4, b4, v2) = operand(n2)->Some_0;
            lemma_knorm_env(st4, b4, *c);
        },
        Expr::If(c, a, b) => {
            let n1 = knorm(st, binds, *c)->Some_0;
            lemma_knorm_env(st, binds, *c);
            let (st2, b2, v) = operand(n1)->Some_0;
            let na = knorm(st2, none, *a)->Some_0;
            lemma_knorm_env(st2, none, *a);
            lemma_knorm_env(na.st, none, *b);
        },
        Expr::App { fun, args } => {
            let nf = knorm(st, binds, *fun)->Some_0;
            lemma_knorm_env(st, binds, *fun);
            let (st2, b2, vf) = operand(nf)->Some_0;
            lemma_knorm_all_env(st2, b2, args@, 0, Seq::empty(), Seq::empty());
        },
        Expr::Tuple(args) => {
            lemma_knorm_all_env(st, binds, args@, 0, Seq::empty(), Seq::empty());
        },
        _ => {},
    }
}

proof fn lemma_knorm_all_env(
    st: KModel,
    binds: Seq<Bind>,
    es: Seq<Expr>,
    i: nat,
    vs: Seq<u32>,
    ts: Seq<Ty>,
)
    requires
        knorm_all(st, binds, es, i, vs, ts) is Some,
    ensures
        knorm_all(st, binds, es, i, vs, ts)->Some_0.0.env == st.env,
    decreases es, es.len() - i,
{
    if i < es.len() {
        let n = knorm(st, binds, es[i as int])->Some_0;
        lemma_knorm_env(st, binds, es[i as int]);
        let (st2, b2, v) = operand(n)->Some_0;
        lemma_knorm_all_env(st2, b2, es, i + 1, vs.push(v), ts.push(n.ty));
    }
}

/// Every variable of the K-normal form of a program is a variable of the
/// table that K-normalization leaves, where every binder of the program is
/// a variable of the table it starts from: every operand holds a variable
/// that a binder of the program or the pass itself has made.
pub proof fn lemma_knormal_in_table(vars: Seq<VarModel>, tys: Seq<Ty>, e: Expr)
    requires
        binders_below(e, vars.len()),
        knormal_spec(vars, tys, e) is Some,
    ensures
        vars.len() <= knormal_spec(vars, tys, e)->Some_0.0.len(),
        vars_below(
            knormal_spec(vars, tys, e)->Some_0.2,
            knormal_spec(vars, tys, e)->Some_0.0.len(),
        ),
{
    let st = KModel { vars, tys, env: Seq::empty(), globals: Seq::empty() };
    let n = knorm(st, Seq::empty(), e)->Some_0;
    lemma_knorm_below(st, Seq::empty(), e, vars.len());
    lemma_assemble_below(n.binds, n.last, n.st.vars.len());
}

} // verus!

//! K-normalization preserves what a program evaluates to, shown here for
//! the programs without functions: what such a program evaluates to by the
//! names of its variables, its K-normal form evaluates to by their
//! identities.

use vstd::prelude::*;
use crate::knormal::{
    Bind, KE, KModel, Normed, binary_op, enter, enter_one, ids_of, knorm, knorm_all, lookup_id,
    names_of, operand, resolve_name, unary_op,
};
use crate::anormal::{anf, lemma_knormal_is_anf};
use crate::knormal::{knormal_spec};
use crate::types::Ty;
use crate::var::VarModel;
use crate::scoping::{
    binders_below, fits, lemma_chain_below_push, lemma_knorm_below, lemma_names_enter,
    lemma_names_push, lemma_operand_below,
};
use crate::semantics::{
    Machine, Store, Val, bind_all, eval, run, same_at, step, values, lemma_assemble_eval,
    lemma_run_prefix, lemma_run_split,
};
use crate::syntax::{Binder, Expr};

verus! {

/// The value of the innermost binding of `name` in `senv`.
pub open spec fn lookup_val(senv: Seq<(Seq<char>, Val)>, name: Seq<char>) -> Option<Val>
    decreases senv.len(),
{
    if senv.len() == 0 {
        None
    } else if senv.last().0 == name {
        Some(senv.last().1)
    } else {
        lookup_val(senv.drop_last(), name)
    }
}

/// Whether `e` is built without functions: from literals, variables,
/// operations, array accesses, conditionals, tuples and `let` alone.
pub open spec fn plain_expr(e: Expr) -> bool
    decreases e,
{
    match e {
        Expr::Unit | Expr::Bool(_) | Expr::Int(_) | Expr::Float(_) | Expr::Var(_) => true,
        Expr::Not(a) | Expr::Neg(a) | Expr::FNeg(a) => plain_expr(*a),
        Expr::Add(a, b) | Expr::Sub(a, b) | Expr::FAdd(a, b) | Expr::FSub(a, b) | Expr::FMul(
            a,
            b,
        ) | Expr::FDiv(a, b) | Expr::Eq(a, b) | Expr::Le(a, b) | Expr::Array(a, b) | Expr::Get(
            a,
            b,
        ) => plain_expr(*a) && plain_expr(*b),
        Expr::Put(a, b, c) | Expr::If(a, b, c) => plain_expr(*a) && plain_expr(*b) && plain_expr(
            *c,
        ),
        Expr::Let { bndr, rhs, body } => plain_expr(*rhs) && plain_expr(*body),
        Expr::Tuple(args) => forall|i: int|
            0 <= i < args@.len() ==> plain_expr(#[trigger] args@[i]),
        Expr::LetTuple { bndrs, rhs, body } => plain_expr(*rhs) && plain_expr(*body),
        _ => false,
    }
}

/// The names of the binders `bs`, each with the value at its index in `vs`.
pub open spec fn zip_vals(bs: Seq<Binder>, vs: Seq<Val>) -> Seq<(Seq<char>, Val)> {
    Seq::new(bs.len(), |i: int| (bs[i].name@, vs[i]))
}

/// What the program `e` evaluates to, where the names in scope have the
/// values of `senv`, innermost last, and the store is `w`: operands from
/// left to right, then the operation. `None` where the evaluation goes
/// wrong, and for what is not a plain expression.
pub open spec fn seval(m: Machine, senv: Seq<(Seq<char>, Val)>, w: Store, e: Expr) -> Option<
    (Val, Store),
>
    decreases e, 0int,
{
    match e {
        Expr::Unit => Some((Val::Unit, w)),
        Expr::Bool(b) => Some((Val::Bool(b), w)),
        Expr::Int(i) => Some((Val::Int(i), w)),
        Expr::Float(f) => Some((Val::Float(f), w)),
        Expr::Var(name) => match lookup_val(senv, name@) {
            None => None,
            Some(v) => Some((v, w)),
        },
        Expr::Not(a) | Expr::Neg(a) | Expr::FNeg(a) => match seval(m, senv, w, *a) {
            None => None,
            Some((v, w1)) => (m.unary)(unary_op(e), v, w1),
        },
        Expr::Add(a, b) | Expr::Sub(a, b) | Expr::FAdd(a, b) | Expr::FSub(a, b) | Expr::FMul(
            a,
            b,
        ) | Expr::FDiv(a, b) | Expr::Eq(a, b) | Expr::Le(a, b) | Expr::Array(a, b) | Expr::Get(
            a,
            b,
        ) => match seval(m, senv, w, *a) {
            None => None,
            Some((v1, w1)) => match seval(m, senv, w1, *b) {
                None => None,
                Some((v2, w2)) => (m.binary)(binary_op(e), v1, v2, w2),
            },
        },
        Expr::Put(a, b, c) => match seval(m, senv, w, *a) {
            None => None,
            Some((v1, w1)) => match seval(m, senv, w1, *b) {
                None => None,
                Some((v2, w2)) => match seval(m, senv, w2, *c) {
                    None => None,
                    Some((v3, w3)) => (m.put)(v1, v2, v3, w3),
                },
            },
        },
        Expr::If(c, a, b) => match seval(m, senv, w, *c) {
            None => None,
            Some((vc, w1)) => match vc {
                Val::Bool(t) => if t {
                    seval(m, senv, w1, *a)
                } else {
                    seval(m, senv, w1, *b)
                },
                _ => None,
            },
        },
        Expr::Let { bndr, rhs, body } => match seval(m, senv, w, *rhs) {
            None => None,
            Some((v, w1)) => seval(m, senv.push((bndr.name@, v)), w1, *body),
        },
        Expr::Tuple(args) => match seval_all(m, senv, w, args@, 0, Seq::empty()) {
            None => None,
            Some((vs, w1)) => Some((Val::Tuple(vs), w1)),
        },
        Expr::LetTuple { bndrs, rhs, body } => match seval(m, senv, w, *rhs) {
            None => None,
            Some((v, w1)) => match v {
                Val::Tuple(vs) => if vs.len() == bndrs@.len() {
                    seval(m, senv + zip_vals(bndrs@, vs), w1, *body)
                } else {
                    None
                },
                _ => None,
            },
        },
        _ => None,
    }
}

/// What `es[i..]` evaluate to, from left to right; `acc` holds the values
/// of `es[..i]`.
pub open spec fn seval_all(
    m: Machine,
    senv: Seq<(Seq<char>, Val)>,
    w: Store,
    es: Seq<Expr>,
    i: nat,
    acc: Seq<Val>,
) -> Option<(Seq<Val>, Store)>
    decreases es, es.len() - i,
{
    if i >= es.len() {
        Some((acc, w))
    } else {
        match seval(m, senv, w, es[i as int]) {
            None => None,
            Some((v, w1)) => seval_all(m, senv, w1, es, i + 1, acc.push(v)),
        }
    }
}

/// Whether `id` is the identity of a binder of `e`.
pub open spec fn binder_at(e: Expr, id: u32) -> bool
    decreases e,
{
    match e {
        Expr::Not(a) | Expr::Neg(a) | Expr::FNeg(a) => binder_at(*a, id),
        Expr::Add(a, b) | Expr::Sub(a, b) | Expr::FAdd(a, b) | Expr::FSub(a, b) | Expr::FMul(
            a,
            b,
        ) | Expr::FDiv(a, b) | Expr::Eq(a, b) | Expr::Le(a, b) | Expr::Array(a, b) | Expr::Get(
            a,
            b,
        ) => binder_at(*a, id) || binder_at(*b, id),
        Expr::Put(a, b, c) | Expr::If(a, b, c) => binder_at(*a, id) || binder_at(*b, id)
            || binder_at(*c, id),
        Expr::Let { bndr, rhs, body } => bndr.id == id || binder_at(*rhs, id) || binder_at(
            *body,
            id,
        ),
        Expr::Tuple(args) => exists|i: int|
            0 <= i < args@.len() && binder_at(#[trigger] args@[i], id),
        Expr::LetTuple { bndrs, rhs, body } => binder_among(bndrs@, id) || binder_at(*rhs, id)
            || binder_at(*body, id),
        _ => false,
    }
}

/// Whether `id` is the identity of one of the binders `bs`.
pub open spec fn binder_among(bs: Seq<Binder>, id: u32) -> bool {
    exists|j: int| 0 <= j < bs.len() && (#[trigger] bs[j]).id == id
}

/// Whether the binders `bs` have identities that differ from one another.
pub open spec fn ids_distinct(bs: Seq<Binder>) -> bool {
    forall|i: int, j: int|
        0 <= i < bs.len() && 0 <= j < bs.len() && i != j ==> (#[trigger] bs[i]).id != (
        #[trigger] bs[j]).id
}

/// No binder of `a` has the identity of a binder of `b`.
pub open spec fn apart(a: Expr, b: Expr) -> bool {
    forall|id: u32| #[trigger] binder_at(a, id) ==> !binder_at(b, id)
}

/// Whether the binders of the plain expression `e` have identities that
/// differ from one another.
pub open spec fn distinct(e: Expr) -> bool
    decreases e,
{
    match e {
        Expr::Not(a) | Expr::Neg(a) | Expr::FNeg(a) => distinct(*a),
        Expr::Add(a, b) | Expr::Sub(a, b) | Expr::FAdd(a, b) | Expr::FSub(a, b) | Expr::FMul(
            a,
            b,
        ) | Expr::FDiv(a, b) | Expr::Eq(a, b) | Expr::Le(a, b) | Expr::Array(a, b) | Expr::Get(
            a,
            b,
        ) => distinct(*a) && distinct(*b) && apart(*a, *b),
        Expr::Put(a, b, c) | Expr::If(a, b, c) => distinct(*a) && distinct(*b) && distinct(*c)
            && apart(*a, *b) && apart(*a, *c) && apart(*b, *c),
        Expr::Let { bndr, rhs, body } => distinct(*rhs) && distinct(*body) && apart(*rhs, *body)
            && !binder_at(*rhs, bndr.id) && !binder_at(*body, bndr.id),
        Expr::Tuple(args) => (forall|i: int| 0 <= i < args@.len() ==> distinct(#[trigger] args@[i]))
            && forall|i: int, j: int|
            0 <= i < j < args@.len() ==> apart(#[trigger] args@[i], #[trigger] args@[j]),
        Expr::LetTuple { bndrs, rhs, body } => distinct(*rhs) && distinct(*body) && apart(
            *rhs,
            *body,
        ) && ids_distinct(bndrs@) && forall|j: int|
            0 <= j < bndrs@.len() ==> !binder_at(*rhs, (#[trigger] bndrs@[j]).id) && !binder_at(
                *body,
                bndrs@[j].id,
            ),
        _ => true,
    }
}

/// Whether `id` is the variable of one of the names of `env`.
pub open spec fn in_env(env: Seq<(Seq<char>, u32)>, id: u32) -> bool {
    exists|i: int| 0 <= i < env.len() && (#[trigger] env[i]).1 == id
}

/// No binder of `e` has the identity of a variable in scope.
pub open spec fn scope_free(e: Expr, env: Seq<(Seq<char>, u32)>) -> bool {
    forall|i: int| 0 <= i < env.len() ==> !binder_at(e, (#[trigger] env[i]).1)
}

/// Every variable that a list of names gives is `n` or above.
pub open spec fn names_from(env: Seq<(Seq<char>, u32)>, n: nat) -> bool {
    forall|i: int| 0 <= i < env.len() ==> (#[trigger] env[i]).1 >= n
}

/// The names in scope have in `kenv`, by their variables, the values that
/// they have in `senv`.
pub open spec fn related(
    env: Seq<(Seq<char>, u32)>,
    senv: Seq<(Seq<char>, Val)>,
    kenv: Map<u32, Val>,
) -> bool {
    &&& env.len() == senv.len()
    &&& forall|i: int|
        0 <= i < env.len() ==> (#[trigger] env[i]).0 == senv[i].0 && kenv.dom().contains(env[i].1)
            && kenv[env[i].1] == senv[i].1
}

proof fn lemma_lookup_related(
    env: Seq<(Seq<char>, u32)>,
    senv: Seq<(Seq<char>, Val)>,
    kenv: Map<u32, Val>,
    name: Seq<char>,
)
    requires
        related(env, senv, kenv),
        lookup_val(senv, name) is Some,
    ensures
        lookup_id(env, name) is Some,
        in_env(env, lookup_id(env, name)->Some_0),
        kenv.dom().contains(lookup_id(env, name)->Some_0),
        kenv[lookup_id(env, name)->Some_0] == lookup_val(senv, name)->Some_0,
    decreases env.len(),
{
    if env.len() > 0 {
        let k = env.len() - 1;
        assert(env.last() == env[k]);
        assert(senv.last() == senv[k]);
        if env.last().0 != name {
            assert forall|i: int| 0 <= i < env.drop_last().len() implies (
            #[trigger] env.drop_last()[i]).0 == senv.drop_last()[i].0 && kenv.dom().contains(
                env.drop_last()[i].1,
            ) && kenv[env.drop_last()[i].1] == senv.drop_last()[i].1 by {
                assert(env.drop_last()[i] == env[i]);
                assert(senv.drop_last()[i] == senv[i]);
            }
            lemma_lookup_related(env.drop_last(), senv.drop_last(), kenv, name);
            let id = lookup_id(env.drop_last(), name)->Some_0;
            let i = choose|i: int|
                0 <= i < env.drop_last().len() && (#[trigger] env.drop_last()[i]).1 == id;
            assert(env[i] == env.drop_last()[i]);
        }
    }
}

/// Where normalization started: a program whose binders are apart from one
/// another, from the variables in scope and from the variables that the
/// pass makes, and variables in scope that have the values of the names.
pub open spec fn ready(
    st: KModel,
    binds: Seq<Bind>,
    e: Expr,
    n0: nat,
    senv: Seq<(Seq<char>, Val)>,
    kenv: Map<u32, Val>,
) -> bool {
    &&& plain_expr(e)
    &&& distinct(e)
    &&& binders_below(e, n0)
    &&& n0 <= st.vars.len()
    &&& scope_free(e, st.env)
    &&& fits(st, binds)
    &&& names_from(st.globals, n0)
    &&& related(st.env, senv, kenv)
}

/// `long` begins with `short`.
pub open spec fn begins(long: Seq<Bind>, short: Seq<Bind>) -> bool {
    short.len() <= long.len() && long.subrange(0, short.len() as int) == short
}

/// Where a variable of the K-normal form of `e` comes from: the pass made
/// it, or it was in scope, or a binder of `e` bound it.
pub open spec fn origin(id: u32, env: Seq<(Seq<char>, u32)>, e: Expr, n0: nat) -> bool {
    id >= n0 || in_env(env, id) || binder_at(e, id)
}

/// What does not depend on the values: normalization grows the chain and
/// the table, keeps the names in scope, makes only variables from `n0` on,
/// and ends in a variable only if that variable has an origin.
pub open spec fn steady(st: KModel, binds: Seq<Bind>, e: Expr, n0: nat, n: Normed) -> bool {
    &&& begins(n.binds, binds)
    &&& st.vars.len() <= n.st.vars.len()
    &&& n.st.env == st.env
    &&& names_from(n.st.globals, n0)
    &&& n.last matches KE::Var(id) ==> origin(id, st.env, e, n0)
}

pub proof fn lemma_begins_trans(a: Seq<Bind>, b: Seq<Bind>, c: Seq<Bind>)
    requires
        begins(b, a),
        begins(c, b),
    ensures
        begins(c, a),
{
    assert(c.subrange(0, a.len() as int) =~= a) by {
        assert forall|i: int| 0 <= i < a.len() implies c.subrange(0, a.len() as int)[i] == a[i] by {
            assert(c[i] == c.subrange(0, b.len() as int)[i]);
            assert(b[i] == b.subrange(0, a.len() as int)[i]);
        }
    }
}

pub proof fn lemma_begins_push(a: Seq<Bind>, b: Bind)
    ensures
        begins(a.push(b), a),
{
    assert(a.push(b).subrange(0, a.len() as int) =~= a);
}

pub proof fn lemma_begins_refl(a: Seq<Bind>)
    ensures
        begins(a, a),
{
    assert(a.subrange(0, a.len() as int) =~= a);
}

proof fn lemma_operand_steady(n: Normed, n0: nat)
    requires
        operand(n) is Some,
        n0 <= n.st.vars.len(),
        names_from(n.st.globals, n0),
    ensures
        ({
            let (st2, b2, v) = operand(n)->Some_0;
            &&& begins(b2, n.binds)
            &&& n.st.vars.len() <= st2.vars.len()
            &&& st2.env == n.st.env
            &&& names_from(st2.globals, n0)
            &&& !(n.last is Var) ==> v >= n0 && v == n.st.vars.len()
            &&& n.last matches KE::Var(x) ==> v == x && b2 == n.binds && st2 == n.st
        }),
{
    let (st2, b2, v) = operand(n)->Some_0;
    match n.last {
        KE::Var(x) => {
            lemma_begins_refl(n.binds);
        },
        _ => {
            lemma_begins_push(n.binds, Bind::Let(v, n.last));
        },
    }
}

proof fn lemma_resolve_steady(st: KModel, name: Seq<char>, n0: nat)
    requires
        n0 <= st.vars.len(),
        names_from(st.globals, n0),
        resolve_name(st, name) is Some,
    ensures
        ({
            let (st2, id) = resolve_name(st, name)->Some_0;
            &&& st.vars.len() <= st2.vars.len()
            &&& st2.env == st.env
            &&& names_from(st2.globals, n0)
            &&& id >= n0 || in_env(st.env, id)
            &&& lookup_id(st.env, name) is Some ==> st2 == st && id == lookup_id(
                st.env,
                name,
            )->Some_0
        }),
{
    let (st2, id) = resolve_name(st, name)->Some_0;
    if lookup_id(st.env, name) is Some {
        lemma_lookup_in(st.env, name);
    } else if lookup_id(st.globals, name) is Some {
        lemma_lookup_in(st.globals, name);
        let i = choose|i: int| 0 <= i < st.globals.len() && (#[trigger] st.globals[i]).1 == id;
        assert(st.globals[i].1 >= n0);
    } else {
        assert forall|i: int| 0 <= i < st2.globals.len() implies (#[trigger] st2.globals[i]).1
            >= n0 by {
            if i < st.globals.len() {
                assert(st2.globals[i] == st.globals[i]);
            }
        }
    }
}

pub proof fn lemma_lookup_in(env: Seq<(Seq<char>, u32)>, name: Seq<char>)
    requires
        lookup_id(env, name) is Some,
    ensures
        in_env(env, lookup_id(env, name)->Some_0),
    decreases env.len(),
{
    if env.len() > 0 {
        let k = env.len() - 1;
        assert(env.last() == env[k]);
        if env.last().0 != name {
            lemma_lookup_in(env.drop_last(), name);
            let id = lookup_id(env.drop_last(), name)->Some_0;
            let i = choose|i: int|
                0 <= i < env.drop_last().len() && (#[trigger] env.drop_last()[i]).1 == id;
            assert(env[i] == env.drop_last()[i]);
        }
    }
}

/// Normalization of a plain expression is steady.
pub proof fn lemma_knorm_steady(st: KModel, binds: Seq<Bind>, e: Expr, n0: nat)
    requires
        plain_expr(e),
        n0 <= st.vars.len(),
        names_from(st.globals, n0),
        knorm(st, binds, e) is Some,
    ensures
        steady(st, binds, e, n0, knorm(st, binds, e)->Some_0),
    decreases e, 0int,
{
    let none = Seq::<Bind>::empty();
    let r = knorm(st, binds, e)->Some_0;
    lemma_begins_refl(binds);
    match e {
        Expr::Tuple(args) => {
            lemma_knorm_all_steady(st, binds, args@, 0, Seq::empty(), Seq::empty(), n0);
        },
        Expr::LetTuple { bndrs, rhs, body } => {
            let nr = knorm(st, binds, *rhs)->Some_0;
            lemma_knorm_steady(st, binds, *rhs, n0);
            lemma_operand_steady(nr, n0);
            let (st2, b2, v) = operand(nr)->Some_0;
            lemma_begins_trans(binds, nr.binds, b2);
            let link = Bind::LetTuple(ids_of(bndrs@), v);
            lemma_begins_push(b2, link);
            lemma_begins_trans(binds, b2, b2.push(link));
            let st3 = enter(st2, bndrs@);
            lemma_knorm_steady(st3, b2.push(link), *body, n0);
            let nb = knorm(st3, b2.push(link), *body)->Some_0;
            lemma_begins_trans(binds, b2.push(link), nb.binds);
            match nb.last {
                KE::Var(id) => {
                    if in_env(st3.env, id) && !in_env(st.env, id) {
                        let i = choose|i: int|
                            0 <= i < st3.env.len() && (#[trigger] st3.env[i]).1 == id;
                        if i < st.env.len() {
                            assert(st3.env[i] == st.env[i]);
                        } else {
                            let j = i - st.env.len();
                            assert(st3.env[i] == names_of(bndrs@)[j]);
                            assert(bndrs@[j].id == id);
                        }
                    }
                },
                _ => {},
            }
        },
        Expr::Var(name) => {
            lemma_resolve_steady(st, name@, n0);
        },
        Expr::Not(a) | Expr::Neg(a) | Expr::FNeg(a) => {
            let n1 = knorm(st, binds, *a)->Some_0;
            lemma_knorm_steady(st, binds, *a, n0);
            lemma_operand_steady(n1, n0);
            let (st2, b2, v) = operand(n1)->Some_0;
            lemma_begins_trans(binds, n1.binds, b2);
        },
        Expr::Add(a, b) | Expr::Sub(a, b) | Expr::FAdd(a, b) | Expr::FSub(a, b) | Expr::FMul(
            a,
            b,
        ) | Expr::FDiv(a, b) | Expr::Eq(a, b) | Expr::Le(a, b) | Expr::Array(a, b) | Expr::Get(
            a,
            b,
        ) => {
            let n1 = knorm(st, binds, *a)->Some_0;
            lemma_knorm_steady(st, binds, *a, n0);
            lemma_operand_steady(n1, n0);
            let (st2, b2, v1) = operand(n1)->Some_0;
            lemma_begins_trans(binds, n1.binds, b2);
            let n2 = knorm(st2, b2, *b)->Some_0;
            lemma_knorm_steady(st2, b2, *b, n0);
            lemma_operand_steady(n2, n0);
            let (st4, b4, v2) = operand(n2)->Some_0;
            lemma_begins_trans(binds, b2, n2.binds);
            lemma_begins_trans(binds, n2.binds, b4);
        },
        Expr::Put(a, b, c) => {
            let n1 = knorm(st, binds, *a)->Some_0;
            lemma_knorm_steady(st, binds, *a, n0);
            lemma_operand_steady(n1, n0);
            let (st2, b2, v1) = operand(n1)->Some_0;
            lemma_begins_trans(binds, n1.binds, b2);
            let n2 = knorm(st2, b2, *b)->Some_0;
            lemma_knorm_steady(st2, b2, *b, n0);
            lemma_operand_steady(n2, n0);
            let (st4, b4, v2) = operand(n2)->Some_0;
            lemma_begins_trans(binds, b2, n2.binds);
            lemma_begins_trans(binds, n2.binds, b4);
            let n3 = knorm(st4, b4, *c)->Some_0;
            lemma_knorm_steady(st4, b4, *c, n0);
            lemma_operand_steady(n3, n0);
            let (st6, b6, v3) = operand(n3)->Some_0;
            lemma_begins_trans(binds, b4, n3.binds);
            lemma_begins_trans(binds, n3.binds, b6);
        },
        Expr::If(c, a, b) => {
            let n1 = knorm(st, binds, *c)->Some_0;
            lemma_knorm_steady(st, binds, *c, n0);
            lemma_operand_steady(n1, n0);
            let (st2, b2, v) = operand(n1)->Some_0;
            lemma_begins_trans(binds, n1.binds, b2);
            let na = knorm(st2, none, *a)->Some_0;
            lemma_knorm_steady(st2, none, *a, n0);
            lemma_knorm_steady(na.st, none, *b, n0);
        },
        Expr::Let { bndr, rhs, body } => {
            let nr = knorm(st, binds, *rhs)->Some_0;
            lemma_knorm_steady(st, binds, *rhs, n0);
            let link = Bind::Let(bndr.id, nr.last);
            lemma_begins_push(nr.binds, link);
            lemma_begins_trans(binds, nr.binds, nr.binds.push(link));
            let st1 = enter_one(nr.st, bndr);
            lemma_knorm_steady(st1, nr.binds.push(link), *body, n0);
            let nb = knorm(st1, nr.binds.push(link), *body)->Some_0;
            lemma_begins_trans(binds, nr.binds.push(link), nb.binds);
            match nb.last {
                KE::Var(id) => {
                    if in_env(st1.env, id) && !in_env(st.env, id) {
                        let i = choose|i: int|
                            0 <= i < st1.env.len() && (#[trigger] st1.env[i]).1 == id;
                        if i < st.env.len() {
                            assert(st1.env[i] == st.env[i]);
                        }
                    }
                },
                _ => {},
            }
        },
        _ => {},
    }
}

/// The same for a list of operands: each of the variables that stand for
/// them has an origin.
proof fn lemma_knorm_all_steady(
    st: KModel,
    binds: Seq<Bind>,
    es: Seq<Expr>,
    i: nat,
    vs: Seq<u32>,
    ts: Seq<crate::types::Ty>,
    n0: nat,
)
    requires
        forall|j: int| 0 <= j < es.len() ==> plain_expr(#[trigger] es[j]),
        i <= es.len(),
        n0 <= st.vars.len(),
        names_from(st.globals, n0),
        knorm_all(st, binds, es, i, vs, ts) is Some,
    ensures
        ({
            let (st2, b2, vs2, ts2) = knorm_all(st, binds, es, i, vs, ts)->Some_0;
            &&& begins(b2, binds)
            &&& st.vars.len() <= st2.vars.len()
            &&& st2.env == st.env
            &&& names_from(st2.globals, n0)
            &&& vs2.len() == vs.len() + es.len() - i
            &&& forall|j: int| 0 <= j < vs.len() ==> vs2[j] == vs[j]
            &&& forall|j: int|
                i <= j < es.len() ==> origin(vs2[vs.len() + j - i], st.env, #[trigger] es[j], n0)
        }),
    decreases es, es.len() - i,
{
    lemma_begins_refl(binds);
    if i < es.len() {
        let n = knorm(st, binds, es[i as int])->Some_0;
        lemma_knorm_steady(st, binds, es[i as int], n0);
        lemma_operand_steady(n, n0);
        let (st2, b2, v) = operand(n)->Some_0;
        lemma_begins_trans(binds, n.binds, b2);
        lemma_knorm_all_steady(st2, b2, es, i + 1, vs.push(v), ts.push(n.ty), n0);
        let (st3, b3, vs3, ts3) = knorm_all(st2, b2, es, i + 1, vs.push(v), ts.push(n.ty))->Some_0;
        lemma_begins_trans(binds, b2, b3);
        assert forall|j: int| 0 <= j < vs.len() implies vs3[j] == vs[j] by {
            assert(vs.push(v)[j] == vs[j]);
        }
        assert(vs3[vs.len() as int] == vs.push(v)[vs.len() as int]);
        assert forall|j: int| i <= j < es.len() implies origin(
            vs3[vs.len() + j - i],
            st.env,
            #[trigger] es[j],
            n0,
        ) by {
            if j > i {
                assert(vs.push(v).len() + j - (i + 1) == vs.len() + j - i);
            }
        }
    }
}

proof fn lemma_binder_below(e: Expr, n: nat, id: u32)
    requires
        binders_below(e, n),
        binder_at(e, id),
    ensures
        id < n,
    decreases e,
{
    match e {
        Expr::Not(a) | Expr::Neg(a) | Expr::FNeg(a) => {
            lemma_binder_below(*a, n, id);
        },
        Expr::Add(a, b) | Expr::Sub(a, b) | Expr::FAdd(a, b) | Expr::FSub(a, b) | Expr::FMul(
            a,
            b,
        ) | Expr::FDiv(a, b) | Expr::Eq(a, b) | Expr::Le(a, b) | Expr::Array(a, b) | Expr::Get(
            a,
            b,
        ) => {
            if binder_at(*a, id) {
                lemma_binder_below(*a, n, id);
            } else {
                lemma_binder_below(*b, n, id);
            }
        },
        Expr::Put(a, b, c) | Expr::If(a, b, c) => {
            if binder_at(*a, id) {
                lemma_binder_below(*a, n, id);
            } else if binder_at(*b, id) {
                lemma_binder_below(*b, n, id);
            } else {
                lemma_binder_below(*c, n, id);
            }
        },
        Expr::Let { bndr, rhs, body } => {
            if bndr.id == id {
            } else if binder_at(*rhs, id) {
                lemma_binder_below(*rhs, n, id);
            } else {
                lemma_binder_below(*body, n, id);
            }
        },
        Expr::Tuple(args) => {
            let i = choose|i: int| 0 <= i < args@.len() && binder_at(#[trigger] args@[i], id);
            lemma_binder_below(args@[i], n, id);
        },
        Expr::LetTuple { bndrs, rhs, body } => {
            if binder_among(bndrs@, id) {
                let j = choose|j: int| 0 <= j < bndrs@.len() && (#[trigger] bndrs@[j]).id == id;
                assert(bndrs@[j].id < n);
            } else if binder_at(*rhs, id) {
                lemma_binder_below(*rhs, n, id);
            } else {
                lemma_binder_below(*body, n, id);
            }
        },
        _ => {},
    }
}

proof fn lemma_related_frame(
    env: Seq<(Seq<char>, u32)>,
    senv: Seq<(Seq<char>, Val)>,
    kenv: Map<u32, Val>,
    kenv2: Map<u32, Val>,
)
    requires
        related(env, senv, kenv),
        forall|i: int| 0 <= i < env.len() ==> same_at(kenv, kenv2, (#[trigger] env[i]).1),
    ensures
        related(env, senv, kenv2),
{
}

/// The values and the store after the links that normalization added to
/// the chain, and what the expression it ends in evaluates to there: the
/// value `v` and the store `w2`; and the variables of the table that no
/// binder of `e` binds have the values they had.
pub open spec fn follows(
    m: Machine,
    fuel: nat,
    st: KModel,
    binds: Seq<Bind>,
    e: Expr,
    kenv: Map<u32, Val>,
    w: Store,
    n: Normed,
    v: Val,
    w2: Store,
) -> bool {
    &&& binds.len() <= n.binds.len()
    &&& run(m, fuel, kenv, w, n.binds, binds.len(), n.binds.len()) is Some
    &&& ({
        let (kenv2, w1) = run(m, fuel, kenv, w, n.binds, binds.len(), n.binds.len())->Some_0;
        &&& eval(m, fuel, kenv2, w1, n.last) == Some((v, w2))
        &&& forall|id: u32|
            id < st.vars.len() && !binder_at(e, id) ==> #[trigger] same_at(kenv, kenv2, id)
    })
}

/// The same for an operand: after the links, the variable `vid` has the
/// value `v` and the store is `w2`.
pub open spec fn operand_follows(
    m: Machine,
    fuel: nat,
    st: KModel,
    binds: Seq<Bind>,
    e: Expr,
    kenv: Map<u32, Val>,
    w: Store,
    b2: Seq<Bind>,
    vid: u32,
    v: Val,
    w2: Store,
) -> bool {
    &&& binds.len() <= b2.len()
    &&& run(m, fuel, kenv, w, b2, binds.len(), b2.len()) is Some
    &&& ({
        let (kenv2, w1) = run(m, fuel, kenv, w, b2, binds.len(), b2.len())->Some_0;
        &&& w1 == w2
        &&& kenv2.dom().contains(vid)
        &&& kenv2[vid] == v
        &&& forall|id: u32|
            id < st.vars.len() && !binder_at(e, id) ==> #[trigger] same_at(kenv, kenv2, id)
    })
}

/// What holds of an operand whatever the values: the chain and the table
/// have grown and fit, and the operand is a variable of the table with an
/// origin.
pub open spec fn operand_steady(
    st: KModel,
    binds: Seq<Bind>,
    e: Expr,
    n0: nat,
    st2: KModel,
    b2: Seq<Bind>,
    vid: u32,
) -> bool {
    &&& begins(b2, binds)
    &&& st.vars.len() <= st2.vars.len()
    &&& st2.env == st.env
    &&& names_from(st2.globals, n0)
    &&& fits(st2, b2)
    &&& vid < st2.vars.len()
    &&& origin(vid, st.env, e, n0)
}

proof fn lemma_ready_part(
    st: KModel,
    binds: Seq<Bind>,
    e: Expr,
    part: Expr,
    n0: nat,
    senv: Seq<(Seq<char>, Val)>,
    kenv: Map<u32, Val>,
)
    requires
        ready(st, binds, e, n0, senv, kenv),
        plain_expr(part),
        distinct(part),
        binders_below(part, n0),
        forall|id: u32| binder_at(part, id) ==> binder_at(e, id),
    ensures
        ready(st, binds, part, n0, senv, kenv),
{
}

/// What is ready for a part of the program is ready for a later part, in
/// the state and with the values that the earlier part has left.
proof fn lemma_ready_next(
    st: KModel,
    binds: Seq<Bind>,
    e: Expr,
    n0: nat,
    senv: Seq<(Seq<char>, Val)>,
    kenv: Map<u32, Val>,
    st2: KModel,
    b2: Seq<Bind>,
    kenv2: Map<u32, Val>,
    part: Expr,
)
    requires
        ready(st, binds, e, n0, senv, kenv),
        ready(st, binds, part, n0, senv, kenv),
        st.vars.len() <= st2.vars.len(),
        st2.env == st.env,
        names_from(st2.globals, n0),
        fits(st2, b2),
        forall|id: u32|
            id < st.vars.len() && !binder_at(e, id) ==> #[trigger] same_at(kenv, kenv2, id),
    ensures
        ready(st2, b2, part, n0, senv, kenv2),
{
    assert forall|i: int| 0 <= i < st.env.len() implies same_at(
        kenv,
        kenv2,
        (#[trigger] st.env[i]).1,
    ) by {
        let id = st.env[i].1;
        assert(id < st.vars.len());
        assert(!binder_at(e, id));
    }
    lemma_related_frame(st.env, senv, kenv, kenv2);
}

/// An operand that an earlier part of the program has left is no binder
/// of a later part.
proof fn lemma_origin_apart(
    vid: u32,
    env: Seq<(Seq<char>, u32)>,
    a: Expr,
    b: Expr,
    n0: nat,
)
    requires
        origin(vid, env, a, n0),
        binders_below(b, n0),
        scope_free(b, env),
        apart(a, b),
    ensures
        !binder_at(b, vid),
{
    if binder_at(b, vid) {
        lemma_binder_below(b, n0, vid);
        if in_env(env, vid) {
            let i = choose|i: int| 0 <= i < env.len() && (#[trigger] env[i]).1 == vid;
            assert(!binder_at(b, env[i].1));
        }
    }
}

/// K-normalization simulates the evaluation of an operand.
proof fn lemma_operand_simulates(
    m: Machine,
    fuel: nat,
    st: KModel,
    binds: Seq<Bind>,
    e: Expr,
    n0: nat,
    senv: Seq<(Seq<char>, Val)>,
    kenv: Map<u32, Val>,
    w: Store,
)
    requires
        ready(st, binds, e, n0, senv, kenv),
        knorm(st, binds, e) is Some,
        operand(knorm(st, binds, e)->Some_0) is Some,
        seval(m, senv, w, e) is Some,
    ensures
        ({
            let (st2, b2, vid) = operand(knorm(st, binds, e)->Some_0)->Some_0;
            let (v, w2) = seval(m, senv, w, e)->Some_0;
            &&& operand_steady(st, binds, e, n0, st2, b2, vid)
            &&& operand_follows(m, fuel, st, binds, e, kenv, w, b2, vid, v, w2)
        }),
    decreases e, 2int,
{
    let n = knorm(st, binds, e)->Some_0;
    let (st2, b2, vid) = operand(n)->Some_0;
    let (v, w2) = seval(m, senv, w, e)->Some_0;
    lemma_knorm_simulates(m, fuel, st, binds, e, n0, senv, kenv, w);
    lemma_knorm_steady(st, binds, e, n0);
    lemma_knorm_below(st, binds, e, n0);
    lemma_operand_steady(n, n0);
    lemma_operand_below(n);
    lemma_begins_trans(binds, n.binds, b2);
    let k0 = binds.len();
    let l1 = n.binds.len();
    let (kenv1, w1) = run(m, fuel, kenv, w, n.binds, k0, l1)->Some_0;
    lemma_run_prefix(m, fuel, kenv, w, n.binds, b2, k0, l1);
    match n.last {
        KE::Var(x) => {},
        _ => {
            assert(b2[l1 as int] == Bind::Let(vid, n.last));
            assert(run(m, fuel, kenv, w, b2, k0, b2.len()) == step(
                m,
                fuel,
                kenv1,
                w1,
                b2[l1 as int],
            ));
            let kenv2 = kenv1.insert(vid, v);
            assert forall|id: u32| id < st.vars.len() && !binder_at(e, id) implies #[trigger] same_at(
                kenv,
                kenv2,
                id,
            ) by {
                assert(same_at(kenv, kenv1, id));
            }
        },
    }
}

/// K-normalization preserves what a plain expression evaluates to: where
/// the program evaluates to a value, running the links that normalization
/// adds to the chain and then evaluating the expression that it ends in
/// gives the same value and the same store.
pub proof fn lemma_knorm_simulates(
    m: Machine,
    fuel: nat,
    st: KModel,
    binds: Seq<Bind>,
    e: Expr,
    n0: nat,
    senv: Seq<(Seq<char>, Val)>,
    kenv: Map<u32, Val>,
    w: Store,
)
    requires
        ready(st, binds, e, n0, senv, kenv),
        knorm(st, binds, e) is Some,
        seval(m, senv, w, e) is Some,
    ensures
        follows(
            m,
            fuel,
            st,
            binds,
            e,
            kenv,
            w,
            knorm(st, binds, e)->Some_0,
            seval(m, senv, w, e)->Some_0.0,
            seval(m, senv, w, e)->Some_0.1,
        ),
    decreases e, 1int,
{
    match e {
        Expr::Var(name) => {
            lemma_lookup_related(st.env, senv, kenv, name@);
        },
        Expr::Not(_) | Expr::Neg(_) | Expr::FNeg(_) => {
            lemma_unary_simulates(m, fuel, st, binds, e, n0, senv, kenv, w);
        },
        Expr::Add(_, _) | Expr::Sub(_, _) | Expr::FAdd(_, _) | Expr::FSub(_, _) | Expr::FMul(
            _,
            _,
        ) | Expr::FDiv(_, _) | Expr::Eq(_, _) | Expr::Le(_, _) | Expr::Array(_, _) | Expr::Get(
            _,
            _,
        ) => {
            lemma_binary_simulates(m, fuel, st, binds, e, n0, senv, kenv, w);
        },
        Expr::Put(_, _, _) => {
            lemma_put_simulates(m, fuel, st, binds, e, n0, senv, kenv, w);
        },
        Expr::If(_, _, _) => {
            lemma_if_simulates(m, fuel, st, binds, e, n0, senv, kenv, w);
        },
        Expr::Let { .. } => {
            lemma_let_simulates(m, fuel, st, binds, e, n0, senv, kenv, w);
        },
        Expr::Tuple(_) => {
            lemma_tuple_simulates(m, fuel, st, binds, e, n0, senv, kenv, w);
        },
        Expr::LetTuple { .. } => {
            lemma_lettuple_simulates(m, fuel, st, binds, e, n0, senv, kenv, w);
        },
        _ => {},
    }
}

proof fn lemma_unary_simulates(
    m: Machine,
    fuel: nat,
    st: KModel,
    binds: Seq<Bind>,
    e: Expr,
    n0: nat,
    senv: Seq<(Seq<char>, Val)>,
    kenv: Map<u32, Val>,
    w: Store,
)
    requires
        e is Not || e is Neg || e is FNeg,
        ready(st, binds, e, n0, senv, kenv),
        knorm(st, binds, e) is Some,
        seval(m, senv, w, e) is Some,
    ensures
        follows(
            m,
            fuel,
            st,
            binds,
            e,
            kenv,
            w,
            knorm(st, binds, e)->Some_0,
            seval(m, senv, w, e)->Some_0.0,
            seval(m, senv, w, e)->Some_0.1,
        ),
    decreases e, 0int,
{
    match e {
        Expr::Not(a) | Expr::Neg(a) | Expr::FNeg(a) => {
            lemma_ready_part(st, binds, e, *a, n0, senv, kenv);
            lemma_operand_simulates(m, fuel, st, binds, *a, n0, senv, kenv, w);
        },
        _ => {},
    }
}

proof fn lemma_binary_simulates(
    m: Machine,
    fuel: nat,
    st: KModel,
    binds: Seq<Bind>,
    e: Expr,
    n0: nat,
    senv: Seq<(Seq<char>, Val)>,
    kenv: Map<u32, Val>,
    w: Store,
)
    requires
        e is Add || e is Sub || e is FAdd || e is FSub || e is FMul || e is FDiv || e is Eq
            || e is Le || e is Array || e is Get,
        ready(st, binds, e, n0, senv, kenv),
        knorm(st, binds, e) is Some,
        seval(m, senv, w, e) is Some,
    ensures
        follows(
            m,
            fuel,
            st,
            binds,
            e,
            kenv,
            w,
            knorm(st, binds, e)->Some_0,
            seval(m, senv, w, e)->Some_0.0,
            seval(m, senv, w, e)->Some_0.1,
        ),
    decreases e, 0int,
{
    match e {
        Expr::Add(a, b) | Expr::Sub(a, b) | Expr::FAdd(a, b) | Expr::FSub(a, b) | Expr::FMul(
            a,
            b,
        ) | Expr::FDiv(a, b) | Expr::Eq(a, b) | Expr::Le(a, b) | Expr::Array(a, b) | Expr::Get(
            a,
            b,
        ) => {
            let k0 = binds.len();
            lemma_ready_part(st, binds, e, *a, n0, senv, kenv);
            lemma_ready_part(st, binds, e, *b, n0, senv, kenv);
            lemma_operand_simulates(m, fuel, st, binds, *a, n0, senv, kenv, w);
            let (st2, b2, v1) = operand(knorm(st, binds, *a)->Some_0)->Some_0;
            let (va, w1) = seval(m, senv, w, *a)->Some_0;
            let (kenv2, wa) = run(m, fuel, kenv, w, b2, k0, b2.len())->Some_0;
            assert forall|id: u32| id < st.vars.len() && !binder_at(e, id) implies #[trigger] same_at(
                kenv,
                kenv2,
                id,
            ) by {
                assert(!binder_at(*a, id));
            }
            lemma_ready_next(st, binds, e, n0, senv, kenv, st2, b2, kenv2, *b);
            lemma_operand_simulates(m, fuel, st2, b2, *b, n0, senv, kenv2, w1);
            let (st4, b4, v2) = operand(knorm(st2, b2, *b)->Some_0)->Some_0;
            let (kenv4, wb) = run(m, fuel, kenv2, w1, b4, b2.len(), b4.len())->Some_0;
            lemma_origin_apart(v1, st.env, *a, *b, n0);
            assert(same_at(kenv2, kenv4, v1));
            lemma_run_split(m, fuel, kenv, w, b4, k0, b2.len(), b4.len());
            lemma_run_prefix(m, fuel, kenv, w, b2, b4, k0, b2.len());
            assert forall|id: u32| id < st.vars.len() && !binder_at(e, id) implies #[trigger] same_at(
                kenv,
                kenv4,
                id,
            ) by {
                assert(same_at(kenv, kenv2, id));
                assert(!binder_at(*b, id));
                assert(same_at(kenv2, kenv4, id));
            }
        },
        _ => {},
    }
}

proof fn lemma_put_simulates(
    m: Machine,
    fuel: nat,
    st: KModel,
    binds: Seq<Bind>,
    e: Expr,
    n0: nat,
    senv: Seq<(Seq<char>, Val)>,
    kenv: Map<u32, Val>,
    w: Store,
)
    requires
        e is Put,
        ready(st, binds, e, n0, senv, kenv),
        knorm(st, binds, e) is Some,
        seval(m, senv, w, e) is Some,
    ensures
        follows(
            m,
            fuel,
            st,
            binds,
            e,
            kenv,
            w,
            knorm(st, binds, e)->Some_0,
            seval(m, senv, w, e)->Some_0.0,
            seval(m, senv, w, e)->Some_0.1,
        ),
    decreases e, 0int,
{
    match e {
        Expr::Put(a, b, c) => {
            let k0 = binds.len();
            lemma_ready_part(st, binds, e, *a, n0, senv, kenv);
            lemma_ready_part(st, binds, e, *b, n0, senv, kenv);
            lemma_ready_part(st, binds, e, *c, n0, senv, kenv);
            lemma_operand_simulates(m, fuel, st, binds, *a, n0, senv, kenv, w);
            let (st2, b2, v1) = operand(knorm(st, binds, *a)->Some_0)->Some_0;
            let (va, w1) = seval(m, senv, w, *a)->Some_0;
            let (kenv2, wa) = run(m, fuel, kenv, w, b2, k0, b2.len())->Some_0;
            assert forall|id: u32| id < st.vars.len() && !binder_at(e, id) implies #[trigger] same_at(
                kenv,
                kenv2,
                id,
            ) by {
                assert(!binder_at(*a, id));
            }
            lemma_ready_next(st, binds, e, n0, senv, kenv, st2, b2, kenv2, *b);
            lemma_operand_simulates(m, fuel, st2, b2, *b, n0, senv, kenv2, w1);
            let (st4, b4, v2) = operand(knorm(st2, b2, *b)->Some_0)->Some_0;
            let (vb, w2) = seval(m, senv, w1, *b)->Some_0;
            let (kenv4, wb) = run(m, fuel, kenv2, w1, b4, b2.len(), b4.len())->Some_0;
            lemma_origin_apart(v1, st.env, *a, *b, n0);
            assert(same_at(kenv2, kenv4, v1));
            lemma_run_split(m, fuel, kenv, w, b4, k0, b2.len(), b4.len());
            lemma_run_prefix(m, fuel, kenv, w, b2, b4, k0, b2.len());
            assert forall|id: u32| id < st.vars.len() && !binder_at(e, id) implies #[trigger] same_at(
                kenv,
                kenv4,
                id,
            ) by {
                assert(same_at(kenv, kenv2, id));
                assert(!binder_at(*b, id));
                assert(same_at(kenv2, kenv4, id));
            }
            lemma_begins_trans(binds, b2, b4);
            lemma_ready_next(st, binds, e, n0, senv, kenv, st4, b4, kenv4, *c);
            lemma_operand_simulates(m, fuel, st4, b4, *c, n0, senv, kenv4, w2);
            let (st6, b6, v3) = operand(knorm(st4, b4, *c)->Some_0)->Some_0;
            let (kenv6, wc) = run(m, fuel, kenv4, w2, b6, b4.len(), b6.len())->Some_0;
            lemma_origin_apart(v1, st.env, *a, *c, n0);
            assert(same_at(kenv4, kenv6, v1));
            assert(origin(v2, st.env, *b, n0));
            lemma_origin_apart(v2, st.env, *b, *c, n0);
            assert(same_at(kenv4, kenv6, v2));
            lemma_run_split(m, fuel, kenv, w, b6, k0, b4.len(), b6.len());
            lemma_run_prefix(m, fuel, kenv, w, b4, b6, k0, b4.len());
            assert forall|id: u32| id < st.vars.len() && !binder_at(e, id) implies #[trigger] same_at(
                kenv,
                kenv6,
                id,
            ) by {
                assert(same_at(kenv, kenv4, id));
                assert(!binder_at(*c, id));
                assert(same_at(kenv4, kenv6, id));
            }
        },
        _ => {},
    }
}

proof fn lemma_if_simulates(
    m: Machine,
    fuel: nat,
    st: KModel,
    binds: Seq<Bind>,
    e: Expr,
    n0: nat,
    senv: Seq<(Seq<char>, Val)>,
    kenv: Map<u32, Val>,
    w: Store,
)
    requires
        e is If,
        ready(st, binds, e, n0, senv, kenv),
        knorm(st, binds, e) is Some,
        seval(m, senv, w, e) is Some,
    ensures
        follows(
            m,
            fuel,
            st,
            binds,
            e,
            kenv,
            w,
            knorm(st, binds, e)->Some_0,
            seval(m, senv, w, e)->Some_0.0,
            seval(m, senv, w, e)->Some_0.1,
        ),
    decreases e, 0int,
{
    match e {
        Expr::If(c, a, b) => {
            let none = Seq::<Bind>::empty();
            let k0 = binds.len();
            lemma_ready_part(st, binds, e, *c, n0, senv, kenv);
            lemma_ready_part(st, binds, e, *a, n0, senv, kenv);
            lemma_ready_part(st, binds, e, *b, n0, senv, kenv);
            lemma_operand_simulates(m, fuel, st, binds, *c, n0, senv, kenv, w);
            let (st2, b2, vc) = operand(knorm(st, binds, *c)->Some_0)->Some_0;
            let (cv, w1) = seval(m, senv, w, *c)->Some_0;
            let (kenv2, wa) = run(m, fuel, kenv, w, b2, k0, b2.len())->Some_0;
            assert forall|id: u32| id < st.vars.len() && !binder_at(e, id) implies #[trigger] same_at(
                kenv,
                kenv2,
                id,
            ) by {
                assert(!binder_at(*c, id));
            }
            let na = knorm(st2, none, *a)->Some_0;
            let nb = knorm(na.st, none, *b)->Some_0;
            assert(fits(st2, none));
            lemma_ready_next(st, binds, e, n0, senv, kenv, st2, none, kenv2, *a);
            lemma_knorm_steady(st2, none, *a, n0);
            lemma_knorm_below(st2, none, *a, n0);
            assert(fits(na.st, none));
            lemma_ready_next(st, binds, e, n0, senv, kenv, na.st, none, kenv2, *b);
            match cv {
                Val::Bool(t) => {
                    if t {
                        lemma_knorm_simulates(m, fuel, st2, none, *a, n0, senv, kenv2, w1);
                        lemma_assemble_eval(m, fuel, kenv2, w1, na.binds, na.last);
                    } else {
                        lemma_knorm_simulates(m, fuel, na.st, none, *b, n0, senv, kenv2, w1);
                        lemma_assemble_eval(m, fuel, kenv2, w1, nb.binds, nb.last);
                    }
                },
                _ => {},
            }
        },
        _ => {},
    }
}

proof fn lemma_let_simulates(
    m: Machine,
    fuel: nat,
    st: KModel,
    binds: Seq<Bind>,
    e: Expr,
    n0: nat,
    senv: Seq<(Seq<char>, Val)>,
    kenv: Map<u32, Val>,
    w: Store,
)
    requires
        e is Let,
        ready(st, binds, e, n0, senv, kenv),
        knorm(st, binds, e) is Some,
        seval(m, senv, w, e) is Some,
    ensures
        follows(
            m,
            fuel,
            st,
            binds,
            e,
            kenv,
            w,
            knorm(st, binds, e)->Some_0,
            seval(m, senv, w, e)->Some_0.0,
            seval(m, senv, w, e)->Some_0.1,
        ),
    decreases e, 0int,
{
    match e {
        Expr::Let { bndr, rhs, body } => {
            let k0 = binds.len();
            let x = bndr.id;
            lemma_ready_part(st, binds, e, *rhs, n0, senv, kenv);
            lemma_knorm_simulates(m, fuel, st, binds, *rhs, n0, senv, kenv, w);
            lemma_knorm_steady(st, binds, *rhs, n0);
            lemma_knorm_below(st, binds, *rhs, n0);
            let nr = knorm(st, binds, *rhs)->Some_0;
            let (vr, w1) = seval(m, senv, w, *rhs)->Some_0;
            let lr = nr.binds.len();
            let (kenv_r, w_r) = run(m, fuel, kenv, w, nr.binds, k0, lr)->Some_0;
            let link = Bind::Let(x, nr.last);
            let chain = nr.binds.push(link);
            lemma_begins_push(nr.binds, link);
            lemma_run_prefix(m, fuel, kenv, w, nr.binds, chain, k0, lr);
            assert(chain[lr as int] == link);
            let kenv_x = kenv_r.insert(x, vr);
            assert(run(m, fuel, kenv, w, chain, k0, chain.len()) == Some((kenv_x, w1)));
            let st1 = enter_one(nr.st, bndr);
            let senv1 = senv.push((bndr.name@, vr));
            // the state and the values are ready for the body
            lemma_chain_below_push(nr.binds, link, nr.st.vars.len());
            lemma_names_push(nr.st.env, bndr.name@, x, nr.st.vars.len());
            assert forall|i: int| 0 <= i < st1.env.len() implies !binder_at(
                *body,
                (#[trigger] st1.env[i]).1,
            ) by {
                if i < st.env.len() {
                    assert(st1.env[i] == st.env[i]);
                    assert(!binder_at(e, st.env[i].1));
                }
            }
            assert forall|i: int| 0 <= i < st1.env.len() implies (#[trigger] st1.env[i]).0
                == senv1[i].0 && kenv_x.dom().contains(st1.env[i].1) && kenv_x[st1.env[i].1]
                == senv1[i].1 by {
                if i < st.env.len() {
                    assert(st1.env[i] == st.env[i]);
                    let id = st.env[i].1;
                    assert(!binder_at(e, id));
                    assert(id < st.vars.len());
                    assert(!binder_at(*rhs, id));
                    assert(same_at(kenv, kenv_r, id));
                }
            }
            assert(ready(st1, chain, *body, n0, senv1, kenv_x));
            lemma_knorm_simulates(m, fuel, st1, chain, *body, n0, senv1, kenv_x, w1);
            lemma_knorm_steady(st1, chain, *body, n0);
            let nb = knorm(st1, chain, *body)->Some_0;
            let (kenv_b, w_b) = run(m, fuel, kenv_x, w1, nb.binds, chain.len(), nb.binds.len())->Some_0;
            lemma_run_split(m, fuel, kenv, w, nb.binds, k0, chain.len(), nb.binds.len());
            lemma_run_prefix(m, fuel, kenv, w, chain, nb.binds, k0, chain.len());
            assert forall|id: u32| id < st.vars.len() && !binder_at(e, id) implies #[trigger] same_at(
                kenv,
                kenv_b,
                id,
            ) by {
                assert(!binder_at(*rhs, id));
                assert(same_at(kenv, kenv_r, id));
                assert(!binder_at(*body, id));
                assert(same_at(kenv_x, kenv_b, id));
            }
        },
        _ => {},
    }
}

/// A list of operands is ready: each is, and their binders are apart.
pub open spec fn ready_all(
    st: KModel,
    binds: Seq<Bind>,
    es: Seq<Expr>,
    n0: nat,
    senv: Seq<(Seq<char>, Val)>,
    kenv: Map<u32, Val>,
) -> bool {
    &&& forall|j: int|
        0 <= j < es.len() ==> plain_expr(#[trigger] es[j]) && distinct(es[j]) && binders_below(
            es[j],
            n0,
        ) && scope_free(es[j], st.env)
    &&& forall|j: int, k: int|
        0 <= j < k < es.len() ==> apart(#[trigger] es[j], #[trigger] es[k])
    &&& n0 <= st.vars.len()
    &&& fits(st, binds)
    &&& names_from(st.globals, n0)
    &&& related(st.env, senv, kenv)
}

/// The operands so far: the variables `vs` stand for `es[..vs.len()]` and
/// have the values `acc`.
pub open spec fn held(
    kenv: Map<u32, Val>,
    vs: Seq<u32>,
    acc: Seq<Val>,
    st: KModel,
    es: Seq<Expr>,
    n0: nat,
) -> bool {
    &&& vs.len() == acc.len()
    &&& vs.len() <= es.len()
    &&& forall|j: int|
        0 <= j < vs.len() ==> kenv.dom().contains(#[trigger] vs[j]) && kenv[vs[j]] == acc[j]
            && vs[j] < st.vars.len() && origin(vs[j], st.env, es[j], n0)
}

/// Whether `id` is the identity of a binder of one of `es[i..]`.
pub open spec fn binder_from(es: Seq<Expr>, i: nat, id: u32) -> bool {
    exists|j: int| i <= j < es.len() && binder_at(#[trigger] es[j], id)
}

/// What follows for a list of operands: after the links, the variables
/// `vs2` have the values `vals`, the store is `w2`, and the variables of
/// the table that no binder of the operands binds have the values they had.
pub open spec fn all_follow(
    m: Machine,
    fuel: nat,
    st: KModel,
    binds: Seq<Bind>,
    es: Seq<Expr>,
    i: nat,
    kenv: Map<u32, Val>,
    w: Store,
    b2: Seq<Bind>,
    vs2: Seq<u32>,
    vals: Seq<Val>,
    w2: Store,
) -> bool {
    &&& binds.len() <= b2.len()
    &&& run(m, fuel, kenv, w, b2, binds.len(), b2.len()) is Some
    &&& ({
        let (kenv2, w1) = run(m, fuel, kenv, w, b2, binds.len(), b2.len())->Some_0;
        &&& w1 == w2
        &&& vs2.len() == es.len()
        &&& vals.len() == es.len()
        &&& forall|j: int|
            0 <= j < es.len() ==> kenv2.dom().contains(#[trigger] vs2[j]) && kenv2[vs2[j]]
                == vals[j]
        &&& forall|id: u32|
            id < st.vars.len() && !binder_from(es, i, id) ==> #[trigger] same_at(kenv, kenv2, id)
    })
}

/// K-normalization simulates the evaluation of a list of operands.
proof fn lemma_all_simulates(
    m: Machine,
    fuel: nat,
    st: KModel,
    binds: Seq<Bind>,
    es: Seq<Expr>,
    i: nat,
    vs: Seq<u32>,
    ts: Seq<crate::types::Ty>,
    n0: nat,
    senv: Seq<(Seq<char>, Val)>,
    kenv: Map<u32, Val>,
    w: Store,
    acc: Seq<Val>,
)
    requires
        ready_all(st, binds, es, n0, senv, kenv),
        held(kenv, vs, acc, st, es, n0),
        vs.len() == i,
        knorm_all(st, binds, es, i, vs, ts) is Some,
        seval_all(m, senv, w, es, i, acc) is Some,
    ensures
        ({
            let (st2, b2, vs2, ts2) = knorm_all(st, binds, es, i, vs, ts)->Some_0;
            let (vals, w2) = seval_all(m, senv, w, es, i, acc)->Some_0;
            &&& all_follow(m, fuel, st, binds, es, i, kenv, w, b2, vs2, vals, w2)
            &&& begins(b2, binds)
            &&& st.vars.len() <= st2.vars.len()
            &&& st2.env == st.env
            &&& fits(st2, b2)
            &&& names_from(st2.globals, n0)
        }),
    decreases es, es.len() - i,
{
    let k0 = binds.len();
    lemma_begins_refl(binds);
    if i < es.len() {
        let e = es[i as int];
        assert(ready(st, binds, e, n0, senv, kenv));
        lemma_operand_simulates(m, fuel, st, binds, e, n0, senv, kenv, w);
        let n = knorm(st, binds, e)->Some_0;
        let (st2, b2, v) = operand(n)->Some_0;
        let (val, w1) = seval(m, senv, w, e)->Some_0;
        let (kenv2, wa) = run(m, fuel, kenv, w, b2, k0, b2.len())->Some_0;
        // the state and the values are ready for the operands that follow
        assert forall|x: int| 0 <= x < st.env.len() implies same_at(
            kenv,
            kenv2,
            (#[trigger] st.env[x]).1,
        ) by {
            let id = st.env[x].1;
            assert(id < st.vars.len());
            assert(!binder_at(e, id));
        }
        lemma_related_frame(st.env, senv, kenv, kenv2);
        assert(ready_all(st2, b2, es, n0, senv, kenv2));
        // the operands so far keep their values
        let vs1 = vs.push(v);
        let acc1 = acc.push(val);
        assert forall|j: int| 0 <= j < vs1.len() implies kenv2.dom().contains(#[trigger] vs1[j])
            && kenv2[vs1[j]] == acc1[j] && vs1[j] < st2.vars.len() && origin(
            vs1[j],
            st2.env,
            es[j],
            n0,
        ) by {
            if j < vs.len() {
                assert(vs1[j] == vs[j]);
                assert(apart(es[j], es[i as int]));
                lemma_origin_apart(vs[j], st.env, es[j], e, n0);
                assert(same_at(kenv, kenv2, vs[j]));
            }
        }
        lemma_all_simulates(m, fuel, st2, b2, es, i + 1, vs1, ts.push(n.ty), n0, senv, kenv2, w1, acc1);
        let (st3, b3, vs3, ts3) = knorm_all(st2, b2, es, i + 1, vs1, ts.push(n.ty))->Some_0;
        let (kenv3, wb) = run(m, fuel, kenv2, w1, b3, b2.len(), b3.len())->Some_0;
        lemma_begins_trans(binds, b2, b3);
        lemma_run_split(m, fuel, kenv, w, b3, k0, b2.len(), b3.len());
        lemma_run_prefix(m, fuel, kenv, w, b2, b3, k0, b2.len());
        assert forall|id: u32| id < st.vars.len() && !binder_from(es, i, id) implies #[trigger] same_at(
            kenv,
            kenv3,
            id,
        ) by {
            assert(!binder_at(es[i as int], id));
            assert(same_at(kenv, kenv2, id));
            if binder_from(es, i + 1, id) {
                let j = choose|j: int| i + 1 <= j < es.len() && binder_at(#[trigger] es[j], id);
                assert(i <= j < es.len() && binder_at(es[j], id));
            }
            assert(same_at(kenv2, kenv3, id));
        }
    }
}

proof fn lemma_tuple_simulates(
    m: Machine,
    fuel: nat,
    st: KModel,
    binds: Seq<Bind>,
    e: Expr,
    n0: nat,
    senv: Seq<(Seq<char>, Val)>,
    kenv: Map<u32, Val>,
    w: Store,
)
    requires
        e is Tuple,
        ready(st, binds, e, n0, senv, kenv),
        knorm(st, binds, e) is Some,
        seval(m, senv, w, e) is Some,
    ensures
        follows(
            m,
            fuel,
            st,
            binds,
            e,
            kenv,
            w,
            knorm(st, binds, e)->Some_0,
            seval(m, senv, w, e)->Some_0.0,
            seval(m, senv, w, e)->Some_0.1,
        ),
    decreases e, 0int,
{
    match e {
        Expr::Tuple(args) => {
            let es = args@;
            let none_ids = Seq::<u32>::empty();
            let none_vals = Seq::<Val>::empty();
            assert forall|j: int| 0 <= j < es.len() implies scope_free(#[trigger] es[j], st.env) by {
                assert forall|x: int| 0 <= x < st.env.len() implies !binder_at(
                    es[j],
                    (#[trigger] st.env[x]).1,
                ) by {
                    assert(!binder_at(e, st.env[x].1));
                }
            }
            assert(ready_all(st, binds, es, n0, senv, kenv));
            lemma_all_simulates(
                m,
                fuel,
                st,
                binds,
                es,
                0,
                none_ids,
                Seq::empty(),
                n0,
                senv,
                kenv,
                w,
                none_vals,
            );
            let (st2, b2, vs2, ts2) = knorm_all(st, binds, es, 0, none_ids, Seq::empty())->Some_0;
            let (vals, w2) = seval_all(m, senv, w, es, 0, none_vals)->Some_0;
            let (kenv2, w1) = run(m, fuel, kenv, w, b2, binds.len(), b2.len())->Some_0;
            assert(values(kenv2, vs2) is Some);
            assert(values(kenv2, vs2)->Some_0 =~= vals);
            assert forall|id: u32| id < st.vars.len() && !binder_at(e, id) implies #[trigger] same_at(
                kenv,
                kenv2,
                id,
            ) by {
                if binder_from(es, 0, id) {
                    let j = choose|j: int| 0 <= j < es.len() && binder_at(#[trigger] es[j], id);
                    assert(binder_at(e, id));
                }
            }
        },
        _ => {},
    }
}

proof fn lemma_bind_all_other(
    env: Map<u32, Val>,
    xs: Seq<u32>,
    vs: Seq<Val>,
    n: nat,
    u: u32,
)
    requires
        n <= xs.len(),
        forall|i: int| 0 <= i < n ==> #[trigger] xs[i] != u,
    ensures
        same_at(env, bind_all(env, xs, vs, n), u),
    decreases n,
{
    if n > 0 {
        lemma_bind_all_other(env, xs, vs, (n - 1) as nat, u);
        assert(xs[n - 1] != u);
    }
}

proof fn lemma_bind_all_at(env: Map<u32, Val>, xs: Seq<u32>, vs: Seq<Val>, n: nat, j: int)
    requires
        n <= xs.len(),
        0 <= j < n,
        forall|a: int, b: int| 0 <= a < xs.len() && 0 <= b < xs.len() && a != b ==> xs[a] != xs[b],
    ensures
        bind_all(env, xs, vs, n).dom().contains(xs[j]),
        bind_all(env, xs, vs, n)[xs[j]] == vs[j],
    decreases n,
{
    if j < n - 1 {
        lemma_bind_all_at(env, xs, vs, (n - 1) as nat, j);
        assert(xs[n - 1] != xs[j]);
    }
}

proof fn lemma_lettuple_simulates(
    m: Machine,
    fuel: nat,
    st: KModel,
    binds: Seq<Bind>,
    e: Expr,
    n0: nat,
    senv: Seq<(Seq<char>, Val)>,
    kenv: Map<u32, Val>,
    w: Store,
)
    requires
        e is LetTuple,
        ready(st, binds, e, n0, senv, kenv),
        knorm(st, binds, e) is Some,
        seval(m, senv, w, e) is Some,
    ensures
        follows(
            m,
            fuel,
            st,
            binds,
            e,
            kenv,
            w,
            knorm(st, binds, e)->Some_0,
            seval(m, senv, w, e)->Some_0.0,
            seval(m, senv, w, e)->Some_0.1,
        ),
    decreases e, 0int,
{
    match e {
        Expr::LetTuple { bndrs, rhs, body } => {
            let k0 = binds.len();
            let bs = bndrs@;
            let xs = ids_of(bs);
            lemma_ready_part(st, binds, e, *rhs, n0, senv, kenv);
            lemma_operand_simulates(m, fuel, st, binds, *rhs, n0, senv, kenv, w);
            let (st2, b2, v) = operand(knorm(st, binds, *rhs)->Some_0)->Some_0;
            let (tv, w1) = seval(m, senv, w, *rhs)->Some_0;
            let vs = tv->Tuple_0;
            let (kenv2, wa) = run(m, fuel, kenv, w, b2, k0, b2.len())->Some_0;
            let link = Bind::LetTuple(xs, v);
            let chain = b2.push(link);
            lemma_begins_push(b2, link);
            lemma_run_prefix(m, fuel, kenv, w, b2, chain, k0, b2.len());
            assert(chain[b2.len() as int] == link);
            let kenv3 = bind_all(kenv2, xs, vs, xs.len());
            assert(run(m, fuel, kenv, w, chain, k0, chain.len()) == Some((kenv3, w1)));
            let st3 = enter(st2, bs);
            let senv3 = senv + zip_vals(bs, vs);
            // the binders of the tuple are variables of the table
            lemma_names_enter(st2.env, bs, st2.vars.len());
            lemma_chain_below_push(b2, link, st2.vars.len());
            assert forall|a: int, b: int|
                0 <= a < xs.len() && 0 <= b < xs.len() && a != b implies xs[a] != xs[b] by {
                assert(bs[a].id != bs[b].id);
            }
            // no binder of the body is in scope
            assert forall|i: int| 0 <= i < st3.env.len() implies !binder_at(
                *body,
                (#[trigger] st3.env[i]).1,
            ) by {
                if i < st.env.len() {
                    assert(st3.env[i] == st.env[i]);
                    assert(!binder_at(e, st.env[i].1));
                } else {
                    let j = i - st.env.len();
                    assert(st3.env[i] == names_of(bs)[j]);
                    assert(!binder_at(*body, bs[j].id));
                }
            }
            // the names in scope have their values
            assert forall|i: int| 0 <= i < st3.env.len() implies (#[trigger] st3.env[i]).0
                == senv3[i].0 && kenv3.dom().contains(st3.env[i].1) && kenv3[st3.env[i].1]
                == senv3[i].1 by {
                if i < st.env.len() {
                    assert(st3.env[i] == st.env[i]);
                    assert(senv3[i] == senv[i]);
                    let id = st.env[i].1;
                    assert(!binder_at(e, id));
                    assert(id < st.vars.len());
                    assert(!binder_at(*rhs, id));
                    assert(same_at(kenv, kenv2, id));
                    assert forall|a: int| 0 <= a < xs.len() implies #[trigger] xs[a] != id by {
                        if xs[a] == id {
                            assert(bs[a].id == id);
                            assert(binder_among(bs, id));
                        }
                    }
                    lemma_bind_all_other(kenv2, xs, vs, xs.len(), id);
                } else {
                    let j = i - st.env.len();
                    assert(st3.env[i] == names_of(bs)[j]);
                    assert(senv3[i] == zip_vals(bs, vs)[j]);
                    lemma_bind_all_at(kenv2, xs, vs, xs.len(), j);
                }
            }
            assert(ready(st3, chain, *body, n0, senv3, kenv3));
            lemma_knorm_simulates(m, fuel, st3, chain, *body, n0, senv3, kenv3, w1);
            lemma_knorm_steady(st3, chain, *body, n0);
            let nb = knorm(st3, chain, *body)->Some_0;
            let (kenv_b, w_b) = run(m, fuel, kenv3, w1, nb.binds, chain.len(), nb.binds.len())->Some_0;
            lemma_run_split(m, fuel, kenv, w, nb.binds, k0, chain.len(), nb.binds.len());
            lemma_run_prefix(m, fuel, kenv, w, chain, nb.binds, k0, chain.len());
            assert forall|id: u32| id < st.vars.len() && !binder_at(e, id) implies #[trigger] same_at(
                kenv,
                kenv_b,
                id,
            ) by {
                assert(!binder_at(*rhs, id));
                assert(same_at(kenv, kenv2, id));
                assert forall|a: int| 0 <= a < xs.len() implies #[trigger] xs[a] != id by {
                    if xs[a] == id {
                        assert(bs[a].id == id);
                        assert(binder_among(bs, id));
                    }
                }
                lemma_bind_all_other(kenv2, xs, vs, xs.len(), id);
                assert(!binder_at(*body, id));
                assert(same_at(kenv3, kenv_b, id));
            }
        },
        _ => {},
    }
}

/// K-normalization preserves what a program evaluates to: where a plain
/// program, whose binders are variables of the table and differ from one
/// another, evaluates to a value, its K-normal form evaluates to the same
/// value and leaves the same store; and so does the A-normal form of its
/// K-normal form.
pub proof fn lemma_knormal_preserves(
    m: Machine,
    fuel: nat,
    vars: Seq<VarModel>,
    tys: Seq<Ty>,
    e: Expr,
    w: Store,
)
    requires
        plain_expr(e),
        distinct(e),
        binders_below(e, vars.len()),
        knormal_spec(vars, tys, e) is Some,
        seval(m, Seq::empty(), w, e) is Some,
    ensures
        eval(m, fuel, Map::empty(), w, knormal_spec(vars, tys, e)->Some_0.2) == seval(
            m,
            Seq::empty(),
            w,
            e,
        ),
        eval(m, fuel, Map::empty(), w, anf(knormal_spec(vars, tys, e)->Some_0.2)) == seval(
            m,
            Seq::empty(),
            w,
            e,
        ),
{
    let st = KModel { vars, tys, env: Seq::empty(), globals: Seq::empty() };
    let none = Seq::<Bind>::empty();
    let senv = Seq::<(Seq<char>, Val)>::empty();
    let kenv = Map::<u32, Val>::empty();
    let n = knorm(st, none, e)->Some_0;
    lemma_knorm_simulates(m, fuel, st, none, e, vars.len(), senv, kenv, w);
    lemma_assemble_eval(m, fuel, kenv, w, n.binds, n.last);
    lemma_knormal_is_anf(vars, tys, e);
}

} // verus!

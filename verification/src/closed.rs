//! The variables of the K-normal form are bound before they are used: a
//! variable that the K-normal form of a program uses without binding it is
//! a built-in or an external variable, made for a name that no binder of
//! the program binds.

use vstd::prelude::*;
use crate::knormal::{
    Bind, KE, KModel, Normed, assemble, enter, enter_one, exit, ids_of, knorm, knorm_all,
    knormal_spec, lookup_id, names_of, operand, resolve_name, wrap,
};
use crate::semantics::kfree;
use crate::simulation::{
    begins, in_env, lemma_begins_push, lemma_begins_refl, lemma_begins_trans, lemma_lookup_in,
};
use crate::syntax::{Binder, Expr};
use crate::types::Ty;
use crate::var::VarModel;

verus! {

/// Whether `id` is free in the right-hand side of the link `b`.
pub open spec fn link_free(id: u32, b: Bind) -> bool {
    match b {
        Bind::Let(x, rhs) => kfree(id, rhs),
        Bind::LetRec(f, params, rhs) => id != f && !params.contains(id) && kfree(id, rhs),
        Bind::LetTuple(xs, y) => id == y,
    }
}

/// Whether the link `b` binds `id`.
pub open spec fn link_binds(id: u32, b: Bind) -> bool {
    match b {
        Bind::Let(x, rhs) => id == x,
        Bind::LetRec(f, params, rhs) => id == f,
        Bind::LetTuple(xs, y) => xs.contains(id),
    }
}

/// Whether one of the links `binds[from..to]` binds `id`.
pub open spec fn chain_binds(id: u32, binds: Seq<Bind>, from: nat, to: nat) -> bool
    decreases to - from,
{
    if from >= to || to > binds.len() {
        false
    } else {
        chain_binds(id, binds, from, (to - 1) as nat) || link_binds(id, binds[to - 1])
    }
}

/// Whether `id` is free in the links `binds[from..to]`: used in one of them
/// that no link before it binds `id`.
pub open spec fn chain_free(id: u32, binds: Seq<Bind>, from: nat, to: nat) -> bool
    decreases to - from,
{
    if from >= to || to > binds.len() {
        false
    } else {
        chain_free(id, binds, from, (to - 1) as nat) || (!chain_binds(
            id,
            binds,
            from,
            (to - 1) as nat,
        ) && link_free(id, binds[to - 1]))
    }
}

/// Whether `id` is free in the links `binds[from..to]` around `k`.
pub open spec fn free_with(id: u32, binds: Seq<Bind>, from: nat, to: nat, k: KE) -> bool {
    chain_free(id, binds, from, to) || (!chain_binds(id, binds, from, to) && kfree(id, k))
}

proof fn lemma_chain_prefix(id: u32, short: Seq<Bind>, long: Seq<Bind>, from: nat, to: nat)
    requires
        begins(long, short),
        to <= short.len(),
    ensures
        chain_binds(id, short, from, to) == chain_binds(id, long, from, to),
        chain_free(id, short, from, to) == chain_free(id, long, from, to),
    decreases to - from,
{
    if from < to {
        lemma_chain_prefix(id, short, long, from, (to - 1) as nat);
        assert(short[to - 1] == long.subrange(0, short.len() as int)[to - 1]);
    }
}

proof fn lemma_chain_split(id: u32, binds: Seq<Bind>, from: nat, mid: nat, to: nat)
    requires
        from <= mid <= to <= binds.len(),
    ensures
        chain_binds(id, binds, from, to) == (chain_binds(id, binds, from, mid) || chain_binds(
            id,
            binds,
            mid,
            to,
        )),
        chain_free(id, binds, from, to) == (chain_free(id, binds, from, mid) || (!chain_binds(
            id,
            binds,
            from,
            mid,
        ) && chain_free(id, binds, mid, to))),
    decreases to - mid,
{
    if mid < to {
        lemma_chain_split(id, binds, from, mid, (to - 1) as nat);
    }
}

proof fn lemma_free_split(id: u32, binds: Seq<Bind>, from: nat, mid: nat, to: nat, k: KE)
    requires
        from <= mid <= to <= binds.len(),
    ensures
        free_with(id, binds, from, to, k) == (chain_free(id, binds, from, mid) || (!chain_binds(
            id,
            binds,
            from,
            mid,
        ) && free_with(id, binds, mid, to, k))),
{
    lemma_chain_split(id, binds, from, mid, to);
}

proof fn lemma_wrap_free(id: u32, b: Bind, k: KE)
    ensures
        kfree(id, wrap(b, k)) == (link_free(id, b) || (!link_binds(id, b) && kfree(id, k))),
{
}

/// The free variables of a chain around an expression.
pub proof fn lemma_assemble_free(id: u32, binds: Seq<Bind>, k: KE)
    ensures
        kfree(id, assemble(binds, k)) == free_with(id, binds, 0, binds.len(), k),
    decreases binds.len(),
{
    if binds.len() > 0 {
        let front = binds.drop_last();
        let b = binds.last();
        lemma_assemble_free(id, front, wrap(b, k));
        lemma_wrap_free(id, b, k);
        assert(begins(binds, front)) by {
            assert(binds.subrange(0, front.len() as int) =~= front);
        }
        lemma_chain_prefix(id, front, binds, 0, front.len());
    }
}

/// `long` begins with `short`.
pub open spec fn names_grow(short: Seq<(Seq<char>, u32)>, long: Seq<(Seq<char>, u32)>) -> bool {
    short.len() <= long.len() && long.subrange(0, short.len() as int) == short
}

/// `long` begins with `short`.
pub open spec fn vars_grow(short: Seq<VarModel>, long: Seq<VarModel>) -> bool {
    short.len() <= long.len() && long.subrange(0, short.len() as int) == short
}

/// Whether the variable `id` of the table is the built-in or the external
/// variable of the name `name`.
pub open spec fn outside_named(vars: Seq<VarModel>, name: Seq<char>, id: u32) -> bool {
    id < vars.len() && (vars[id as int] == (VarModel::Builtin { name, tag: (id + 1) as u32 })
        || vars[id as int] == (VarModel::External { name, tag: (id + 1) as u32 }))
}

/// Whether each of the names that no binder binds has a built-in or an
/// external variable of the table.
pub open spec fn globals_ok(st: KModel) -> bool {
    forall|i: int|
        0 <= i < st.globals.len() ==> outside_named(
            st.vars,
            (#[trigger] st.globals[i]).0,
            st.globals[i].1,
        )
}

/// What normalization keeps: the table and the names that no binder binds
/// only grow, and the names in scope come back as they were.
pub open spec fn kept(st: KModel, st2: KModel) -> bool {
    &&& vars_grow(st.vars, st2.vars)
    &&& names_grow(st.globals, st2.globals)
    &&& st2.env == st.env
    &&& globals_ok(st) ==> globals_ok(st2)
}

proof fn lemma_kept_refl(st: KModel)
    ensures
        kept(st, st),
{
    assert(st.vars.subrange(0, st.vars.len() as int) =~= st.vars);
    assert(st.globals.subrange(0, st.globals.len() as int) =~= st.globals);
}

proof fn lemma_kept_trans(a: KModel, b: KModel, c: KModel)
    requires
        kept(a, b),
        b.vars.len() <= c.vars.len(),
        c.vars.subrange(0, b.vars.len() as int) == b.vars,
        names_grow(b.globals, c.globals),
        globals_ok(b) ==> globals_ok(c),
    ensures
        kept(a, KModel { env: a.env, ..c }),
        vars_grow(a.vars, c.vars),
        names_grow(a.globals, c.globals),
        globals_ok(a) ==> globals_ok(c),
{
    assert(c.vars.subrange(0, a.vars.len() as int) =~= a.vars) by {
        assert forall|i: int| 0 <= i < a.vars.len() implies c.vars.subrange(
            0,
            a.vars.len() as int,
        )[i] == a.vars[i] by {
            assert(c.vars[i] == c.vars.subrange(0, b.vars.len() as int)[i]);
            assert(b.vars[i] == b.vars.subrange(0, a.vars.len() as int)[i]);
        }
    }
    assert(c.globals.subrange(0, a.globals.len() as int) =~= a.globals) by {
        assert forall|i: int| 0 <= i < a.globals.len() implies c.globals.subrange(
            0,
            a.globals.len() as int,
        )[i] == a.globals[i] by {
            assert(c.globals[i] == c.globals.subrange(0, b.globals.len() as int)[i]);
            assert(b.globals[i] == b.globals.subrange(0, a.globals.len() as int)[i]);
        }
    }
    let c2 = KModel { env: a.env, ..c };
    if globals_ok(a) {
        assert forall|i: int| 0 <= i < c2.globals.len() implies outside_named(
            c2.vars,
            (#[trigger] c2.globals[i]).0,
            c2.globals[i].1,
        ) by {
            assert(outside_named(c.vars, c.globals[i].0, c.globals[i].1));
        }
    }
}

proof fn lemma_in_grown(short: Seq<(Seq<char>, u32)>, long: Seq<(Seq<char>, u32)>, id: u32)
    requires
        names_grow(short, long),
        in_env(short, id),
    ensures
        in_env(long, id),
{
    let i = choose|i: int| 0 <= i < short.len() && (#[trigger] short[i]).1 == id;
    assert(long[i] == long.subrange(0, short.len() as int)[i]);
}

/// Whether `id` is in scope, or stands for a name that no binder binds.
pub open spec fn known(id: u32, env: Seq<(Seq<char>, u32)>, globals: Seq<(Seq<char>, u32)>) -> bool {
    in_env(env, id) || in_env(globals, id)
}

proof fn lemma_fresh_kept(st: KModel, made: KModel)
    requires
        made.vars.len() == st.vars.len() + 1,
        made.vars.subrange(0, st.vars.len() as int) == st.vars,
        made.globals == st.globals,
        made.env == st.env,
    ensures
        kept(st, made),
{
    assert(made.globals.subrange(0, st.globals.len() as int) =~= st.globals);
    if globals_ok(st) {
        assert forall|i: int| 0 <= i < made.globals.len() implies outside_named(
            made.vars,
            (#[trigger] made.globals[i]).0,
            made.globals[i].1,
        ) by {
            let id = st.globals[i].1;
            assert(outside_named(st.vars, st.globals[i].0, id));
            assert(made.vars[id as int] == made.vars.subrange(0, st.vars.len() as int)[id as int]);
        }
    }
}

proof fn lemma_resolve_closed(st: KModel, name: Seq<char>)
    requires
        resolve_name(st, name) is Some,
    ensures
        ({
            let (st2, id) = resolve_name(st, name)->Some_0;
            kept(st, st2) && known(id, st.env, st2.globals)
        }),
{
    let (st2, id) = resolve_name(st, name)->Some_0;
    lemma_kept_refl(st);
    if lookup_id(st.env, name) is Some {
        lemma_lookup_in(st.env, name);
    } else if lookup_id(st.globals, name) is Some {
        lemma_lookup_in(st.globals, name);
    } else {
        let n = st.vars.len() as int;
        assert(st2.vars.subrange(0, n) =~= st.vars);
        assert(st2.globals.subrange(0, st.globals.len() as int) =~= st.globals);
        assert(st2.globals[st.globals.len() as int].1 == id);
        if globals_ok(st) {
            assert forall|i: int| 0 <= i < st2.globals.len() implies outside_named(
                st2.vars,
                (#[trigger] st2.globals[i]).0,
                st2.globals[i].1,
            ) by {
                if i < st.globals.len() {
                    assert(st2.globals[i] == st.globals[i]);
                    let g = st.globals[i].1;
                    assert(outside_named(st.vars, st.globals[i].0, g));
                    assert(st2.vars[g as int] == st2.vars.subrange(0, n)[g as int]);
                }
            }
        }
    }
}

/// What holds of an operand: the state is kept, the chain has grown, and
/// what is free in the chain, or is the operand without being bound in the
/// chain, is known.
pub open spec fn operand_closed(
    id: u32,
    st: KModel,
    k0: nat,
    st2: KModel,
    b2: Seq<Bind>,
    v: u32,
) -> bool {
    &&& kept(st, st2)
    &&& k0 <= b2.len()
    &&& chain_free(id, b2, k0, b2.len()) ==> known(id, st.env, st2.globals)
    &&& !chain_binds(id, b2, k0, b2.len()) && id == v ==> known(id, st.env, st2.globals)
}

proof fn lemma_operand_closed(id: u32, st: KModel, binds: Seq<Bind>, n: Normed)
    requires
        kept(st, n.st),
        begins(n.binds, binds),
        free_with(id, n.binds, binds.len(), n.binds.len(), n.last) ==> known(
            id,
            st.env,
            n.st.globals,
        ),
        operand(n) is Some,
    ensures
        ({
            let (st2, b2, v) = operand(n)->Some_0;
            operand_closed(id, st, binds.len(), st2, b2, v) && begins(b2, binds)
        }),
{
    let (st2, b2, v) = operand(n)->Some_0;
    match n.last {
        KE::Var(x) => {},
        _ => {
            lemma_begins_push(n.binds, Bind::Let(v, n.last));
            lemma_begins_trans(binds, n.binds, b2);
            lemma_chain_prefix(id, n.binds, b2, binds.len(), n.binds.len());
            assert(b2[n.binds.len() as int] == Bind::Let(v, n.last));
            assert(st2.vars.subrange(0, n.st.vars.len() as int) =~= n.st.vars);
            lemma_fresh_kept(n.st, st2);
            lemma_kept_trans(st, n.st, st2);
        },
    }
}

proof fn lemma_var_closed(id: u32, st: KModel, binds: Seq<Bind>, e: Expr)
    requires
        e is Var,
        knorm(st, binds, e) is Some,
    ensures
        ({
            let n = knorm(st, binds, e)->Some_0;
            &&& kept(st, n.st)
            &&& begins(n.binds, binds)
            &&& free_with(id, n.binds, binds.len(), n.binds.len(), n.last) ==> known(
                id,
                st.env,
                n.st.globals,
            )
        }),
    decreases e, 0int,
{
    let none = Seq::<Bind>::empty();
    let k0 = binds.len();
    let n = knorm(st, binds, e)->Some_0;
    lemma_kept_refl(st);
    lemma_begins_refl(binds);
    match e {
        Expr::Var(name) => {
            lemma_resolve_closed(st, name@);
        },
        _ => {},
    }
}

proof fn lemma_unary_closed(id: u32, st: KModel, binds: Seq<Bind>, e: Expr)
    requires
        e is Not || e is Neg || e is FNeg,
        knorm(st, binds, e) is Some,
    ensures
        ({
            let n = knorm(st, binds, e)->Some_0;
            &&& kept(st, n.st)
            &&& begins(n.binds, binds)
            &&& free_with(id, n.binds, binds.len(), n.binds.len(), n.last) ==> known(
                id,
                st.env,
                n.st.globals,
            )
        }),
    decreases e, 0int,
{
    let none = Seq::<Bind>::empty();
    let k0 = binds.len();
    let n = knorm(st, binds, e)->Some_0;
    lemma_kept_refl(st);
    lemma_begins_refl(binds);
    match e {
        Expr::Not(a) | Expr::Neg(a) | Expr::FNeg(a) => {
            let n1 = knorm(st, binds, *a)->Some_0;
            lemma_knorm_closed(id, st, binds, *a);
            lemma_operand_closed(id, st, binds, n1);
        },
        _ => {},
    }
}

proof fn lemma_binary_closed(id: u32, st: KModel, binds: Seq<Bind>, e: Expr)
    requires
        e is Add || e is Sub || e is FAdd || e is FSub || e is FMul || e is FDiv || e is Eq
            || e is Le || e is Array || e is Get,
        knorm(st, binds, e) is Some,
    ensures
        ({
            let n = knorm(st, binds, e)->Some_0;
            &&& kept(st, n.st)
            &&& begins(n.binds, binds)
            &&& free_with(id, n.binds, binds.len(), n.binds.len(), n.last) ==> known(
                id,
                st.env,
                n.st.globals,
            )
        }),
    decreases e, 0int,
{
    let none = Seq::<Bind>::empty();
    let k0 = binds.len();
    let n = knorm(st, binds, e)->Some_0;
    lemma_kept_refl(st);
    lemma_begins_refl(binds);
    match e {
        Expr::Add(a, b) | Expr::Sub(a, b) | Expr::FAdd(a, b) | Expr::FSub(a, b) | Expr::FMul(
            a,
            b,
        ) | Expr::FDiv(a, b) | Expr::Eq(a, b) | Expr::Le(a, b) | Expr::Array(a, b) | Expr::Get(
            a,
            b,
        ) => {
            let n1 = knorm(st, binds, *a)->Some_0;
            lemma_knorm_closed(id, st, binds, *a);
            lemma_operand_closed(id, st, binds, n1);
            let (st2, b2, v1) = operand(n1)->Some_0;
            let n2 = knorm(st2, b2, *b)->Some_0;
            lemma_knorm_closed(id, st2, b2, *b);
            lemma_operand_closed(id, st2, b2, n2);
            let (st4, b4, v2) = operand(n2)->Some_0;
            lemma_kept_trans(st, st2, st4);
            lemma_begins_trans(binds, b2, b4);
            lemma_chain_split(id, b4, k0, b2.len(), b4.len());
            lemma_chain_prefix(id, b2, b4, k0, b2.len());
            if in_env(st2.globals, id) {
                lemma_in_grown(st2.globals, st4.globals, id);
            }
        },
        _ => {},
    }
}

proof fn lemma_put_closed(id: u32, st: KModel, binds: Seq<Bind>, e: Expr)
    requires
        e is Put,
        knorm(st, binds, e) is Some,
    ensures
        ({
            let n = knorm(st, binds, e)->Some_0;
            &&& kept(st, n.st)
            &&& begins(n.binds, binds)
            &&& free_with(id, n.binds, binds.len(), n.binds.len(), n.last) ==> known(
                id,
                st.env,
                n.st.globals,
            )
        }),
    decreases e, 0int,
{
    let none = Seq::<Bind>::empty();
    let k0 = binds.len();
    let n = knorm(st, binds, e)->Some_0;
    lemma_kept_refl(st);
    lemma_begins_refl(binds);
    match e {
        Expr::Put(a, b, c) => {
            let n1 = knorm(st, binds, *a)->Some_0;
            lemma_knorm_closed(id, st, binds, *a);
            lemma_operand_closed(id, st, binds, n1);
            let (st2, b2, v1) = operand(n1)->Some_0;
            let n2 = knorm(st2, b2, *b)->Some_0;
            lemma_knorm_closed(id, st2, b2, *b);
            lemma_operand_closed(id, st2, b2, n2);
            let (st4, b4, v2) = operand(n2)->Some_0;
            lemma_kept_trans(st, st2, st4);
            lemma_begins_trans(binds, b2, b4);
            lemma_chain_split(id, b4, k0, b2.len(), b4.len());
            lemma_chain_prefix(id, b2, b4, k0, b2.len());
            let n3 = knorm(st4, b4, *c)->Some_0;
            lemma_knorm_closed(id, st4, b4, *c);
            lemma_operand_closed(id, st4, b4, n3);
            let (st6, b6, v3) = operand(n3)->Some_0;
            lemma_kept_trans(st, st4, st6);
            lemma_begins_trans(binds, b4, b6);
            lemma_chain_split(id, b6, k0, b4.len(), b6.len());
            lemma_chain_prefix(id, b4, b6, k0, b4.len());
            if in_env(st2.globals, id) {
                lemma_in_grown(st2.globals, st4.globals, id);
            }
            if in_env(st4.globals, id) {
                lemma_in_grown(st4.globals, st6.globals, id);
            }
        },
        _ => {},
    }
}

proof fn lemma_if_closed(id: u32, st: KModel, binds: Seq<Bind>, e: Expr)
    requires
        e is If,
        knorm(st, binds, e) is Some,
    ensures
        ({
            let n = knorm(st, binds, e)->Some_0;
            &&& kept(st, n.st)
            &&& begins(n.binds, binds)
            &&& free_with(id, n.binds, binds.len(), n.binds.len(), n.last) ==> known(
                id,
                st.env,
                n.st.globals,
            )
        }),
    decreases e, 0int,
{
    let none = Seq::<Bind>::empty();
    let k0 = binds.len();
    let n = knorm(st, binds, e)->Some_0;
    lemma_kept_refl(st);
    lemma_begins_refl(binds);
    match e {
        Expr::If(c, a, b) => {
            let n1 = knorm(st, binds, *c)->Some_0;
            lemma_knorm_closed(id, st, binds, *c);
            lemma_operand_closed(id, st, binds, n1);
            let (st2, b2, v) = operand(n1)->Some_0;
            let na = knorm(st2, none, *a)->Some_0;
            lemma_knorm_closed(id, st2, none, *a);
            lemma_assemble_free(id, na.binds, na.last);
            let nb = knorm(na.st, none, *b)->Some_0;
            lemma_knorm_closed(id, na.st, none, *b);
            lemma_assemble_free(id, nb.binds, nb.last);
            lemma_kept_trans(st, st2, na.st);
            lemma_kept_trans(st, KModel { env: st.env, ..na.st }, nb.st);
            if in_env(st2.globals, id) {
                lemma_in_grown(st2.globals, na.st.globals, id);
            }
            if in_env(na.st.globals, id) {
                lemma_in_grown(na.st.globals, nb.st.globals, id);
            }
        },
        _ => {},
    }
}

proof fn lemma_let_closed(id: u32, st: KModel, binds: Seq<Bind>, e: Expr)
    requires
        e is Let,
        knorm(st, binds, e) is Some,
    ensures
        ({
            let n = knorm(st, binds, e)->Some_0;
            &&& kept(st, n.st)
            &&& begins(n.binds, binds)
            &&& free_with(id, n.binds, binds.len(), n.binds.len(), n.last) ==> known(
                id,
                st.env,
                n.st.globals,
            )
        }),
    decreases e, 0int,
{
    let none = Seq::<Bind>::empty();
    let k0 = binds.len();
    let n = knorm(st, binds, e)->Some_0;
    lemma_kept_refl(st);
    lemma_begins_refl(binds);
    match e {
        Expr::Let { bndr, rhs, body } => {
            let nr = knorm(st, binds, *rhs)->Some_0;
            lemma_knorm_closed(id, st, binds, *rhs);
            let link = Bind::Let(bndr.id, nr.last);
            let chain = nr.binds.push(link);
            lemma_begins_push(nr.binds, link);
            lemma_begins_trans(binds, nr.binds, chain);
            let st1 = enter_one(nr.st, bndr);
            let nb = knorm(st1, chain, *body)->Some_0;
            lemma_knorm_closed(id, st1, chain, *body);
            lemma_begins_trans(binds, chain, nb.binds);
            lemma_kept_trans(st, nr.st, nb.st);
            lemma_free_split(id, nb.binds, k0, chain.len(), nb.binds.len(), nb.last);
            lemma_chain_prefix(id, chain, nb.binds, k0, chain.len());
            lemma_chain_prefix(id, nr.binds, chain, k0, nr.binds.len());
            assert(chain[nr.binds.len() as int] == link);
            if in_env(nr.st.globals, id) {
                lemma_in_grown(nr.st.globals, nb.st.globals, id);
            }
            if in_env(st1.env, id) && id != bndr.id {
                let i = choose|i: int| 0 <= i < st1.env.len() && (#[trigger] st1.env[i]).1 == id;
                assert(st1.env[i] == st.env[i]);
            }
        },
        _ => {},
    }
}

proof fn lemma_letrec_closed(id: u32, st: KModel, binds: Seq<Bind>, e: Expr)
    requires
        e is LetRec,
        knorm(st, binds, e) is Some,
    ensures
        ({
            let n = knorm(st, binds, e)->Some_0;
            &&& kept(st, n.st)
            &&& begins(n.binds, binds)
            &&& free_with(id, n.binds, binds.len(), n.binds.len(), n.last) ==> known(
                id,
                st.env,
                n.st.globals,
            )
        }),
    decreases e, 0int,
{
    let none = Seq::<Bind>::empty();
    let k0 = binds.len();
    let n = knorm(st, binds, e)->Some_0;
    lemma_kept_refl(st);
    lemma_begins_refl(binds);
    match e {
        Expr::LetRec { bndr, args, rhs, body } => {
            let f = bndr.id;
            let stf = enter_one(st, bndr);
            let st1 = enter(stf, args@);
            let nr = knorm(st1, none, *rhs)->Some_0;
            lemma_knorm_closed(id, st1, none, *rhs);
            let er = assemble(nr.binds, nr.last);
            lemma_assemble_free(id, nr.binds, nr.last);
            let link = Bind::LetRec(f, ids_of(args@), er);
            let chain = binds.push(link);
            lemma_begins_push(binds, link);
            let st2 = exit(nr.st, stf.env);
            let nb = knorm(st2, chain, *body)->Some_0;
            lemma_knorm_closed(id, st2, chain, *body);
            lemma_begins_trans(binds, chain, nb.binds);
            lemma_kept_trans(st, KModel { env: st.env, ..nr.st }, nb.st);
            lemma_free_split(id, nb.binds, k0, chain.len(), nb.binds.len(), nb.last);
            lemma_chain_prefix(id, chain, nb.binds, k0, chain.len());
            assert(chain[k0 as int] == link);
            if in_env(nr.st.globals, id) {
                lemma_in_grown(nr.st.globals, nb.st.globals, id);
            }
            if in_env(st1.env, id) && id != f && !ids_of(args@).contains(id) {
                let i = choose|i: int| 0 <= i < st1.env.len() && (#[trigger] st1.env[i]).1 == id;
                if i < st.env.len() {
                    assert(st1.env[i] == st.env[i]);
                } else if i == st.env.len() {
                    assert(st1.env[i] == stf.env[i]);
                    assert(stf.env[i] == (bndr.name@, f));
                } else {
                    let j = i - stf.env.len();
                    assert(st1.env[i] == names_of(args@)[j]);
                    assert(ids_of(args@)[j] == id);
                }
                assert(in_env(st.env, id));
            }
            if in_env(stf.env, id) && id != f {
                let i = choose|i: int| 0 <= i < stf.env.len() && (#[trigger] stf.env[i]).1 == id;
                if i < st.env.len() {
                    assert(stf.env[i] == st.env[i]);
                } else {
                    assert(stf.env[i] == (bndr.name@, f));
                }
                assert(in_env(st.env, id));
            }
            assert(globals_ok(st) == globals_ok(st1));
            assert(globals_ok(nr.st) == globals_ok(st2));
            assert(!chain_binds(id, chain, k0, k0));
            assert(!chain_free(id, chain, k0, k0));
            assert(chain_binds(id, chain, k0, chain.len()) == link_binds(id, link));
            assert(chain_free(id, chain, k0, chain.len()) == link_free(id, link));
        },
        _ => {},
    }
}

proof fn lemma_app_closed(id: u32, st: KModel, binds: Seq<Bind>, e: Expr)
    requires
        e is App,
        knorm(st, binds, e) is Some,
    ensures
        ({
            let n = knorm(st, binds, e)->Some_0;
            &&& kept(st, n.st)
            &&& begins(n.binds, binds)
            &&& free_with(id, n.binds, binds.len(), n.binds.len(), n.last) ==> known(
                id,
                st.env,
                n.st.globals,
            )
        }),
    decreases e, 0int,
{
    let none = Seq::<Bind>::empty();
    let k0 = binds.len();
    let n = knorm(st, binds, e)->Some_0;
    lemma_kept_refl(st);
    lemma_begins_refl(binds);
    match e {
        Expr::App { fun, args } => {
            let nf = knorm(st, binds, *fun)->Some_0;
            lemma_knorm_closed(id, st, binds, *fun);
            lemma_operand_closed(id, st, binds, nf);
            let (st2, b2, vf) = operand(nf)->Some_0;
            lemma_knorm_all_closed(id, st2, b2, args@, 0, Seq::empty(), Seq::empty());
            let (st3, b3, vs, ts) = knorm_all(st2, b2, args@, 0, Seq::empty(), Seq::empty())->Some_0;
            lemma_kept_trans(st, st2, st3);
            lemma_begins_trans(binds, b2, b3);
            lemma_chain_split(id, b3, k0, b2.len(), b3.len());
            lemma_chain_prefix(id, b2, b3, k0, b2.len());
            if in_env(st2.globals, id) {
                lemma_in_grown(st2.globals, st3.globals, id);
            }
            if vs.contains(id) {
                let j = choose|j: int| 0 <= j < vs.len() && vs[j] == id;
                assert(vs[j] == id);
            }
        },
        _ => {},
    }
}

proof fn lemma_tuple_closed(id: u32, st: KModel, binds: Seq<Bind>, e: Expr)
    requires
        e is Tuple,
        knorm(st, binds, e) is Some,
    ensures
        ({
            let n = knorm(st, binds, e)->Some_0;
            &&& kept(st, n.st)
            &&& begins(n.binds, binds)
            &&& free_with(id, n.binds, binds.len(), n.binds.len(), n.last) ==> known(
                id,
                st.env,
                n.st.globals,
            )
        }),
    decreases e, 0int,
{
    let none = Seq::<Bind>::empty();
    let k0 = binds.len();
    let n = knorm(st, binds, e)->Some_0;
    lemma_kept_refl(st);
    lemma_begins_refl(binds);
    match e {
        Expr::Tuple(args) => {
            lemma_knorm_all_closed(id, st, binds, args@, 0, Seq::empty(), Seq::empty());
            let (st3, b3, vs, ts) = knorm_all(st, binds, args@, 0, Seq::empty(), Seq::empty())->Some_0;
            if vs.contains(id) {
                let j = choose|j: int| 0 <= j < vs.len() && vs[j] == id;
                assert(vs[j] == id);
            }
        },
        _ => {},
    }
}

proof fn lemma_lettuple_closed(id: u32, st: KModel, binds: Seq<Bind>, e: Expr)
    requires
        e is LetTuple,
        knorm(st, binds, e) is Some,
    ensures
        ({
            let n = knorm(st, binds, e)->Some_0;
            &&& kept(st, n.st)
            &&& begins(n.binds, binds)
            &&& free_with(id, n.binds, binds.len(), n.binds.len(), n.last) ==> known(
                id,
                st.env,
                n.st.globals,
            )
        }),
    decreases e, 0int,
{
    let none = Seq::<Bind>::empty();
    let k0 = binds.len();
    let n = knorm(st, binds, e)->Some_0;
    lemma_kept_refl(st);
    lemma_begins_refl(binds);
    match e {
        Expr::LetTuple { bndrs, rhs, body } => {
            let nr = knorm(st, binds, *rhs)->Some_0;
            lemma_knorm_closed(id, st, binds, *rhs);
            lemma_operand_closed(id, st, binds, nr);
            let (st2, b2, v) = operand(nr)->Some_0;
            let xs = ids_of(bndrs@);
            let link = Bind::LetTuple(xs, v);
            let chain = b2.push(link);
            lemma_begins_push(b2, link);
            lemma_begins_trans(binds, b2, chain);
            let st3 = enter(st2, bndrs@);
            let nb = knorm(st3, chain, *body)->Some_0;
            lemma_knorm_closed(id, st3, chain, *body);
            lemma_begins_trans(binds, chain, nb.binds);
            lemma_kept_trans(st, st2, nb.st);
            lemma_free_split(id, nb.binds, k0, chain.len(), nb.binds.len(), nb.last);
            lemma_chain_prefix(id, chain, nb.binds, k0, chain.len());
            lemma_chain_prefix(id, b2, chain, k0, b2.len());
            assert(chain[b2.len() as int] == link);
            if in_env(st2.globals, id) {
                lemma_in_grown(st2.globals, nb.st.globals, id);
            }
            if in_env(st3.env, id) && !xs.contains(id) {
                let i = choose|i: int| 0 <= i < st3.env.len() && (#[trigger] st3.env[i]).1 == id;
                if i < st.env.len() {
                    assert(st3.env[i] == st.env[i]);
                } else {
                    let j = i - st.env.len();
                    assert(st3.env[i] == names_of(bndrs@)[j]);
                    assert(xs[j] == id);
                }
            }
        },
        _ => {},
    }
}

/// What is free in the K-normal form of `e` is in scope, or stands for a
/// name that no binder binds.
pub proof fn lemma_knorm_closed(id: u32, st: KModel, binds: Seq<Bind>, e: Expr)
    requires
        knorm(st, binds, e) is Some,
    ensures
        ({
            let n = knorm(st, binds, e)->Some_0;
            &&& kept(st, n.st)
            &&& begins(n.binds, binds)
            &&& free_with(id, n.binds, binds.len(), n.binds.len(), n.last) ==> known(
                id,
                st.env,
                n.st.globals,
            )
        }),
    decreases e, 1int,
{
    lemma_kept_refl(st);
    lemma_begins_refl(binds);
    match e {
        Expr::Var(_) => {
            lemma_var_closed(id, st, binds, e);
        },
        Expr::Not(_) | Expr::Neg(_) | Expr::FNeg(_) => {
            lemma_unary_closed(id, st, binds, e);
        },
        Expr::Add(_, _) | Expr::Sub(_, _) | Expr::FAdd(_, _) | Expr::FSub(_, _) | Expr::FMul(
            _,
            _,
        ) | Expr::FDiv(_, _) | Expr::Eq(_, _) | Expr::Le(_, _) | Expr::Array(_, _) | Expr::Get(
            _,
            _,
        ) => {
            lemma_binary_closed(id, st, binds, e);
        },
        Expr::Put(_, _, _) => {
            lemma_put_closed(id, st, binds, e);
        },
        Expr::If(_, _, _) => {
            lemma_if_closed(id, st, binds, e);
        },
        Expr::Let { .. } => {
            lemma_let_closed(id, st, binds, e);
        },
        Expr::LetRec { .. } => {
            lemma_letrec_closed(id, st, binds, e);
        },
        Expr::App { .. } => {
            lemma_app_closed(id, st, binds, e);
        },
        Expr::Tuple(_) => {
            lemma_tuple_closed(id, st, binds, e);
        },
        Expr::LetTuple { .. } => {
            lemma_lettuple_closed(id, st, binds, e);
        },
        _ => {},
    }
}

proof fn lemma_knorm_all_closed(
    id: u32,
    st: KModel,
    binds: Seq<Bind>,
    es: Seq<Expr>,
    i: nat,
    vs: Seq<u32>,
    ts: Seq<Ty>,
)
    requires
        knorm_all(st, binds, es, i, vs, ts) is Some,
    ensures
        ({
            let (st2, b2, vs2, ts2) = knorm_all(st, binds, es, i, vs, ts)->Some_0;
            &&& kept(st, st2)
            &&& begins(b2, binds)
            &&& vs.len() <= vs2.len()
            &&& forall|j: int| 0 <= j < vs.len() ==> vs2[j] == vs[j]
            &&& chain_free(id, b2, binds.len(), b2.len()) ==> known(id, st.env, st2.globals)
            &&& forall|j: int|
                vs.len() <= j < vs2.len() && vs2[j] == id && !chain_binds(
                    id,
                    b2,
                    binds.len(),
                    b2.len(),
                ) ==> known(id, st.env, st2.globals)
        }),
    decreases es, es.len() - i,
{
    let k0 = binds.len();
    lemma_kept_refl(st);
    lemma_begins_refl(binds);
    if i < es.len() {
        let n = knorm(st, binds, es[i as int])->Some_0;
        lemma_knorm_closed(id, st, binds, es[i as int]);
        lemma_operand_closed(id, st, binds, n);
        let (st2, b2, v) = operand(n)->Some_0;
        lemma_knorm_all_closed(id, st2, b2, es, i + 1, vs.push(v), ts.push(n.ty));
        let (st3, b3, vs3, ts3) = knorm_all(st2, b2, es, i + 1, vs.push(v), ts.push(n.ty))->Some_0;
        lemma_kept_trans(st, st2, st3);
        lemma_begins_trans(binds, b2, b3);
        lemma_chain_split(id, b3, k0, b2.len(), b3.len());
        lemma_chain_prefix(id, b2, b3, k0, b2.len());
        if in_env(st2.globals, id) {
            lemma_in_grown(st2.globals, st3.globals, id);
        }
        assert forall|j: int| 0 <= j < vs.len() implies vs3[j] == vs[j] by {
            assert(vs.push(v)[j] == vs[j]);
        }
        assert(vs3[vs.len() as int] == vs.push(v)[vs.len() as int]);
    }
}

/// Every variable that the K-normal form of a program uses without binding
/// it is a built-in or an external variable of the table.
pub proof fn lemma_knormal_closed(vars: Seq<VarModel>, tys: Seq<Ty>, e: Expr, id: u32)
    requires
        knormal_spec(vars, tys, e) is Some,
        kfree(id, knormal_spec(vars, tys, e)->Some_0.2),
    ensures
        id < knormal_spec(vars, tys, e)->Some_0.0.len(),
        knormal_spec(vars, tys, e)->Some_0.0[id as int] is Builtin || knormal_spec(
            vars,
            tys,
            e,
        )->Some_0.0[id as int] is External,
{
    let st = KModel { vars, tys, env: Seq::empty(), globals: Seq::empty() };
    let n = knorm(st, Seq::empty(), e)->Some_0;
    lemma_knorm_closed(id, st, Seq::empty(), e);
    lemma_assemble_free(id, n.binds, n.last);
    assert(globals_ok(st));
    let i = choose|i: int| 0 <= i < n.st.globals.len() && (#[trigger] n.st.globals[i]).1 == id;
    assert(outside_named(n.st.vars, n.st.globals[i].0, id));
}

} // verus!

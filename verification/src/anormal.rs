//! A-normalization: no `let` is left as the right-hand side of a `let`.
//!
//! `let x = (let y = e1 in e2) in e3` becomes
//! `let y = e1 in let x = e2 in e3`, from the inside out, so that one pass
//! flattens right-hand sides nested to any depth. Every other form is
//! rebuilt as it was, around its normalized parts.

use vstd::prelude::*;
use crate::ctx::VarId;
use crate::knormal::{
    Bind, KE, KExpr, KModel, Normed, assemble, knorm, knorm_all, knormal_spec, operand, wrap,
};
use crate::syntax::Expr;
use crate::types::Ty;
use crate::var::VarModel;

verus! {

/// `let x = rhs in body`, with the bindings that `rhs` begins with moved
/// out in front of it.
pub open spec fn hoist(x: u32, rhs: KE, body: KE) -> KE
    decreases rhs,
{
    match rhs {
        KE::Let(y, e1, e2) => KE::Let(y, e1, Box::new(hoist(x, *e2, body))),
        _ => KE::Let(x, Box::new(rhs), Box::new(body)),
    }
}

/// The A-normal form of `e`.
pub open spec fn anf(e: KE) -> KE
    decreases e,
{
    match e {
        KE::Let(x, rhs, body) => hoist(x, anf(*rhs), anf(*body)),
        KE::If(c, a, b) => KE::If(c, Box::new(anf(*a)), Box::new(anf(*b))),
        KE::LetRec(f, params, rhs, body) => KE::LetRec(
            f,
            params,
            Box::new(anf(*rhs)),
            Box::new(anf(*body)),
        ),
        KE::LetTuple(xs, y, body) => KE::LetTuple(xs, y, Box::new(anf(*body))),
        _ => e,
    }
}

/// Whether `e` is in A-normal form: no `let` in it, at any depth, has a
/// `let` as its right-hand side.
pub open spec fn is_anf(e: KE) -> bool
    decreases e,
{
    match e {
        KE::Let(x, rhs, body) => !(*rhs is Let) && is_anf(*rhs) && is_anf(*body),
        KE::If(c, a, b) => is_anf(*a) && is_anf(*b),
        KE::LetRec(f, params, rhs, body) => is_anf(*rhs) && is_anf(*body),
        KE::LetTuple(xs, y, body) => is_anf(*body),
        _ => true,
    }
}

/// Hoisting keeps two expressions in A-normal form in A-normal form.
pub proof fn lemma_hoist_anf(x: u32, rhs: KE, body: KE)
    requires
        is_anf(rhs),
        is_anf(body),
    ensures
        is_anf(hoist(x, rhs, body)),
    decreases rhs,
{
    match rhs {
        KE::Let(y, e1, e2) => {
            lemma_hoist_anf(x, *e2, body);
        },
        _ => {},
    }
}

/// After A-normalization, no `let` has a `let` as its right-hand side.
pub proof fn lemma_anf_is_anf(e: KE)
    ensures
        is_anf(anf(e)),
    decreases e,
{
    match e {
        KE::Let(x, rhs, body) => {
            lemma_anf_is_anf(*rhs);
            lemma_anf_is_anf(*body);
            lemma_hoist_anf(x, anf(*rhs), anf(*body));
        },
        KE::If(c, a, b) => {
            lemma_anf_is_anf(*a);
            lemma_anf_is_anf(*b);
        },
        KE::LetRec(f, params, rhs, body) => {
            lemma_anf_is_anf(*rhs);
            lemma_anf_is_anf(*body);
        },
        KE::LetTuple(xs, y, body) => {
            lemma_anf_is_anf(*body);
        },
        _ => {},
    }
}

/// A-normalization leaves an expression in A-normal form as it is: the
/// pass is idempotent.
pub proof fn lemma_anf_fixed(e: KE)
    requires
        is_anf(e),
    ensures
        anf(e) == e,
    decreases e,
{
    match e {
        KE::Let(x, rhs, body) => {
            lemma_anf_fixed(*rhs);
            lemma_anf_fixed(*body);
        },
        KE::If(c, a, b) => {
            lemma_anf_fixed(*a);
            lemma_anf_fixed(*b);
        },
        KE::LetRec(f, params, rhs, body) => {
            lemma_anf_fixed(*rhs);
            lemma_anf_fixed(*body);
        },
        KE::LetTuple(xs, y, body) => {
            lemma_anf_fixed(*body);
        },
        _ => {},
    }
}

fn hoist_let(x: VarId, rhs: KExpr, body: KExpr) -> (r: KExpr)
    ensures
        r@ == hoist(x, rhs@, body@),
    decreases rhs,
{
    match rhs {
        KExpr::Let(y, e1, e2) => KExpr::Let(y, e1, Box::new(hoist_let(x, *e2, body))),
        other => KExpr::Let(x, Box::new(other), Box::new(body)),
    }
}

/// The A-normal form of `expr`.
pub fn anormal_expr(expr: KExpr) -> (r: KExpr)
    ensures
        r@ == anf(expr@),
        is_anf(r@),
    decreases expr,
{
    proof {
        lemma_anf_is_anf(expr@);
    }
    match expr {
        KExpr::Let(x, rhs, body) => hoist_let(x, anormal_expr(*rhs), anormal_expr(*body)),
        KExpr::If(c, a, b) => KExpr::If(c, Box::new(anormal_expr(*a)), Box::new(anormal_expr(*b))),
        KExpr::LetRec(f, params, rhs, body) => KExpr::LetRec(
            f,
            params,
            Box::new(anormal_expr(*rhs)),
            Box::new(anormal_expr(*body)),
        ),
        KExpr::LetTuple(xs, y, body) => KExpr::LetTuple(xs, y, Box::new(anormal_expr(*body))),
        other => other,
    }
}

/// Brings `expr` to A-normal form, in place.
pub fn anormal(expr: &mut KExpr)
    ensures
        final(expr)@ == anf(old(expr)@),
        is_anf(final(expr)@),
{
    let mut taken = KExpr::Unit;
    std::mem::swap(&mut taken, expr);
    let mut done = anormal_expr(taken);
    std::mem::swap(&mut done, expr);
}

/// Whether `e` can stand on the right-hand side of a `let` in A-normal
/// form.
pub open spec fn plain(e: KE) -> bool {
    !(e is Let) && is_anf(e)
}

/// Whether every link of the chain `binds` is in A-normal form.
pub open spec fn chain_anf(binds: Seq<Bind>) -> bool {
    forall|i: int|
        0 <= i < binds.len() ==> match #[trigger] binds[i] {
            Bind::Let(x, rhs) => plain(rhs),
            Bind::LetRec(f, params, rhs) => is_anf(rhs),
            Bind::LetTuple(xs, y) => true,
        }
}

/// A chain in A-normal form around an expression in A-normal form is in
/// A-normal form.
pub proof fn lemma_assemble_anf(binds: Seq<Bind>, last: KE)
    requires
        chain_anf(binds),
        is_anf(last),
    ensures
        is_anf(assemble(binds, last)),
    decreases binds.len(),
{
    if binds.len() > 0 {
        let b = binds.last();
        assert(b == binds[binds.len() - 1]);
        assert forall|i: int| 0 <= i < binds.drop_last().len() implies match #[trigger] binds.drop_last()[i] {
            Bind::Let(x, rhs) => plain(rhs),
            Bind::LetRec(f, params, rhs) => is_anf(rhs),
            Bind::LetTuple(xs, y) => true,
        } by {
            assert(binds.drop_last()[i] == binds[i]);
        }
        lemma_assemble_anf(binds.drop_last(), wrap(b, last));
    }
}

proof fn lemma_chain_push(binds: Seq<Bind>, b: Bind)
    requires
        chain_anf(binds),
        match b {
            Bind::Let(x, rhs) => plain(rhs),
            Bind::LetRec(f, params, rhs) => is_anf(rhs),
            Bind::LetTuple(xs, y) => true,
        },
    ensures
        chain_anf(binds.push(b)),
{
    assert forall|i: int| 0 <= i < binds.push(b).len() implies match #[trigger] binds.push(b)[i] {
        Bind::Let(x, rhs) => plain(rhs),
        Bind::LetRec(f, params, rhs) => is_anf(rhs),
        Bind::LetTuple(xs, y) => true,
    } by {
        if i < binds.len() {
            assert(binds.push(b)[i] == binds[i]);
        }
    }
}

proof fn lemma_operand_anf(n: Normed)
    requires
        chain_anf(n.binds),
        plain(n.last),
        operand(n) is Some,
    ensures
        chain_anf(operand(n)->Some_0.1),
{
    match n.last {
        KE::Var(v) => {},
        _ => {
            let t = operand(n)->Some_0.2;
            lemma_chain_push(n.binds, Bind::Let(t, n.last));
        },
    }
}

/// K-normalization grows a chain in A-normal form into a chain in A-normal
/// form, and ends in an expression that can stand on the right-hand side
/// of a `let`.
pub proof fn lemma_knorm_anf(st: KModel, binds: Seq<Bind>, e: Expr)
    requires
        chain_anf(binds),
        knorm(st, binds, e) is Some,
    ensures
        chain_anf(knorm(st, binds, e)->Some_0.binds),
        plain(knorm(st, binds, e)->Some_0.last),
    decreases e, 0int,
{
    let none = Seq::<Bind>::empty();
    match e {
        Expr::Not(a) | Expr::Neg(a) | Expr::FNeg(a) => {
            lemma_knorm_anf(st, binds, *a);
            lemma_operand_anf(knorm(st, binds, *a)->Some_0);
        },
        Expr::Add(a, b) | Expr::Sub(a, b) | Expr::FAdd(a, b) | Expr::FSub(a, b) | Expr::FMul(
            a,
            b,
        ) | Expr::FDiv(a, b) | Expr::Eq(a, b) | Expr::Le(a, b) | Expr::Array(a, b) | Expr::Get(
            a,
            b,
        ) => {
            let n1 = knorm(st, binds, *a)->Some_0;
            lemma_knorm_anf(st, binds, *a);
            lemma_operand_anf(n1);
            let (st2, b2, v1) = operand(n1)->Some_0;
            let n2 = knorm(st2, b2, *b)->Some_0;
            lemma_knorm_anf(st2, b2, *b);
            lemma_operand_anf(n2);
        },
        Expr::Put(a, b, c) => {
            let n1 = knorm(st, binds, *a)->Some_0;
            lemma_knorm_anf(st, binds, *a);
            lemma_operand_anf(n1);
            let (st2, b2, v1) = operand(n1)->Some_0;
            let n2 = knorm(st2, b2, *b)->Some_0;
            lemma_knorm_anf(st2, b2, *b);
            lemma_operand_anf(n2);
            let (st4, b4, v2) = operand(n2)->Some_0;
            let n3 = knorm(st4, b4, *c)->Some_0;
            lemma_knorm_anf(st4, b4, *c);
            lemma_operand_anf(n3);
        },
        Expr::If(c, a, b) => {
            let n1 = knorm(st, binds, *c)->Some_0;
            lemma_knorm_anf(st, binds, *c);
            lemma_operand_anf(n1);
            let (st2, b2, v) = operand(n1)->Some_0;
            let na = knorm(st2, none, *a)->Some_0;
            lemma_knorm_anf(st2, none, *a);
            lemma_assemble_anf(na.binds, na.last);
            let nb = knorm(na.st, none, *b)->Some_0;
            lemma_knorm_anf(na.st, none, *b);
            lemma_assemble_anf(nb.binds, nb.last);
        },
        Expr::Let { bndr, rhs, body } => {
            let nr = knorm(st, binds, *rhs)->Some_0;
            lemma_knorm_anf(st, binds, *rhs);
            lemma_chain_push(nr.binds, Bind::Let(bndr.id, nr.last));
            lemma_knorm_anf(
                crate::knormal::enter_one(nr.st, bndr),
                nr.binds.push(Bind::Let(bndr.id, nr.last)),
                *body,
            );
        },
        Expr::LetRec { bndr, args, rhs, body } => {
            let st1 = crate::knormal::enter(crate::knormal::enter_one(st, bndr), args@);
            let nr = knorm(st1, none, *rhs)->Some_0;
            lemma_knorm_anf(st1, none, *rhs);
            lemma_assemble_anf(nr.binds, nr.last);
            let link = Bind::LetRec(
                bndr.id,
                crate::knormal::ids_of(args@),
                assemble(nr.binds, nr.last),
            );
            lemma_chain_push(binds, link);
            lemma_knorm_anf(
                crate::knormal::exit(nr.st, crate::knormal::enter_one(st, bndr).env),
                binds.push(link),
                *body,
            );
        },
        Expr::App { fun, args } => {
            let nf = knorm(st, binds, *fun)->Some_0;
            lemma_knorm_anf(st, binds, *fun);
            lemma_operand_anf(nf);
            let (st2, b2, vf) = operand(nf)->Some_0;
            lemma_knorm_all_anf(st2, b2, args@, 0, Seq::empty(), Seq::empty());
        },
        Expr::Tuple(args) => {
            lemma_knorm_all_anf(st, binds, args@, 0, Seq::empty(), Seq::empty());
        },
        Expr::LetTuple { bndrs, rhs, body } => {
            let nr = knorm(st, binds, *rhs)->Some_0;
            lemma_knorm_anf(st, binds, *rhs);
            lemma_operand_anf(nr);
            let (st2, b2, v) = operand(nr)->Some_0;
            let link = Bind::LetTuple(crate::knormal::ids_of(bndrs@), v);
            lemma_chain_push(b2, link);
            lemma_knorm_anf(crate::knormal::enter(st2, bndrs@), b2.push(link), *body);
        },
        _ => {},
    }
}

proof fn lemma_knorm_all_anf(
    st: KModel,
    binds: Seq<Bind>,
    es: Seq<Expr>,
    i: nat,
    vs: Seq<u32>,
    ts: Seq<Ty>,
)
    requires
        chain_anf(binds),
        knorm_all(st, binds, es, i, vs, ts) is Some,
    ensures
        chain_anf(knorm_all(st, binds, es, i, vs, ts)->Some_0.1),
    decreases es, es.len() - i,
{
    if i < es.len() {
        let n = knorm(st, binds, es[i as int])->Some_0;
        lemma_knorm_anf(st, binds, es[i as int]);
        lemma_operand_anf(n);
        let (st2, b2, v) = operand(n)->Some_0;
        lemma_knorm_all_anf(st2, b2, es, i + 1, vs.push(v), ts.push(n.ty));
    }
}

/// What K-normalization gives is in A-normal form already, and
/// A-normalization leaves it as it is.
pub proof fn lemma_knormal_is_anf(vars: Seq<VarModel>, tys: Seq<Ty>, e: Expr)
    requires
        knormal_spec(vars, tys, e) is Some,
    ensures
        is_anf(knormal_spec(vars, tys, e)->Some_0.2),
        anf(knormal_spec(vars, tys, e)->Some_0.2) == knormal_spec(vars, tys, e)->Some_0.2,
{
    let st = KModel { vars, tys, env: Seq::empty(), globals: Seq::empty() };
    let n = knorm(st, Seq::empty(), e)->Some_0;
    lemma_knorm_anf(st, Seq::empty(), e);
    lemma_assemble_anf(n.binds, n.last);
    lemma_anf_fixed(assemble(n.binds, n.last));
}

} // verus!

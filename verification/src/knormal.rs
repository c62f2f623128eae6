//! K-normalization: from the syntax tree to a form in which every operand
//! of an operation is a variable.
//!
//! An operand that is not a variable already is bound to a fresh variable
//! first. The bindings that this takes are not nested in one another: they
//! come out as one chain, in the order in which the operands are evaluated,
//! left to right.
//!
//! Names are resolved on the way: a name stands for the variable of its
//! innermost binder in scope, where the name of a function is in scope in
//! its own body and in what follows its definition, and its parameters in
//! its body only. A name that no binder in scope binds stands for a
//! built-in variable if it is `print_int`, for an external variable if not.

use vstd::prelude::*;
use crate::ctx::{Ctx, Fresh, VarId, extend};
use crate::syntax::{Binder, Expr};
use crate::types::{Ty, Type, model, model_seq, clone_type, lemma_model_parts};
use crate::var::{CompilerPhase, VarModel};

verus! {

/// An operation on one operand.
#[derive(Debug, Clone, Copy, PartialEq, Eq, Structural)]
pub enum UnOp {
    Not,
    Neg,
    FNeg,
}

/// An operation on two operands.
#[derive(Debug, Clone, Copy, PartialEq, Eq, Structural)]
pub enum BinOp {
    Add,
    Sub,
    FAdd,
    FSub,
    FMul,
    FDiv,
    Eq,
    Le,
    /// `Array.make n x`
    Array,
    Get,
}

/// The mathematical model of an expression in K-normal form.
pub enum KE {
    Unit,
    Bool(bool),
    Int(i64),
    Float(u64),
    Unary(UnOp, u32),
    Binary(BinOp, u32, u32),
    Put(u32, u32, u32),
    If(u32, Box<KE>, Box<KE>),
    Let(u32, Box<KE>, Box<KE>),
    Var(u32),
    LetRec(u32, Seq<u32>, Box<KE>, Box<KE>),
    App(u32, Seq<u32>),
    Tuple(Seq<u32>),
    LetTuple(Seq<u32>, u32, Box<KE>),
}

/// An expression in K-normal form. Every operand of an operation, of a
/// call, of a tuple, of an array access and of a condition is the identity
/// of a variable; only the branches of `If`, the right-hand sides and the
/// bodies of the binding forms are expressions.
#[derive(Debug)]
pub enum KExpr {
    Unit,
    Bool(bool),
    Int(i64),
    /// A float literal, as the bits of its IEEE 754 double.
    Float(u64),
    Unary(UnOp, VarId),
    Binary(BinOp, VarId, VarId),
    /// `a.(i) <- x`
    Put(VarId, VarId, VarId),
    If(VarId, Box<KExpr>, Box<KExpr>),
    /// `let x = rhs in body`
    Let(VarId, Box<KExpr>, Box<KExpr>),
    Var(VarId),
    /// `let rec f params = rhs in body`
    LetRec(VarId, Vec<VarId>, Box<KExpr>, Box<KExpr>),
    App(VarId, Vec<VarId>),
    Tuple(Vec<VarId>),
    /// `let (xs) = y in body`
    LetTuple(Vec<VarId>, VarId, Box<KExpr>),
}

/// The model of an expression.
pub open spec fn kmodel(e: KExpr) -> KE
    decreases e,
{
    match e {
        KExpr::Unit => KE::Unit,
        KExpr::Bool(b) => KE::Bool(b),
        KExpr::Int(i) => KE::Int(i),
        KExpr::Float(f) => KE::Float(f),
        KExpr::Unary(op, a) => KE::Unary(op, a),
        KExpr::Binary(op, a, b) => KE::Binary(op, a, b),
        KExpr::Put(a, b, c) => KE::Put(a, b, c),
        KExpr::If(c, a, b) => KE::If(c, Box::new(kmodel(*a)), Box::new(kmodel(*b))),
        KExpr::Let(x, rhs, body) => KE::Let(x, Box::new(kmodel(*rhs)), Box::new(kmodel(*body))),
        KExpr::Var(x) => KE::Var(x),
        KExpr::LetRec(f, params, rhs, body) => KE::LetRec(
            f,
            params@,
            Box::new(kmodel(*rhs)),
            Box::new(kmodel(*body)),
        ),
        KExpr::App(f, args) => KE::App(f, args@),
        KExpr::Tuple(args) => KE::Tuple(args@),
        KExpr::LetTuple(xs, y, body) => KE::LetTuple(xs@, y, Box::new(kmodel(*body))),
    }
}

impl View for KExpr {
    type V = KE;

    open spec fn view(&self) -> KE {
        kmodel(*self)
    }
}

/// Whether two lists of variables are the same list.
pub fn ids_eq(a: &Vec<VarId>, b: &Vec<VarId>) -> (r: bool)
    ensures
        r == (a@ == b@),
{
    if a.len() != b.len() {
        return false;
    }
    let mut i: usize = 0;
    while i < a.len()
        invariant
            a.len() == b.len(),
            i <= a.len(),
            forall|j: int| 0 <= j < i ==> a@[j] == b@[j],
        decreases a.len() - i,
    {
        if a[i] != b[i] {
            return false;
        }
        i += 1;
    }
    assert(a@ =~= b@);
    true
}

/// Structural equality of two expressions.
pub fn kexpr_eq(a: &KExpr, b: &KExpr) -> (r: bool)
    ensures
        r == (a@ == b@),
    decreases a,
{
    match (a, b) {
        (KExpr::Unit, KExpr::Unit) => true,
        (KExpr::Bool(x), KExpr::Bool(y)) => *x == *y,
        (KExpr::Int(x), KExpr::Int(y)) => *x == *y,
        (KExpr::Float(x), KExpr::Float(y)) => *x == *y,
        (KExpr::Unary(o1, a1), KExpr::Unary(o2, a2)) => *o1 == *o2 && *a1 == *a2,
        (KExpr::Binary(o1, a1, b1), KExpr::Binary(o2, a2, b2)) => *o1 == *o2 && *a1 == *a2 && *b1
            == *b2,
        (KExpr::Put(a1, b1, c1), KExpr::Put(a2, b2, c2)) => *a1 == *a2 && *b1 == *b2 && *c1
            == *c2,
        (KExpr::If(c1, a1, b1), KExpr::If(c2, a2, b2)) => *c1 == *c2 && kexpr_eq(a1, a2)
            && kexpr_eq(b1, b2),
        (KExpr::Let(x1, r1, b1), KExpr::Let(x2, r2, b2)) => *x1 == *x2 && kexpr_eq(r1, r2)
            && kexpr_eq(b1, b2),
        (KExpr::Var(x), KExpr::Var(y)) => *x == *y,
        (KExpr::LetRec(f1, xs1, r1, b1), KExpr::LetRec(f2, xs2, r2, b2)) => *f1 == *f2 && ids_eq(
            xs1,
            xs2,
        ) && kexpr_eq(r1, r2) && kexpr_eq(b1, b2),
        (KExpr::App(f1, a1), KExpr::App(f2, a2)) => *f1 == *f2 && ids_eq(a1, a2),
        (KExpr::Tuple(a1), KExpr::Tuple(a2)) => ids_eq(a1, a2),
        (KExpr::LetTuple(x1, y1, b1), KExpr::LetTuple(x2, y2, b2)) => ids_eq(x1, x2) && *y1
            == *y2 && kexpr_eq(b1, b2),
        _ => false,
    }
}

impl PartialEq for KExpr {
    fn eq(&self, other: &Self) -> (r: bool) {
        kexpr_eq(self, other)
    }
}

impl Eq for KExpr {

}

impl vstd::std_specs::cmp::PartialEqSpecImpl for KExpr {
    open spec fn obeys_eq_spec() -> bool {
        true
    }

    open spec fn eq_spec(&self, other: &Self) -> bool {
        self@ == other@
    }
}

/// One link of a chain of bindings: a binding form without its body.
pub enum Bind {
    Let(u32, KE),
    LetRec(u32, Seq<u32>, KE),
    LetTuple(Seq<u32>, u32),
}

/// The binding `b` around the body `rest`.
pub open spec fn wrap(b: Bind, rest: KE) -> KE {
    match b {
        Bind::Let(x, rhs) => KE::Let(x, Box::new(rhs), Box::new(rest)),
        Bind::LetRec(f, params, rhs) => KE::LetRec(f, params, Box::new(rhs), Box::new(rest)),
        Bind::LetTuple(xs, y) => KE::LetTuple(xs, y, Box::new(rest)),
    }
}

/// The chain `binds`, first binding outermost, around the expression `last`.
pub open spec fn assemble(binds: Seq<Bind>, last: KE) -> KE
    decreases binds.len(),
{
    if binds.len() == 0 {
        last
    } else {
        assemble(binds.drop_last(), wrap(binds.last(), last))
    }
}

/// The state that K-normalization threads through a program.
pub struct KModel {
    /// The table of variables.
    pub vars: Seq<VarModel>,
    /// The type of each variable, by its identity.
    pub tys: Seq<Ty>,
    /// The names in scope, innermost last, each with its variable.
    pub env: Seq<(Seq<char>, u32)>,
    /// The names that no binder binds, each with the variable made for it.
    pub globals: Seq<(Seq<char>, u32)>,
}

/// What normalizing an expression gives: the state reached, the chain of
/// bindings so far, the expression that the chain ends in, and its type.
pub struct Normed {
    pub st: KModel,
    pub binds: Seq<Bind>,
    pub last: KE,
    pub ty: Ty,
}

pub open spec fn normed(st: KModel, binds: Seq<Bind>, last: KE, ty: Ty) -> Normed {
    Normed { st, binds, last, ty }
}

/// The table of types with `ty` as the type of `id`; variables between the
/// end of the table and `id` get `Unit`.
pub open spec fn put_type(tys: Seq<Ty>, id: u32, ty: Ty) -> Seq<Ty> {
    if id < tys.len() {
        tys.update(id as int, ty)
    } else {
        Seq::new(
            (id + 1) as nat,
            |i: int|
                if i < tys.len() {
                    tys[i]
                } else if i == id {
                    ty
                } else {
                    Ty::Unit
                },
        )
    }
}

/// The type of `id` in the table; `Unit` for a variable beyond it.
pub open spec fn get_type(tys: Seq<Ty>, id: u32) -> Ty {
    if id < tys.len() {
        tys[id as int]
    } else {
        Ty::Unit
    }
}

/// A fresh variable of kind `kind` and type `ty`.
pub open spec fn fresh_var(st: KModel, kind: Fresh, ty: Ty) -> Option<(KModel, u32)> {
    match extend(st.vars, kind) {
        None => None,
        Some((vars, id)) => Some((KModel { vars, tys: put_type(st.tys, id, ty), ..st }, id)),
    }
}

/// The variable that stands for what was normalized: the expression itself
/// where it is a variable, else a fresh variable bound to it at the end of
/// the chain.
pub open spec fn operand(n: Normed) -> Option<(KModel, Seq<Bind>, u32)> {
    match n.last {
        KE::Var(v) => Some((n.st, n.binds, v)),
        _ => match fresh_var(n.st, Fresh::Generated(CompilerPhase::KNormal), n.ty) {
            None => None,
            Some((st, t)) => Some((st, n.binds.push(Bind::Let(t, n.last)), t)),
        },
    }
}

/// The variable of the innermost binding of `name` in `env`.
pub open spec fn lookup_id(env: Seq<(Seq<char>, u32)>, name: Seq<char>) -> Option<u32>
    decreases env.len(),
{
    if env.len() == 0 {
        None
    } else if env.last().0 == name {
        Some(env.last().1)
    } else {
        lookup_id(env.drop_last(), name)
    }
}

/// The type of the built-in `print_int`.
pub open spec fn print_int_type() -> Ty {
    Ty::Fun(seq![Ty::Int], Box::new(Ty::Unit))
}

/// The variable that `name` stands for: the innermost binder in scope;
/// else the variable made for the name before; else a fresh one, built-in
/// for `print_int` and external for any other name.
pub open spec fn resolve_name(st: KModel, name: Seq<char>) -> Option<(KModel, u32)> {
    match lookup_id(st.env, name) {
        Some(id) => Some((st, id)),
        None => match lookup_id(st.globals, name) {
            Some(id) => Some((st, id)),
            None => {
                let made = if name == "print_int"@ {
                    fresh_var(st, Fresh::Builtin(name), print_int_type())
                } else {
                    fresh_var(st, Fresh::External(name), Ty::Unit)
                };
                match made {
                    None => None,
                    Some((st2, id)) => Some(
                        (KModel { globals: st2.globals.push((name, id)), ..st2 }, id),
                    ),
                }
            },
        },
    }
}

/// The names and variables of a list of binders.
pub open spec fn names_of(bs: Seq<Binder>) -> Seq<(Seq<char>, u32)> {
    Seq::new(bs.len(), |i: int| (bs[i].name@, bs[i].id))
}

/// The variables of a list of binders.
pub open spec fn ids_of(bs: Seq<Binder>) -> Seq<u32> {
    Seq::new(bs.len(), |i: int| bs[i].id)
}

/// The state with the names of `bs` brought into scope.
pub open spec fn enter(st: KModel, bs: Seq<Binder>) -> KModel {
    KModel { env: st.env + names_of(bs), ..st }
}

/// The state with `b` brought into scope.
pub open spec fn enter_one(st: KModel, b: Binder) -> KModel {
    KModel { env: st.env.push((b.name@, b.id)), ..st }
}

/// The state with the names in scope set back to `env`.
pub open spec fn exit(st: KModel, env: Seq<(Seq<char>, u32)>) -> KModel {
    KModel { env: env, ..st }
}

/// The operation that a node of the syntax tree with one operand stands
/// for.
pub open spec fn unary_op(e: Expr) -> UnOp {
    match e {
        Expr::Neg(_) => UnOp::Neg,
        Expr::FNeg(_) => UnOp::FNeg,
        _ => UnOp::Not,
    }
}

pub open spec fn unary_ty(op: UnOp) -> Ty {
    match op {
        UnOp::Not => Ty::Bool,
        UnOp::Neg => Ty::Int,
        UnOp::FNeg => Ty::Float,
    }
}

/// The operation that a node of the syntax tree with two operands stands
/// for.
pub open spec fn binary_op(e: Expr) -> BinOp {
    match e {
        Expr::Sub(_, _) => BinOp::Sub,
        Expr::FAdd(_, _) => BinOp::FAdd,
        Expr::FSub(_, _) => BinOp::FSub,
        Expr::FMul(_, _) => BinOp::FMul,
        Expr::FDiv(_, _) => BinOp::FDiv,
        Expr::Eq(_, _) => BinOp::Eq,
        Expr::Le(_, _) => BinOp::Le,
        Expr::Array(_, _) => BinOp::Array,
        Expr::Get(_, _) => BinOp::Get,
        _ => BinOp::Add,
    }
}

/// The type of the elements of an array type; `Unit` for another type.
pub open spec fn elem_ty(t: Ty) -> Ty {
    match t {
        Ty::Array(e) => *e,
        _ => Ty::Unit,
    }
}

/// The type of the results of a function type; `Unit` for another type.
pub open spec fn ret_ty(t: Ty) -> Ty {
    match t {
        Ty::Fun(_, r) => *r,
        _ => Ty::Unit,
    }
}

/// The type of an operation on operands of types `t1` and `t2`.
pub open spec fn binary_ty(op: BinOp, t1: Ty, t2: Ty) -> Ty {
    match op {
        BinOp::Add | BinOp::Sub => Ty::Int,
        BinOp::FAdd | BinOp::FSub | BinOp::FMul | BinOp::FDiv => Ty::Float,
        BinOp::Eq | BinOp::Le => Ty::Bool,
        BinOp::Array => Ty::Array(Box::new(t2)),
        BinOp::Get => elem_ty(t1),
    }
}

/// The K-normalization of `e` from the state `st`, after the chain `binds`:
/// the chain grown by what `e` takes, the expression that `e` ends in, and
/// its type; `None` where no tag is left for a fresh variable.
pub open spec fn knorm(st: KModel, binds: Seq<Bind>, e: Expr) -> Option<Normed>
    decreases e, 0int,
{
    match e {
        Expr::Unit => Some(normed(st, binds, KE::Unit, Ty::Unit)),
        Expr::Bool(b) => Some(normed(st, binds, KE::Bool(b), Ty::Bool)),
        Expr::Int(i) => Some(normed(st, binds, KE::Int(i), Ty::Int)),
        Expr::Float(f) => Some(normed(st, binds, KE::Float(f), Ty::Float)),
        Expr::Not(a) | Expr::Neg(a) | Expr::FNeg(a) => match knorm(st, binds, *a) {
            None => None,
            Some(n) => match operand(n) {
                None => None,
                Some((st2, b2, v)) => Some(
                    normed(st2, b2, KE::Unary(unary_op(e), v), unary_ty(unary_op(e))),
                ),
            },
        },
        Expr::Add(a, b) | Expr::Sub(a, b) | Expr::FAdd(a, b) | Expr::FSub(a, b) | Expr::FMul(
            a,
            b,
        ) | Expr::FDiv(a, b) | Expr::Eq(a, b) | Expr::Le(a, b) | Expr::Array(a, b) | Expr::Get(
            a,
            b,
        ) => match knorm(st, binds, *a) {
            None => None,
            Some(n1) => match operand(n1) {
                None => None,
                Some((st2, b2, v1)) => match knorm(st2, b2, *b) {
                    None => None,
                    Some(n2) => match operand(n2) {
                        None => None,
                        Some((st4, b4, v2)) => Some(
                            normed(
                                st4,
                                b4,
                                KE::Binary(binary_op(e), v1, v2),
                                binary_ty(binary_op(e), n1.ty, n2.ty),
                            ),
                        ),
                    },
                },
            },
        },
        Expr::Put(a, b, c) => match knorm(st, binds, *a) {
            None => None,
            Some(n1) => match operand(n1) {
                None => None,
                Some((st2, b2, v1)) => match knorm(st2, b2, *b) {
                    None => None,
                    Some(n2) => match operand(n2) {
                        None => None,
                        Some((st4, b4, v2)) => match knorm(st4, b4, *c) {
                            None => None,
                            Some(n3) => match operand(n3) {
                                None => None,
                                Some((st6, b6, v3)) => Some(
                                    normed(st6, b6, KE::Put(v1, v2, v3), Ty::Unit),
                                ),
                            },
                        },
                    },
                },
            },
        },
        Expr::If(c, a, b) => match knorm(st, binds, *c) {
            None => None,
            Some(n1) => match operand(n1) {
                None => None,
                Some((st2, b2, v)) => match knorm(st2, Seq::empty(), *a) {
                    None => None,
                    Some(na) => match knorm(na.st, Seq::empty(), *b) {
                        None => None,
                        Some(nb) => Some(
                            normed(
                                nb.st,
                                b2,
                                KE::If(
                                    v,
                                    Box::new(assemble(na.binds, na.last)),
                                    Box::new(assemble(nb.binds, nb.last)),
                                ),
                                na.ty,
                            ),
                        ),
                    },
                },
            },
        },
        Expr::Let { bndr, rhs, body } => match knorm(st, binds, *rhs) {
            None => None,
            Some(nr) => match knorm(
                enter_one(nr.st, bndr),
                nr.binds.push(Bind::Let(bndr.id, nr.last)),
                *body,
            ) {
                None => None,
                Some(nb) => Some(normed(exit(nb.st, st.env), nb.binds, nb.last, nb.ty)),
            },
        },
        Expr::Var(name) => match resolve_name(st, name@) {
            None => None,
            Some((st2, id)) => Some(normed(st2, binds, KE::Var(id), get_type(st2.tys, id))),
        },
        Expr::LetRec { bndr, args, rhs, body } => match knorm(
            enter(enter_one(st, bndr), args@),
            Seq::empty(),
            *rhs,
        ) {
            None => None,
            Some(nr) => match knorm(
                exit(nr.st, enter_one(st, bndr).env),
                binds.push(Bind::LetRec(bndr.id, ids_of(args@), assemble(nr.binds, nr.last))),
                *body,
            ) {
                None => None,
                Some(nb) => Some(normed(exit(nb.st, st.env), nb.binds, nb.last, nb.ty)),
            },
        },
        Expr::App { fun, args } => match knorm(st, binds, *fun) {
            None => None,
            Some(nf) => match operand(nf) {
                None => None,
                Some((st2, b2, vf)) => match knorm_all(
                    st2,
                    b2,
                    args@,
                    0,
                    Seq::empty(),
                    Seq::empty(),
                ) {
                    None => None,
                    Some((st3, b3, vs, ts)) => Some(
                        normed(st3, b3, KE::App(vf, vs), ret_ty(nf.ty)),
                    ),
                },
            },
        },
        Expr::Tuple(args) => match knorm_all(st, binds, args@, 0, Seq::empty(), Seq::empty()) {
            None => None,
            Some((st2, b2, vs, ts)) => Some(normed(st2, b2, KE::Tuple(vs), Ty::Tuple(ts))),
        },
        Expr::LetTuple { bndrs, rhs, body } => match knorm(st, binds, *rhs) {
            None => None,
            Some(nr) => match operand(nr) {
                None => None,
                Some((st2, b2, v)) => match knorm(
                    enter(st2, bndrs@),
                    b2.push(Bind::LetTuple(ids_of(bndrs@), v)),
                    *body,
                ) {
                    None => None,
                    Some(nb) => Some(normed(exit(nb.st, st.env), nb.binds, nb.last, nb.ty)),
                },
            },
        },
    }
}

/// The K-normalization of the operands `es[i..]`, in order; `vs` and `ts`
/// hold the variables and the types of `es[..i]`.
pub open spec fn knorm_all(
    st: KModel,
    binds: Seq<Bind>,
    es: Seq<Expr>,
    i: nat,
    vs: Seq<u32>,
    ts: Seq<Ty>,
) -> Option<(KModel, Seq<Bind>, Seq<u32>, Seq<Ty>)>
    decreases es, es.len() - i,
{
    if i >= es.len() {
        Some((st, binds, vs, ts))
    } else {
        match knorm(st, binds, es[i as int]) {
            None => None,
            Some(n) => match operand(n) {
                None => None,
                Some((st2, b2, v)) => knorm_all(st2, b2, es, i + 1, vs.push(v), ts.push(n.ty)),
            },
        }
    }
}

/// The K-normalization of the program `e`, whose binders are the variables
/// of the table `vars` and have the types `tys`: the table and the types
/// with the variables that were made, and the program in K-normal form;
/// `None` where no tag is left for a fresh variable.
pub open spec fn knormal_spec(vars: Seq<VarModel>, tys: Seq<Ty>, e: Expr) -> Option<
    (Seq<VarModel>, Seq<Ty>, KE),
> {
    match knorm(
        KModel { vars, tys, env: Seq::empty(), globals: Seq::empty() },
        Seq::empty(),
        e,
    ) {
        None => None,
        Some(n) => Some((n.st.vars, n.st.tys, assemble(n.binds, n.last))),
    }
}

/// One link of a chain of bindings, in executable form.
#[derive(Debug)]
pub enum KBind {
    Let(VarId, KExpr),
    LetRec(VarId, Vec<VarId>, KExpr),
    LetTuple(Vec<VarId>, VarId),
}

impl View for KBind {
    type V = Bind;

    open spec fn view(&self) -> Bind {
        match self {
            KBind::Let(x, rhs) => Bind::Let(*x, rhs@),
            KBind::LetRec(f, params, rhs) => Bind::LetRec(*f, params@, rhs@),
            KBind::LetTuple(xs, y) => Bind::LetTuple(xs@, *y),
        }
    }
}

/// The model of a chain of bindings.
pub open spec fn binds_model(bs: Seq<KBind>) -> Seq<Bind> {
    Seq::new(bs.len(), |i: int| bs[i]@)
}

/// The model of a list of names with their variables.
pub open spec fn names_model(env: Seq<(String, VarId)>) -> Seq<(Seq<char>, u32)> {
    Seq::new(env.len(), |i: int| (env[i].0@, env[i].1))
}

/// The state of K-normalization in executable form.
pub struct KNormalizer {
    pub ctx: Ctx,
    pub tys: Vec<Type>,
    pub env: Vec<(String, VarId)>,
    pub globals: Vec<(String, VarId)>,
}

impl View for KNormalizer {
    type V = KModel;

    open spec fn view(&self) -> KModel {
        KModel {
            vars: self.ctx@,
            tys: model_seq(self.tys@),
            env: names_model(self.env@),
            globals: names_model(self.globals@),
        }
    }
}

/// The binding `b` around the body `rest`.
fn wrap_bind(b: KBind, rest: KExpr) -> (r: KExpr)
    ensures
        r@ == wrap(b@, rest@),
{
    match b {
        KBind::Let(x, rhs) => KExpr::Let(x, Box::new(rhs), Box::new(rest)),
        KBind::LetRec(f, params, rhs) => KExpr::LetRec(f, params, Box::new(rhs), Box::new(rest)),
        KBind::LetTuple(xs, y) => KExpr::LetTuple(xs, y, Box::new(rest)),
    }
}

/// The chain `binds`, first binding outermost, around the expression `last`.
fn assemble_chain(binds: Vec<KBind>, last: KExpr) -> (r: KExpr)
    ensures
        r@ == assemble(binds_model(binds@), last@),
{
    let mut binds = binds;
    let mut acc = last;
    let ghost goal = assemble(binds_model(binds@), last@);
    while binds.len() > 0
        invariant
            assemble(binds_model(binds@), acc@) == goal,
        decreases binds.len(),
    {
        let ghost before = binds_model(binds@);
        let b = binds.pop().unwrap();
        assert(binds_model(binds@) =~= before.drop_last());
        acc = wrap_bind(b, acc);
    }
    acc
}

fn set_type(tys: &mut Vec<Type>, id: VarId, ty: Type)
    ensures
        model_seq(final(tys)@) == put_type(model_seq(old(tys)@), id, ty@),
{
    let ghost before = model_seq(tys@);
    if (id as usize) < tys.len() {
        tys.set(id as usize, ty);
        assert(model_seq(tys@) =~= put_type(before, id, ty@));
    } else {
        while tys.len() < id as usize
            invariant
                before.len() <= tys.len() <= id,
                forall|i: int| 0 <= i < before.len() ==> model(#[trigger] tys@[i]) == before[i],
                forall|i: int| before.len() <= i < tys.len() ==> model(#[trigger] tys@[i]) == Ty::Unit,
            decreases id - tys.len(),
        {
            tys.push(Type::Unit);
        }
        tys.push(ty);
        assert(model_seq(tys@) =~= put_type(before, id, ty@));
    }
}

/// The type of the variable `id` in the table `tys`; `Unit` for a variable
/// beyond it.
pub fn type_of(tys: &Vec<Type>, id: VarId) -> (r: Type)
    ensures
        r@ == get_type(model_seq(tys@), id),
{
    if (id as usize) < tys.len() {
        clone_type(&tys[id as usize])
    } else {
        Type::Unit
    }
}

fn make_var(st: &mut KNormalizer, kind: MakeKind, ty: Type) -> (r: Option<VarId>)
    ensures
        match r {
            Some(id) => fresh_var(old(st)@, kind@, ty@) == Some((final(st)@, id)),
            None => fresh_var(old(st)@, kind@, ty@) is None,
        },
        final(st).env == old(st).env,
        final(st).globals == old(st).globals,
        old(st).ctx.wf() ==> final(st).ctx.wf(),
{
    let mut ctx = Ctx::new();
    std::mem::swap(&mut ctx, &mut st.ctx);
    let made = match &kind {
        MakeKind::Temp => ctx.fresh_generated(CompilerPhase::KNormal),
        MakeKind::Builtin(name) => ctx.fresh_builtin(name.as_str()),
        MakeKind::External(name) => ctx.fresh_external(name.as_str()),
    };
    std::mem::swap(&mut ctx, &mut st.ctx);
    match made {
        None => None,
        Some(id) => {
            let mut tys = Vec::new();
            std::mem::swap(&mut tys, &mut st.tys);
            set_type(&mut tys, id, ty);
            std::mem::swap(&mut tys, &mut st.tys);
            Some(id)
        },
    }
}

/// The kind of variable that the normalizer makes.
pub enum MakeKind {
    Temp,
    Builtin(String),
    External(String),
}

impl View for MakeKind {
    type V = Fresh;

    open spec fn view(&self) -> Fresh {
        match self {
            MakeKind::Temp => Fresh::Generated(CompilerPhase::KNormal),
            MakeKind::Builtin(name) => Fresh::Builtin(name@),
            MakeKind::External(name) => Fresh::External(name@),
        }
    }
}

/// An executable result of normalization stands for a result of the model:
/// the expression and its type, reached in the state `st` with the chain
/// `binds`.
pub open spec fn knorm_agrees(
    r: Option<(KExpr, Type)>,
    st: KModel,
    binds: Seq<Bind>,
    m: Option<Normed>,
) -> bool {
    match r {
        Some((last, ty)) => m == Some(normed(st, binds, last@, ty@)),
        None => m is None,
    }
}

/// The same for an operand.
pub open spec fn operand_agrees(
    r: Option<VarId>,
    st: KModel,
    binds: Seq<Bind>,
    m: Option<(KModel, Seq<Bind>, u32)>,
) -> bool {
    match r {
        Some(v) => m == Some((st, binds, v)),
        None => m is None,
    }
}

/// The same for a list of operands.
pub open spec fn operands_agree(
    r: Option<(Vec<VarId>, Vec<Type>)>,
    st: KModel,
    binds: Seq<Bind>,
    m: Option<(KModel, Seq<Bind>, Seq<u32>, Seq<Ty>)>,
) -> bool {
    match r {
        Some((vs, ts)) => m == Some((st, binds, vs@, model_seq(ts@))),
        None => m is None,
    }
}

fn to_operand(st: &mut KNormalizer, binds: &mut Vec<KBind>, last: KExpr, ty: Type) -> (r: Option<
    VarId,
>)
    ensures
        operand_agrees(
            r,
            final(st)@,
            binds_model(final(binds)@),
            operand(normed(old(st)@, binds_model(old(binds)@), last@, ty@)),
        ),
        final(st).env == old(st).env,
        old(st).ctx.wf() ==> final(st).ctx.wf(),
{
    match last {
        KExpr::Var(v) => Some(v),
        other => match make_var(st, MakeKind::Temp, ty) {
            None => None,
            Some(t) => {
                let ghost before = binds_model(binds@);
                binds.push(KBind::Let(t, other));
                assert(binds_model(binds@) =~= before.push(Bind::Let(t, other@)));
                Some(t)
            },
        },
    }
}

fn find_id(env: &Vec<(String, VarId)>, name: &String) -> (r: Option<VarId>)
    ensures
        r == lookup_id(names_model(env@), name@),
{
    let ghost full = names_model(env@);
    let mut i: usize = env.len();
    assert(full.subrange(0, i as int) =~= full);
    while i > 0
        invariant
            i <= env.len(),
            full == names_model(env@),
            lookup_id(full, name@) == lookup_id(full.subrange(0, i as int), name@),
        decreases i,
    {
        i -= 1;
        let entry = &env[i];
        proof {
            let upto = full.subrange(0, i + 1);
            assert(upto.last() == full[i as int]);
            assert(upto.drop_last() =~= full.subrange(0, i as int));
        }
        if entry.0 == *name {
            return Some(entry.1);
        }
    }
    None
}

fn print_int_ty() -> (t: Type)
    ensures
        t@ == print_int_type(),
{
    let mut args: Vec<Type> = Vec::new();
    args.push(Type::Int);
    assert(model_seq(args@) =~= seq![Ty::Int]);
    let t = Type::Fun { args, ret: Box::new(Type::Unit) };
    proof {
        lemma_model_parts(t);
        lemma_model_parts(Type::Unit);
    }
    t
}

fn resolve(st: &mut KNormalizer, name: &String) -> (r: Option<VarId>)
    ensures
        match r {
            Some(id) => resolve_name(old(st)@, name@) == Some((final(st)@, id)),
            None => resolve_name(old(st)@, name@) is None,
        },
        final(st).env == old(st).env,
        old(st).ctx.wf() ==> final(st).ctx.wf(),
{
    match find_id(&st.env, name) {
        Some(id) => Some(id),
        None => match find_id(&st.globals, name) {
            Some(id) => Some(id),
            None => {
                let builtin = "print_int".to_owned();
                let made = if *name == builtin {
                    make_var(st, MakeKind::Builtin(name.clone()), print_int_ty())
                } else {
                    make_var(st, MakeKind::External(name.clone()), Type::Unit)
                };
                match made {
                    None => None,
                    Some(id) => {
                        let ghost before = names_model(st.globals@);
                        st.globals.push((name.clone(), id));
                        assert(names_model(st.globals@) =~= before.push((name@, id)));
                        Some(id)
                    },
                }
            },
        },
    }
}

fn enter_binder(st: &mut KNormalizer, b: &Binder)
    ensures
        final(st)@ == enter_one(old(st)@, *b),
        final(st).env@ == old(st).env@.push((b.name, b.id)),
        final(st).ctx == old(st).ctx,
        final(st).tys == old(st).tys,
        final(st).globals == old(st).globals,
{
    let ghost before = names_model(st.env@);
    st.env.push((b.name.clone(), b.id));
    assert(names_model(st.env@) =~= before.push((b.name@, b.id)));
}

fn enter_binders(st: &mut KNormalizer, bs: &Vec<Binder>) -> (ids: Vec<VarId>)
    ensures
        final(st)@ == enter(old(st)@, bs@),
        ids@ == ids_of(bs@),
        final(st).env@.len() == old(st).env@.len() + bs.len(),
        final(st).env@.subrange(0, old(st).env@.len() as int) == old(st).env@,
        final(st).ctx == old(st).ctx,
{
    let ghost env0 = names_model(st.env@);
    let mut ids: Vec<VarId> = Vec::new();
    let mut i: usize = 0;
    assert(names_model(st.env@) =~= env0 + names_of(bs@).subrange(0, 0));
    assert(st.env@.subrange(0, old(st).env@.len() as int) =~= old(st).env@);
    while i < bs.len()
        invariant
            i <= bs.len(),
            names_model(st.env@) == env0 + names_of(bs@).subrange(0, i as int),
            st.env@.len() == old(st).env@.len() + i,
            st.env@.subrange(0, old(st).env@.len() as int) == old(st).env@,
            st.ctx == old(st).ctx,
            st.tys == old(st).tys,
            st.globals == old(st).globals,
            ids@ == ids_of(bs@).subrange(0, i as int),
        decreases bs.len() - i,
    {
        let ghost before = st.env@;
        let ghost ids_before = ids@;
        enter_binder(st, &bs[i]);
        ids.push(bs[i].id);
        i += 1;
        assert(names_model(st.env@) =~= env0 + names_of(bs@).subrange(0, i as int));
        assert(st.env@.subrange(0, old(st).env@.len() as int) =~= before.subrange(
            0,
            old(st).env@.len() as int,
        ));
        assert(ids@ =~= ids_of(bs@).subrange(0, i as int));
    }
    assert(names_of(bs@).subrange(0, bs@.len() as int) =~= names_of(bs@));
    assert(ids_of(bs@).subrange(0, bs@.len() as int) =~= ids_of(bs@));
    ids
}

fn exit_scope(st: &mut KNormalizer, depth: usize)
    requires
        depth <= old(st).env.len(),
    ensures
        final(st).env@ == old(st).env@.subrange(0, depth as int),
        final(st).ctx == old(st).ctx,
        final(st).tys == old(st).tys,
        final(st).globals == old(st).globals,
{
    st.env.truncate(depth);
}

fn unary_op_of(expr: &Expr) -> (op: UnOp)
    ensures
        op == unary_op(*expr),
{
    match expr {
        Expr::Neg(_) => UnOp::Neg,
        Expr::FNeg(_) => UnOp::FNeg,
        _ => UnOp::Not,
    }
}

fn unary_type(op: UnOp) -> (t: Type)
    ensures
        t@ == unary_ty(op),
{
    match op {
        UnOp::Not => Type::Bool,
        UnOp::Neg => Type::Int,
        UnOp::FNeg => Type::Float,
    }
}

fn binary_op_of(expr: &Expr) -> (op: BinOp)
    ensures
        op == binary_op(*expr),
{
    match expr {
        Expr::Sub(_, _) => BinOp::Sub,
        Expr::FAdd(_, _) => BinOp::FAdd,
        Expr::FSub(_, _) => BinOp::FSub,
        Expr::FMul(_, _) => BinOp::FMul,
        Expr::FDiv(_, _) => BinOp::FDiv,
        Expr::Eq(_, _) => BinOp::Eq,
        Expr::Le(_, _) => BinOp::Le,
        Expr::Array(_, _) => BinOp::Array,
        Expr::Get(_, _) => BinOp::Get,
        _ => BinOp::Add,
    }
}

fn elem_type(t: Type) -> (r: Type)
    ensures
        r@ == elem_ty(t@),
{
    proof {
        lemma_model_parts(t);
    }
    match t {
        Type::Array(e) => *e,
        _ => Type::Unit,
    }
}

/// The type of the results of a function type; `Unit` for another type.
pub fn ret_type(t: Type) -> (r: Type)
    ensures
        r@ == ret_ty(t@),
{
    proof {
        lemma_model_parts(t);
    }
    match t {
        Type::Fun { args, ret } => *ret,
        _ => Type::Unit,
    }
}

fn binary_type(op: BinOp, t1: Type, t2: Type) -> (t: Type)
    ensures
        t@ == binary_ty(op, t1@, t2@),
{
    match op {
        BinOp::Add | BinOp::Sub => Type::Int,
        BinOp::FAdd | BinOp::FSub | BinOp::FMul | BinOp::FDiv => Type::Float,
        BinOp::Eq | BinOp::Le => Type::Bool,
        BinOp::Array => {
            let t = Type::Array(Box::new(t2));
            proof {
                lemma_model_parts(t);
            }
            t
        },
        BinOp::Get => elem_type(t1),
    }
}

fn knorm_operands(st: &mut KNormalizer, binds: &mut Vec<KBind>, es: &Vec<Expr>) -> (r: Option<
    (Vec<VarId>, Vec<Type>),
>)
    ensures
        operands_agree(
            r,
            final(st)@,
            binds_model(final(binds)@),
            knorm_all(
                old(st)@,
                binds_model(old(binds)@),
                es@,
                0,
                Seq::empty(),
                Seq::empty(),
            ),
        ),
        r is Some ==> final(st).env@ == old(st).env@,
        old(st).ctx.wf() ==> final(st).ctx.wf(),
    decreases es, 2int,
{
    let ghost st0 = st@;
    let ghost binds0 = binds_model(binds@);
    let mut vs: Vec<VarId> = Vec::new();
    let mut ts: Vec<Type> = Vec::new();
    let mut i: usize = 0;
    assert(model_seq(ts@) =~= Seq::<Ty>::empty());
    assert(vs@ =~= Seq::<u32>::empty());
    while i < es.len()
        invariant
            i <= es.len(),
            st0 == old(st)@,
            binds0 == binds_model(old(binds)@),
            knorm_all(st0, binds0, es@, 0, Seq::empty(), Seq::empty()) == knorm_all(
                st@,
                binds_model(binds@),
                es@,
                i as nat,
                vs@,
                model_seq(ts@),
            ),
            st.env@ == old(st).env@,
            old(st).ctx.wf() ==> st.ctx.wf(),
        decreases es.len() - i,
    {
        let ghost tsm = model_seq(ts@);
        let (last, ty) = match knorm_expr(st, binds, &es[i]) {
            Some(x) => x,
            None => {
                return None;
            },
        };
        let kept = clone_type(&ty);
        let v = match to_operand(st, binds, last, ty) {
            Some(v) => v,
            None => {
                return None;
            },
        };
        vs.push(v);
        ts.push(kept);
        assert(model_seq(ts@) =~= tsm.push(kept@));
        i += 1;
    }
    Some((vs, ts))
}

fn knorm_unary(st: &mut KNormalizer, binds: &mut Vec<KBind>, expr: &Expr) -> (r: Option<
    (KExpr, Type),
>)
    requires
        expr is Not || expr is Neg || expr is FNeg,
    ensures
        knorm_agrees(
            r,
            final(st)@,
            binds_model(final(binds)@),
            knorm(old(st)@, binds_model(old(binds)@), *expr),
        ),
        r is Some ==> final(st).env@ == old(st).env@,
        old(st).ctx.wf() ==> final(st).ctx.wf(),
    decreases expr, 0int,
{
    match expr {
        Expr::Not(a) | Expr::Neg(a) | Expr::FNeg(a) => {
            let (last, ty) = match knorm_expr(st, binds, a) {
                Some(x) => x,
                None => {
                    return None;
                },
            };
            let v = match to_operand(st, binds, last, ty) {
                Some(v) => v,
                None => {
                    return None;
                },
            };
            let op = unary_op_of(expr);
            Some((KExpr::Unary(op, v), unary_type(op)))
        },
        _ => None,
    }
}

fn knorm_binary(st: &mut KNormalizer, binds: &mut Vec<KBind>, expr: &Expr) -> (r: Option<
    (KExpr, Type),
>)
    requires
        expr is Add || expr is Sub || expr is FAdd || expr is FSub || expr is FMul || expr is FDiv
            || expr is Eq || expr is Le || expr is Array || expr is Get,
    ensures
        knorm_agrees(
            r,
            final(st)@,
            binds_model(final(binds)@),
            knorm(old(st)@, binds_model(old(binds)@), *expr),
        ),
        r is Some ==> final(st).env@ == old(st).env@,
        old(st).ctx.wf() ==> final(st).ctx.wf(),
    decreases expr, 0int,
{
    match expr {
        Expr::Add(a, b) | Expr::Sub(a, b) | Expr::FAdd(a, b) | Expr::FSub(a, b) | Expr::FMul(
            a,
            b,
        ) | Expr::FDiv(a, b) | Expr::Eq(a, b) | Expr::Le(a, b) | Expr::Array(a, b) | Expr::Get(
            a,
            b,
        ) => {
            let (l1, t1) = match knorm_expr(st, binds, a) {
                Some(x) => x,
                None => {
                    return None;
                },
            };
            let k1 = clone_type(&t1);
            let v1 = match to_operand(st, binds, l1, t1) {
                Some(v) => v,
                None => {
                    return None;
                },
            };
            let (l2, t2) = match knorm_expr(st, binds, b) {
                Some(x) => x,
                None => {
                    return None;
                },
            };
            let k2 = clone_type(&t2);
            let v2 = match to_operand(st, binds, l2, t2) {
                Some(v) => v,
                None => {
                    return None;
                },
            };
            let op = binary_op_of(expr);
            Some((KExpr::Binary(op, v1, v2), binary_type(op, k1, k2)))
        },
        _ => None,
    }
}

fn knorm_put(st: &mut KNormalizer, binds: &mut Vec<KBind>, expr: &Expr) -> (r: Option<
    (KExpr, Type),
>)
    requires
        expr is Put,
    ensures
        knorm_agrees(
            r,
            final(st)@,
            binds_model(final(binds)@),
            knorm(old(st)@, binds_model(old(binds)@), *expr),
        ),
        r is Some ==> final(st).env@ == old(st).env@,
        old(st).ctx.wf() ==> final(st).ctx.wf(),
    decreases expr, 0int,
{
    match expr {
        Expr::Put(a, b, c) => {
            let (l1, t1) = match knorm_expr(st, binds, a) {
                Some(x) => x,
                None => {
                    return None;
                },
            };
            let v1 = match to_operand(st, binds, l1, t1) {
                Some(v) => v,
                None => {
                    return None;
                },
            };
            let (l2, t2) = match knorm_expr(st, binds, b) {
                Some(x) => x,
                None => {
                    return None;
                },
            };
            let v2 = match to_operand(st, binds, l2, t2) {
                Some(v) => v,
                None => {
                    return None;
                },
            };
            let (l3, t3) = match knorm_expr(st, binds, c) {
                Some(x) => x,
                None => {
                    return None;
                },
            };
            let v3 = match to_operand(st, binds, l3, t3) {
                Some(v) => v,
                None => {
                    return None;
                },
            };
            Some((KExpr::Put(v1, v2, v3), Type::Unit))
        },
        _ => None,
    }
}

fn knorm_if(st: &mut KNormalizer, binds: &mut Vec<KBind>, expr: &Expr) -> (r: Option<
    (KExpr, Type),
>)
    requires
        expr is If,
    ensures
        knorm_agrees(
            r,
            final(st)@,
            binds_model(final(binds)@),
            knorm(old(st)@, binds_model(old(binds)@), *expr),
        ),
        r is Some ==> final(st).env@ == old(st).env@,
        old(st).ctx.wf() ==> final(st).ctx.wf(),
    decreases expr, 0int,
{
    match expr {
        Expr::If(c, a, b) => {
            let (l1, t1) = match knorm_expr(st, binds, c) {
                Some(x) => x,
                None => {
                    return None;
                },
            };
            let v = match to_operand(st, binds, l1, t1) {
                Some(v) => v,
                None => {
                    return None;
                },
            };
            let mut then_binds: Vec<KBind> = Vec::new();
            assert(binds_model(then_binds@) =~= Seq::<Bind>::empty());
            let (la, ta) = match knorm_expr(st, &mut then_binds, a) {
                Some(x) => x,
                None => {
                    return None;
                },
            };
            let ea = assemble_chain(then_binds, la);
            let mut else_binds: Vec<KBind> = Vec::new();
            assert(binds_model(else_binds@) =~= Seq::<Bind>::empty());
            let (lb, tb) = match knorm_expr(st, &mut else_binds, b) {
                Some(x) => x,
                None => {
                    return None;
                },
            };
            let eb = assemble_chain(else_binds, lb);
            Some((KExpr::If(v, Box::new(ea), Box::new(eb)), ta))
        },
        _ => None,
    }
}

fn knorm_let(st: &mut KNormalizer, binds: &mut Vec<KBind>, expr: &Expr) -> (r: Option<
    (KExpr, Type),
>)
    requires
        expr is Let,
    ensures
        knorm_agrees(
            r,
            final(st)@,
            binds_model(final(binds)@),
            knorm(old(st)@, binds_model(old(binds)@), *expr),
        ),
        r is Some ==> final(st).env@ == old(st).env@,
        old(st).ctx.wf() ==> final(st).ctx.wf(),
    decreases expr, 0int,
{
    match expr {
        Expr::Let { bndr, rhs, body } => {
            let depth = st.env.len();
            let (lr, tr) = match knorm_expr(st, binds, rhs) {
                Some(x) => x,
                None => {
                    return None;
                },
            };
            enter_binder(st, bndr);
            let ghost before = binds_model(binds@);
            binds.push(KBind::Let(bndr.id, lr));
            assert(binds_model(binds@) =~= before.push(Bind::Let(bndr.id, lr@)));
            let (lb, tb) = match knorm_expr(st, binds, body) {
                Some(x) => x,
                None => {
                    return None;
                },
            };
            exit_scope(st, depth);
            assert(st.env@ =~= old(st).env@);
            Some((lb, tb))
        },
        _ => None,
    }
}

fn knorm_var(st: &mut KNormalizer, binds: &mut Vec<KBind>, expr: &Expr) -> (r: Option<
    (KExpr, Type),
>)
    requires
        expr is Var,
    ensures
        knorm_agrees(
            r,
            final(st)@,
            binds_model(final(binds)@),
            knorm(old(st)@, binds_model(old(binds)@), *expr),
        ),
        r is Some ==> final(st).env@ == old(st).env@,
        old(st).ctx.wf() ==> final(st).ctx.wf(),
    decreases expr, 0int,
{
    match expr {
        Expr::Var(name) => {
            let id = match resolve(st, name) {
                Some(id) => id,
                None => {
                    return None;
                },
            };
            let ty = type_of(&st.tys, id);
            Some((KExpr::Var(id), ty))
        },
        _ => None,
    }
}

fn knorm_letrec(st: &mut KNormalizer, binds: &mut Vec<KBind>, expr: &Expr) -> (r: Option<
    (KExpr, Type),
>)
    requires
        expr is LetRec,
    ensures
        knorm_agrees(
            r,
            final(st)@,
            binds_model(final(binds)@),
            knorm(old(st)@, binds_model(old(binds)@), *expr),
        ),
        r is Some ==> final(st).env@ == old(st).env@,
        old(st).ctx.wf() ==> final(st).ctx.wf(),
    decreases expr, 0int,
{
    match expr {
        Expr::LetRec { bndr, args, rhs, body } => {
            let depth = st.env.len();
            enter_binder(st, bndr);
            let ghost with_name = st.env@;
            let inner_depth = st.env.len();
            let params = enter_binders(st, args);
            let mut inner: Vec<KBind> = Vec::new();
            assert(binds_model(inner@) =~= Seq::<Bind>::empty());
            let (lr, tr) = match knorm_expr(st, &mut inner, rhs) {
                Some(x) => x,
                None => {
                    return None;
                },
            };
            exit_scope(st, inner_depth);
            assert(st.env@ =~= with_name);
            let er = assemble_chain(inner, lr);
            let ghost before = binds_model(binds@);
            binds.push(KBind::LetRec(bndr.id, params, er));
            assert(binds_model(binds@) =~= before.push(Bind::LetRec(bndr.id, ids_of(args@), er@)));
            let (lb, tb) = match knorm_expr(st, binds, body) {
                Some(x) => x,
                None => {
                    return None;
                },
            };
            exit_scope(st, depth);
            assert(st.env@ =~= old(st).env@);
            Some((lb, tb))
        },
        _ => None,
    }
}

fn knorm_app(st: &mut KNormalizer, binds: &mut Vec<KBind>, expr: &Expr) -> (r: Option<
    (KExpr, Type),
>)
    requires
        expr is App,
    ensures
        knorm_agrees(
            r,
            final(st)@,
            binds_model(final(binds)@),
            knorm(old(st)@, binds_model(old(binds)@), *expr),
        ),
        r is Some ==> final(st).env@ == old(st).env@,
        old(st).ctx.wf() ==> final(st).ctx.wf(),
    decreases expr, 0int,
{
    match expr {
        Expr::App { fun, args } => {
            let (lf, tf) = match knorm_expr(st, binds, fun) {
                Some(x) => x,
                None => {
                    return None;
                },
            };
            let kf = clone_type(&tf);
            let vf = match to_operand(st, binds, lf, tf) {
                Some(v) => v,
                None => {
                    return None;
                },
            };
            let (vs, ts) = match knorm_operands(st, binds, args) {
                Some(x) => x,
                None => {
                    return None;
                },
            };
            Some((KExpr::App(vf, vs), ret_type(kf)))
        },
        _ => None,
    }
}

fn knorm_tuple(st: &mut KNormalizer, binds: &mut Vec<KBind>, expr: &Expr) -> (r: Option<
    (KExpr, Type),
>)
    requires
        expr is Tuple,
    ensures
        knorm_agrees(
            r,
            final(st)@,
            binds_model(final(binds)@),
            knorm(old(st)@, binds_model(old(binds)@), *expr),
        ),
        r is Some ==> final(st).env@ == old(st).env@,
        old(st).ctx.wf() ==> final(st).ctx.wf(),
    decreases expr, 0int,
{
    match expr {
        Expr::Tuple(args) => {
            let (vs, ts) = match knorm_operands(st, binds, args) {
                Some(x) => x,
                None => {
                    return None;
                },
            };
            let ty = Type::Tuple(ts);
            proof {
                lemma_model_parts(ty);
            }
            Some((KExpr::Tuple(vs), ty))
        },
        _ => None,
    }
}

fn knorm_lettuple(st: &mut KNormalizer, binds: &mut Vec<KBind>, expr: &Expr) -> (r: Option<
    (KExpr, Type),
>)
    requires
        expr is LetTuple,
    ensures
        knorm_agrees(
            r,
            final(st)@,
            binds_model(final(binds)@),
            knorm(old(st)@, binds_model(old(binds)@), *expr),
        ),
        r is Some ==> final(st).env@ == old(st).env@,
        old(st).ctx.wf() ==> final(st).ctx.wf(),
    decreases expr, 0int,
{
    match expr {
        Expr::LetTuple { bndrs, rhs, body } => {
            let depth = st.env.len();
            let (lr, tr) = match knorm_expr(st, binds, rhs) {
                Some(x) => x,
                None => {
                    return None;
                },
            };
            let v = match to_operand(st, binds, lr, tr) {
                Some(v) => v,
                None => {
                    return None;
                },
            };
            let xs = enter_binders(st, bndrs);
            let ghost before = binds_model(binds@);
            binds.push(KBind::LetTuple(xs, v));
            assert(binds_model(binds@) =~= before.push(Bind::LetTuple(ids_of(bndrs@), v)));
            let (lb, tb) = match knorm_expr(st, binds, body) {
                Some(x) => x,
                None => {
                    return None;
                },
            };
            exit_scope(st, depth);
            assert(st.env@ =~= old(st).env@);
            Some((lb, tb))
        },
        _ => None,
    }
}

fn knorm_expr(st: &mut KNormalizer, binds: &mut Vec<KBind>, expr: &Expr) -> (r: Option<
    (KExpr, Type),
>)
    ensures
        knorm_agrees(
            r,
            final(st)@,
            binds_model(final(binds)@),
            knorm(old(st)@, binds_model(old(binds)@), *expr),
        ),
        r is Some ==> final(st).env@ == old(st).env@,
        old(st).ctx.wf() ==> final(st).ctx.wf(),
    decreases expr, 1int,
{
    match expr {
        Expr::Unit => Some((KExpr::Unit, Type::Unit)),
        Expr::Bool(b) => Some((KExpr::Bool(*b), Type::Bool)),
        Expr::Int(i) => Some((KExpr::Int(*i), Type::Int)),
        Expr::Float(f) => Some((KExpr::Float(*f), Type::Float)),
        Expr::Not(_) | Expr::Neg(_) | Expr::FNeg(_) => knorm_unary(st, binds, expr),
        Expr::Add(_, _) | Expr::Sub(_, _) | Expr::FAdd(_, _) | Expr::FSub(_, _) | Expr::FMul(
            _,
            _,
        ) | Expr::FDiv(_, _) | Expr::Eq(_, _) | Expr::Le(_, _) | Expr::Array(_, _) | Expr::Get(
            _,
            _,
        ) => knorm_binary(st, binds, expr),
        Expr::Put(_, _, _) => knorm_put(st, binds, expr),
        Expr::If(_, _, _) => knorm_if(st, binds, expr),
        Expr::Let { .. } => knorm_let(st, binds, expr),
        Expr::Var(_) => knorm_var(st, binds, expr),
        Expr::LetRec { .. } => knorm_letrec(st, binds, expr),
        Expr::App { .. } => knorm_app(st, binds, expr),
        Expr::Tuple(_) => knorm_tuple(st, binds, expr),
        Expr::LetTuple { .. } => knorm_lettuple(st, binds, expr),
    }
}

/// What `knormal` leaves in the table of variables and in the types, and
/// what it gives, stand for a result of the model.
pub open spec fn knormal_agrees(
    r: Option<KExpr>,
    vars: Seq<VarModel>,
    tys: Seq<Ty>,
    m: Option<(Seq<VarModel>, Seq<Ty>, KE)>,
) -> bool {
    match r {
        Some(e) => m == Some((vars, tys, e@)),
        None => m is None,
    }
}

/// K-normalizes the program `expr`. The binders of the program are
/// variables of the table `ctx`, and `tys` gives their types, by identity.
/// Every variable that the pass makes is added to the table, with its type
/// in `tys`: a variable for each operand that was no variable, and one for
/// each name that no binder binds. Gives `None` where no tag is left for a
/// fresh variable.
pub fn knormal(ctx: &mut Ctx, tys: &mut Vec<Type>, expr: &Expr) -> (r: Option<KExpr>)
    ensures
        knormal_agrees(
            r,
            final(ctx)@,
            model_seq(final(tys)@),
            knormal_spec(old(ctx)@, model_seq(old(tys)@), *expr),
        ),
        old(ctx).wf() ==> final(ctx).wf(),
{
    let mut st = KNormalizer {
        ctx: Ctx::new(),
        tys: Vec::new(),
        env: Vec::new(),
        globals: Vec::new(),
    };
    std::mem::swap(&mut st.ctx, ctx);
    std::mem::swap(&mut st.tys, tys);
    let mut binds: Vec<KBind> = Vec::new();
    proof {
        assert(binds_model(binds@) =~= Seq::<Bind>::empty());
        assert(names_model(st.env@) =~= Seq::<(Seq<char>, u32)>::empty());
        assert(names_model(st.globals@) =~= Seq::<(Seq<char>, u32)>::empty());
    }
    let r = knorm_expr(&mut st, &mut binds, expr);
    std::mem::swap(&mut st.ctx, ctx);
    std::mem::swap(&mut st.tys, tys);
    match r {
        None => None,
        Some((last, ty)) => Some(assemble_chain(binds, last)),
    }
}

} // verus!

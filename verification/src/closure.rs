//! Closure conversion: every function becomes a top-level function.
//!
//! A function whose name is used only to call it, in the scope that follows
//! its definition, is a direct function: it keeps its parameters and is
//! called by its name. A function whose name is used there as a value is a
//! closure: its top-level function takes the closure itself as a first
//! parameter, and at the place of its definition a closure is made out of
//! its name and the values of its free variables; it is then called through
//! that closure.

use vstd::prelude::*;
use crate::ctx::VarId;
use crate::knormal::{BinOp, KE, KExpr, UnOp, get_type, ret_ty, ids_eq, type_of, ret_type};
use crate::types::{Ty, Type, model, model_seq, type_eq};

verus! {

/// The mathematical model of a closure-converted expression.
pub enum CE {
    Unit,
    Bool(bool),
    Int(i64),
    Float(u64),
    Unary(UnOp, u32),
    Binary(BinOp, u32, u32),
    Put(u32, u32, u32),
    If(u32, Box<CE>, Box<CE>),
    Let(u32, Box<CE>, Box<CE>),
    Var(u32),
    MakeCls(u32, Seq<u32>, Box<CE>),
    AppCls(u32, Seq<u32>),
    AppDir(u32, Seq<u32>),
    Tuple(Seq<u32>),
    LetTuple(Seq<u32>, u32, Box<CE>),
}

/// The mathematical model of a top-level function.
pub struct FunModel {
    pub name: u32,
    pub params: Seq<u32>,
    pub closure: bool,
    pub fvs: Seq<u32>,
    pub ret: Ty,
    pub body: CE,
}

/// A closure-converted expression. No function is defined in it: a call
/// names a top-level function (`AppDir`) or goes through a closure
/// (`AppCls`), and `MakeCls` makes the closure of a top-level function.
#[derive(Debug)]
pub enum CExpr {
    Unit,
    Bool(bool),
    Int(i64),
    /// A float literal, as the bits of its IEEE 754 double.
    Float(u64),
    Unary(UnOp, VarId),
    Binary(BinOp, VarId, VarId),
    /// `a.(i) <- x`
    Put(VarId, VarId, VarId),
    If(VarId, Box<CExpr>, Box<CExpr>),
    /// `let x = rhs in body`
    Let(VarId, Box<CExpr>, Box<CExpr>),
    Var(VarId),
    /// Binds the variable to the closure of the top-level function of the
    /// same name, with the values that the listed variables have here as
    /// its environment, in the body.
    MakeCls(VarId, Vec<VarId>, Box<CExpr>),
    /// A call through the closure that the variable holds.
    AppCls(VarId, Vec<VarId>),
    /// A call of the top-level function of that name.
    AppDir(VarId, Vec<VarId>),
    Tuple(Vec<VarId>),
    /// `let (xs) = y in body`
    LetTuple(Vec<VarId>, VarId, Box<CExpr>),
}

/// A top-level function.
#[derive(Debug)]
pub struct FunDef {
    /// The variable that names the function.
    pub name: VarId,
    /// The parameters. Those of a closure begin with the closure itself.
    pub params: Vec<VarId>,
    /// Whether the function is called through a closure.
    pub closure: bool,
    /// The free variables of the body that are neither the function, nor
    /// parameters, nor direct functions in scope, each once, in the order
    /// in which the body first uses them. For a closure they are its
    /// environment; a direct function reaches them as they are.
    pub fvs: Vec<VarId>,
    /// The type of what the function returns.
    pub ret_ty: Type,
    pub body: CExpr,
}

/// The model of an expression.
pub open spec fn cmodel(e: CExpr) -> CE
    decreases e,
{
    match e {
        CExpr::Unit => CE::Unit,
        CExpr::Bool(b) => CE::Bool(b),
        CExpr::Int(i) => CE::Int(i),
        CExpr::Float(f) => CE::Float(f),
        CExpr::Unary(op, a) => CE::Unary(op, a),
        CExpr::Binary(op, a, b) => CE::Binary(op, a, b),
        CExpr::Put(a, b, c) => CE::Put(a, b, c),
        CExpr::If(c, a, b) => CE::If(c, Box::new(cmodel(*a)), Box::new(cmodel(*b))),
        CExpr::Let(x, rhs, body) => CE::Let(x, Box::new(cmodel(*rhs)), Box::new(cmodel(*body))),
        CExpr::Var(x) => CE::Var(x),
        CExpr::MakeCls(f, fvs, body) => CE::MakeCls(f, fvs@, Box::new(cmodel(*body))),
        CExpr::AppCls(f, args) => CE::AppCls(f, args@),
        CExpr::AppDir(f, args) => CE::AppDir(f, args@),
        CExpr::Tuple(args) => CE::Tuple(args@),
        CExpr::LetTuple(xs, y, body) => CE::LetTuple(xs@, y, Box::new(cmodel(*body))),
    }
}

impl View for CExpr {
    type V = CE;

    open spec fn view(&self) -> CE {
        cmodel(*self)
    }
}

impl View for FunDef {
    type V = FunModel;

    open spec fn view(&self) -> FunModel {
        FunModel {
            name: self.name,
            params: self.params@,
            closure: self.closure,
            fvs: self.fvs@,
            ret: self.ret_ty@,
            body: self.body@,
        }
    }
}

/// The models of a list of top-level functions.
pub open spec fn funs_model(fs: Seq<FunDef>) -> Seq<FunModel> {
    Seq::new(fs.len(), |i: int| fs[i]@)
}

/// Whether `f` is used in `e` as a value: anywhere but as the function of
/// a call.
pub open spec fn value_use(f: u32, e: KE) -> bool
    decreases e,
{
    match e {
        KE::Unary(_, a) => a == f,
        KE::Binary(_, a, b) => a == f || b == f,
        KE::Put(a, b, c) => a == f || b == f || c == f,
        KE::If(c, a, b) => c == f || value_use(f, *a) || value_use(f, *b),
        KE::Let(x, rhs, body) => value_use(f, *rhs) || value_use(f, *body),
        KE::Var(x) => x == f,
        KE::LetRec(g, params, rhs, body) => value_use(f, *rhs) || value_use(f, *body),
        KE::App(g, args) => args.contains(f),
        KE::Tuple(args) => args.contains(f),
        KE::LetTuple(xs, y, body) => y == f || value_use(f, *body),
        _ => false,
    }
}

/// Whether the variable `v` is free in `e`. The name in a direct call is
/// the name of a top-level function, and no variable.
pub open spec fn free_in(v: u32, e: CE) -> bool
    decreases e,
{
    match e {
        CE::Unary(_, a) => a == v,
        CE::Binary(_, a, b) => a == v || b == v,
        CE::Put(a, b, c) => a == v || b == v || c == v,
        CE::If(c, a, b) => c == v || free_in(v, *a) || free_in(v, *b),
        CE::Let(x, rhs, body) => free_in(v, *rhs) || (v != x && free_in(v, *body)),
        CE::Var(x) => x == v,
        CE::MakeCls(f, fvs, body) => fvs.contains(v) || (v != f && free_in(v, *body)),
        CE::AppCls(f, args) => f == v || args.contains(v),
        CE::AppDir(f, args) => args.contains(v),
        CE::Tuple(args) => args.contains(v),
        CE::LetTuple(xs, y, body) => y == v || (!xs.contains(v) && free_in(v, *body)),
        _ => false,
    }
}

/// `acc`, with `x` at its end unless `x` is bound or already there.
pub open spec fn note(x: u32, bound: Seq<u32>, acc: Seq<u32>) -> Seq<u32> {
    if bound.contains(x) || acc.contains(x) {
        acc
    } else {
        acc.push(x)
    }
}

/// `acc`, with each of `vs[i..]` added in order.
pub open spec fn note_all(vs: Seq<u32>, i: nat, bound: Seq<u32>, acc: Seq<u32>) -> Seq<u32>
    decreases vs.len() - i,
{
    if i >= vs.len() {
        acc
    } else {
        note_all(vs, i + 1, bound, note(vs[i as int], bound, acc))
    }
}

/// `acc`, with the free variables of `e` that are not in `bound` added in
/// the order in which `e` first uses them.
pub open spec fn collect(e: CE, bound: Seq<u32>, acc: Seq<u32>) -> Seq<u32>
    decreases e,
{
    match e {
        CE::Unary(_, a) => note(a, bound, acc),
        CE::Binary(_, a, b) => note(b, bound, note(a, bound, acc)),
        CE::Put(a, b, c) => note(c, bound, note(b, bound, note(a, bound, acc))),
        CE::If(c, a, b) => collect(*b, bound, collect(*a, bound, note(c, bound, acc))),
        CE::Let(x, rhs, body) => collect(*body, bound.push(x), collect(*rhs, bound, acc)),
        CE::Var(x) => note(x, bound, acc),
        CE::MakeCls(f, fvs, body) => collect(*body, bound.push(f), note_all(fvs, 0, bound, acc)),
        CE::AppCls(f, args) => note_all(args, 0, bound, note(f, bound, acc)),
        CE::AppDir(f, args) => note_all(args, 0, bound, acc),
        CE::Tuple(args) => note_all(args, 0, bound, acc),
        CE::LetTuple(xs, y, body) => collect(*body, bound + xs, note(y, bound, acc)),
        _ => acc,
    }
}

/// What is bound in the body of the function `f` with parameters `params`,
/// where the direct functions `known` are in scope.
pub open spec fn bound_in(f: u32, params: Seq<u32>, known: Seq<u32>) -> Seq<u32> {
    seq![f] + params + known
}

/// The top-level function that the definition of `f` becomes.
pub open spec fn fun_of(
    f: u32,
    params: Seq<u32>,
    direct: bool,
    known: Seq<u32>,
    tys: Seq<Ty>,
    body: CE,
) -> FunModel {
    FunModel {
        name: f,
        params: if direct {
            params
        } else {
            seq![f] + params
        },
        closure: !direct,
        fvs: collect(body, bound_in(f, params, known), Seq::empty()),
        ret: ret_ty(get_type(tys, f)),
        body: body,
    }
}

/// The direct functions in scope after the definition of `f`.
pub open spec fn known_with(known: Seq<u32>, f: u32, direct: bool) -> Seq<u32> {
    if direct {
        known.push(f)
    } else {
        known
    }
}

/// The closure conversion of `e`, where the direct functions `known` are
/// in scope and `tys` gives the type of each variable: the top-level
/// functions `funs` with those of `e` after them, and `e` without its
/// function definitions.
pub open spec fn cc(known: Seq<u32>, tys: Seq<Ty>, funs: Seq<FunModel>, e: KE) -> (
    Seq<FunModel>,
    CE,
)
    decreases e,
{
    match e {
        KE::Unit => (funs, CE::Unit),
        KE::Bool(b) => (funs, CE::Bool(b)),
        KE::Int(i) => (funs, CE::Int(i)),
        KE::Float(f) => (funs, CE::Float(f)),
        KE::Unary(op, a) => (funs, CE::Unary(op, a)),
        KE::Binary(op, a, b) => (funs, CE::Binary(op, a, b)),
        KE::Put(a, b, c) => (funs, CE::Put(a, b, c)),
        KE::If(c, a, b) => {
            let (f1, ca) = cc(known, tys, funs, *a);
            let (f2, cb) = cc(known, tys, f1, *b);
            (f2, CE::If(c, Box::new(ca), Box::new(cb)))
        },
        KE::Let(x, rhs, body) => {
            let (f1, cr) = cc(known, tys, funs, *rhs);
            let (f2, cb) = cc(known, tys, f1, *body);
            (f2, CE::Let(x, Box::new(cr), Box::new(cb)))
        },
        KE::Var(x) => (funs, CE::Var(x)),
        KE::LetRec(f, params, rhs, body) => {
            let direct = !value_use(f, *body);
            let known1 = known_with(known, f, direct);
            let (f1, cr) = cc(known1, tys, funs, *rhs);
            let def = fun_of(f, params, direct, known1, tys, cr);
            let (f2, cb) = cc(known1, tys, f1.push(def), *body);
            if direct {
                (f2, cb)
            } else {
                (f2, CE::MakeCls(f, def.fvs, Box::new(cb)))
            }
        },
        KE::App(f, args) => if known.contains(f) {
            (funs, CE::AppDir(f, args))
        } else {
            (funs, CE::AppCls(f, args))
        },
        KE::Tuple(args) => (funs, CE::Tuple(args)),
        KE::LetTuple(xs, y, body) => {
            let (f1, cb) = cc(known, tys, funs, *body);
            (f1, CE::LetTuple(xs, y, Box::new(cb)))
        },
    }
}

/// The closure conversion of the program `e`: its top-level functions, and
/// its main expression.
pub open spec fn closure_convert_spec(tys: Seq<Ty>, e: KE) -> (Seq<FunModel>, CE) {
    cc(Seq::empty(), tys, Seq::empty(), e)
}

pub proof fn lemma_contains_push(s: Seq<u32>, x: u32, v: u32)
    ensures
        s.push(x).contains(v) <==> s.contains(v) || v == x,
{
    if s.contains(v) {
        let i = choose|i: int| 0 <= i < s.len() && s[i] == v;
        assert(s.push(x)[i] == v);
    }
    if v == x {
        assert(s.push(x)[s.len() as int] == v);
    }
    if s.push(x).contains(v) {
        let i = choose|i: int| 0 <= i < s.push(x).len() && s.push(x)[i] == v;
        if i < s.len() {
            assert(s[i] == v);
        }
    }
}

pub proof fn lemma_contains_add(s: Seq<u32>, t: Seq<u32>, v: u32)
    ensures
        (s + t).contains(v) <==> s.contains(v) || t.contains(v),
{
    if s.contains(v) {
        let i = choose|i: int| 0 <= i < s.len() && s[i] == v;
        assert((s + t)[i] == v);
    }
    if t.contains(v) {
        let i = choose|i: int| 0 <= i < t.len() && t[i] == v;
        assert((s + t)[s.len() + i] == v);
    }
    if (s + t).contains(v) {
        let i = choose|i: int| 0 <= i < (s + t).len() && (s + t)[i] == v;
        if i < s.len() {
            assert(s[i] == v);
        } else {
            assert(t[i - s.len()] == v);
        }
    }
}

proof fn lemma_note(x: u32, bound: Seq<u32>, acc: Seq<u32>, v: u32)
    ensures
        note(x, bound, acc).contains(v) <==> acc.contains(v) || (v == x && !bound.contains(v)),
{
    lemma_contains_push(acc, x, v);
}

/// Whether `v` is one of `vs[i..]`.
pub open spec fn among(vs: Seq<u32>, i: nat, v: u32) -> bool {
    exists|j: int| i <= j < vs.len() && vs[j] == v
}

proof fn lemma_note_all(vs: Seq<u32>, i: nat, bound: Seq<u32>, acc: Seq<u32>, v: u32)
    ensures
        note_all(vs, i, bound, acc).contains(v) <==> acc.contains(v) || (among(vs, i, v)
            && !bound.contains(v)),
    decreases vs.len() - i,
{
    if i < vs.len() {
        lemma_note(vs[i as int], bound, acc, v);
        lemma_note_all(vs, i + 1, bound, note(vs[i as int], bound, acc), v);
        if among(vs, i, v) {
            let j = choose|j: int| i <= j < vs.len() && vs[j] == v;
            if j > i {
                assert(among(vs, i + 1, v));
            }
        }
        if among(vs, i + 1, v) {
            let j = choose|j: int| i + 1 <= j < vs.len() && vs[j] == v;
            assert(i <= j < vs.len() && vs[j] == v);
        }
        if vs[i as int] == v {
            assert(i <= i < vs.len() && vs[i as int] == v);
        }
    }
}

proof fn lemma_among_all(vs: Seq<u32>, v: u32)
    ensures
        among(vs, 0, v) <==> vs.contains(v),
{
    if vs.contains(v) {
        let j = choose|j: int| 0 <= j < vs.len() && vs[j] == v;
        assert(0 <= j < vs.len() && vs[j] == v);
    }
    if among(vs, 0, v) {
        let j = choose|j: int| 0 <= j < vs.len() && vs[j] == v;
        assert(vs[j] == v);
    }
}

/// What `collect` gathers: what it had, and the free variables of the
/// expression that are not bound.
pub proof fn lemma_collect(e: CE, bound: Seq<u32>, acc: Seq<u32>, v: u32)
    ensures
        collect(e, bound, acc).contains(v) <==> acc.contains(v) || (free_in(v, e)
            && !bound.contains(v)),
    decreases e,
{
    match e {
        CE::Unary(_, a) => {
            lemma_note(a, bound, acc, v);
        },
        CE::Binary(_, a, b) => {
            lemma_note(a, bound, acc, v);
            lemma_note(b, bound, note(a, bound, acc), v);
        },
        CE::Put(a, b, c) => {
            lemma_note(a, bound, acc, v);
            lemma_note(b, bound, note(a, bound, acc), v);
            lemma_note(c, bound, note(b, bound, note(a, bound, acc)), v);
        },
        CE::If(c, a, b) => {
            lemma_note(c, bound, acc, v);
            lemma_collect(*a, bound, note(c, bound, acc), v);
            lemma_collect(*b, bound, collect(*a, bound, note(c, bound, acc)), v);
        },
        CE::Let(x, rhs, body) => {
            lemma_collect(*rhs, bound, acc, v);
            lemma_collect(*body, bound.push(x), collect(*rhs, bound, acc), v);
            lemma_contains_push(bound, x, v);
        },
        CE::Var(x) => {
            lemma_note(x, bound, acc, v);
        },
        CE::MakeCls(f, fvs, body) => {
            lemma_note_all(fvs, 0, bound, acc, v);
            lemma_among_all(fvs, v);
            lemma_collect(*body, bound.push(f), note_all(fvs, 0, bound, acc), v);
            lemma_contains_push(bound, f, v);
        },
        CE::AppCls(f, args) => {
            lemma_note(f, bound, acc, v);
            lemma_note_all(args, 0, bound, note(f, bound, acc), v);
            lemma_among_all(args, v);
        },
        CE::AppDir(f, args) => {
            lemma_note_all(args, 0, bound, acc, v);
            lemma_among_all(args, v);
        },
        CE::Tuple(args) => {
            lemma_note_all(args, 0, bound, acc, v);
            lemma_among_all(args, v);
        },
        CE::LetTuple(xs, y, body) => {
            lemma_note(y, bound, acc, v);
            lemma_collect(*body, bound + xs, note(y, bound, acc), v);
            lemma_contains_add(bound, xs, v);
        },
        _ => {},
    }
}

/// Whether `v` names one of the functions `funs[from..]`.
pub open spec fn names(funs: Seq<FunModel>, from: int, v: u32) -> bool {
    exists|j: int| from <= j < funs.len() && (#[trigger] funs[j]).name == v
}

/// Every free variable of the body of `g` is a parameter of `g`, one of
/// its listed free variables, a direct function of `known`, or one of the
/// functions `funs[from..]`.
pub open spec fn closed(g: FunModel, known: Seq<u32>, funs: Seq<FunModel>, from: int) -> bool {
    forall|v: u32| #[trigger]
        free_in(v, g.body) ==> g.params.contains(v) || g.fvs.contains(v) || known.contains(v)
            || names(funs, from, v)
}

/// `r` is `funs` with closed functions after them.
pub open spec fn adds_closed(known: Seq<u32>, funs: Seq<FunModel>, r: Seq<FunModel>) -> bool {
    &&& funs.len() <= r.len()
    &&& r.subrange(0, funs.len() as int) == funs
    &&& forall|i: int|
        funs.len() <= i < r.len() ==> closed(#[trigger] r[i], known, r, funs.len() as int)
}

proof fn lemma_adds_closed_trans(
    known: Seq<u32>,
    funs: Seq<FunModel>,
    f1: Seq<FunModel>,
    r: Seq<FunModel>,
)
    requires
        adds_closed(known, funs, f1),
        adds_closed(known, f1, r),
    ensures
        adds_closed(known, funs, r),
{
    let n0 = funs.len() as int;
    let n1 = f1.len() as int;
    assert(r.subrange(0, n0) =~= funs) by {
        assert forall|i: int| 0 <= i < n0 implies r.subrange(0, n0)[i] == funs[i] by {
            assert(r[i] == r.subrange(0, n1)[i]);
            assert(f1[i] == f1.subrange(0, n0)[i]);
        }
    }
    assert forall|i: int| n0 <= i < r.len() implies closed(#[trigger] r[i], known, r, n0) by {
        assert forall|v: u32| #[trigger] free_in(v, r[i].body) implies r[i].params.contains(v)
            || r[i].fvs.contains(v) || known.contains(v) || names(r, n0, v) by {
            if i < n1 {
                assert(r[i] == r.subrange(0, n1)[i]);
                assert(closed(f1[i], known, f1, n0));
                if names(f1, n0, v) {
                    let j = choose|j: int| n0 <= j < f1.len() && (#[trigger] f1[j]).name == v;
                    assert(r[j] == r.subrange(0, n1)[j]);
                    assert(r[j].name == v);
                }
            } else {
                assert(closed(r[i], known, r, n1));
                if names(r, n1, v) {
                    let j = choose|j: int| n1 <= j < r.len() && (#[trigger] r[j]).name == v;
                    assert(r[j].name == v);
                }
            }
        }
    }
}

/// Closure conversion keeps the functions it was given and adds closed
/// functions after them.
pub proof fn lemma_cc_closed(known: Seq<u32>, tys: Seq<Ty>, funs: Seq<FunModel>, e: KE)
    ensures
        adds_closed(known, funs, cc(known, tys, funs, e).0),
    decreases e,
{
    let r = cc(known, tys, funs, e).0;
    let n0 = funs.len() as int;
    match e {
        KE::If(c, a, b) => {
            let f1 = cc(known, tys, funs, *a).0;
            lemma_cc_closed(known, tys, funs, *a);
            lemma_cc_closed(known, tys, f1, *b);
            lemma_adds_closed_trans(known, funs, f1, r);
        },
        KE::Let(x, rhs, body) => {
            let f1 = cc(known, tys, funs, *rhs).0;
            lemma_cc_closed(known, tys, funs, *rhs);
            lemma_cc_closed(known, tys, f1, *body);
            lemma_adds_closed_trans(known, funs, f1, r);
        },
        KE::LetRec(f, params, rhs, body) => {
            let direct = !value_use(f, *body);
            let known1 = known_with(known, f, direct);
            let (f1, cr) = cc(known1, tys, funs, *rhs);
            let def = fun_of(f, params, direct, known1, tys, cr);
            let n1 = f1.len() as int;
            lemma_cc_closed(known1, tys, funs, *rhs);
            lemma_cc_closed(known1, tys, f1.push(def), *body);
            assert(r.subrange(0, n1 + 1) == f1.push(def));
            assert(r[n1] == r.subrange(0, n1 + 1)[n1]);
            assert(r[n1].name == f);
            assert(names(r, n0, f));
            assert(r.subrange(0, n0) =~= funs) by {
                assert forall|i: int| 0 <= i < n0 implies r.subrange(0, n0)[i] == funs[i] by {
                    assert(r[i] == r.subrange(0, n1 + 1)[i]);
                    assert(f1[i] == f1.subrange(0, n0)[i]);
                }
            }
            assert forall|i: int| n0 <= i < r.len() implies closed(#[trigger] r[i], known, r, n0) by {
                assert forall|v: u32| #[trigger] free_in(v, r[i].body) implies r[i].params.contains(
                    v,
                ) || r[i].fvs.contains(v) || known.contains(v) || names(r, n0, v) by {
                    if known1.contains(v) && !known.contains(v) {
                        lemma_contains_push(known, f, v);
                    }
                    if i < n1 {
                        assert(r[i] == r.subrange(0, n1 + 1)[i]);
                        assert(r[i] == f1[i]);
                        assert(closed(f1[i], known1, f1, n0));
                        if names(f1, n0, v) {
                            let j = choose|j: int| n0 <= j < f1.len() && (#[trigger] f1[j]).name == v;
                            assert(r[j] == r.subrange(0, n1 + 1)[j]);
                            assert(r[j].name == v);
                        }
                    } else if i == n1 {
                        lemma_collect(cr, bound_in(f, params, known1), Seq::empty(), v);
                        lemma_contains_add(seq![f] + params, known1, v);
                        lemma_contains_add(seq![f], params, v);
                        if seq![f].contains(v) {
                            assert(v == f);
                        }
                    } else {
                        assert(closed(r[i], known1, r, n1 + 1));
                        if names(r, n1 + 1, v) {
                            let j = choose|j: int| n1 + 1 <= j < r.len() && (#[trigger] r[j]).name == v;
                            assert(r[j].name == v);
                        }
                    }
                }
            }
        },
        KE::LetTuple(xs, y, body) => {
            lemma_cc_closed(known, tys, funs, *body);
        },
        _ => {
            assert(r.subrange(0, n0) =~= funs);
        },
    }
}

/// The free variables of the body of every top-level function of a
/// program are among its parameters, its listed free variables and the
/// names of the top-level functions.
pub proof fn lemma_functions_closed(tys: Seq<Ty>, e: KE, i: int, v: u32)
    requires
        0 <= i < closure_convert_spec(tys, e).0.len(),
        free_in(v, closure_convert_spec(tys, e).0[i].body),
    ensures
        ({
            let funs = closure_convert_spec(tys, e).0;
            funs[i].params.contains(v) || funs[i].fvs.contains(v) || names(funs, 0, v)
        }),
{
    let funs = closure_convert_spec(tys, e).0;
    lemma_cc_closed(Seq::empty(), tys, Seq::empty(), e);
    assert(closed(funs[i], Seq::empty(), funs, 0));
}

/// A function whose name is used only to call it, after its definition,
/// becomes a direct function: a top-level function with the parameters it
/// had, and nothing is left at the place of its definition. A function
/// whose name is used there as a value becomes a closure: a top-level
/// function that takes the closure as its first parameter, and a closure
/// is made at the place of its definition.
pub proof fn lemma_direct_or_closure(
    known: Seq<u32>,
    tys: Seq<Ty>,
    funs: Seq<FunModel>,
    f: u32,
    params: Seq<u32>,
    rhs: KE,
    body: KE,
)
    ensures
        ({
            let r = cc(known, tys, funs, KE::LetRec(f, params, Box::new(rhs), Box::new(body)));
            let at = cc(known_with(known, f, !value_use(f, body)), tys, funs, rhs).0.len() as int;
            &&& at < r.0.len()
            &&& r.0[at].name == f
            &&& r.0[at].closure == value_use(f, body)
            &&& !value_use(f, body) ==> r.0[at].params == params && r.1 == cc(
                known.push(f),
                tys,
                r.0.subrange(0, at + 1),
                body,
            ).1
            &&& value_use(f, body) ==> r.0[at].params == seq![f] + params && r.1 is MakeCls
                && r.1->MakeCls_0 == f && r.1->MakeCls_1 == r.0[at].fvs
        }),
{
    let direct = !value_use(f, body);
    let known1 = known_with(known, f, direct);
    let (f1, cr) = cc(known1, tys, funs, rhs);
    let def = fun_of(f, params, direct, known1, tys, cr);
    let r = cc(known, tys, funs, KE::LetRec(f, params, Box::new(rhs), Box::new(body)));
    lemma_cc_closed(known1, tys, f1.push(def), body);
    let at = f1.len() as int;
    assert(r.0.subrange(0, at + 1) == f1.push(def));
    assert(r.0[at] == r.0.subrange(0, at + 1)[at]);
}

/// Structural equality of two expressions.
pub fn cexpr_eq(a: &CExpr, b: &CExpr) -> (r: bool)
    ensures
        r == (a@ == b@),
    decreases a,
{
    match (a, b) {
        (CExpr::Unit, CExpr::Unit) => true,
        (CExpr::Bool(x), CExpr::Bool(y)) => *x == *y,
        (CExpr::Int(x), CExpr::Int(y)) => *x == *y,
        (CExpr::Float(x), CExpr::Float(y)) => *x == *y,
        (CExpr::Unary(o1, a1), CExpr::Unary(o2, a2)) => *o1 == *o2 && *a1 == *a2,
        (CExpr::Binary(o1, a1, b1), CExpr::Binary(o2, a2, b2)) => *o1 == *o2 && *a1 == *a2 && *b1
            == *b2,
        (CExpr::Put(a1, b1, c1), CExpr::Put(a2, b2, c2)) => *a1 == *a2 && *b1 == *b2 && *c1
            == *c2,
        (CExpr::If(c1, a1, b1), CExpr::If(c2, a2, b2)) => *c1 == *c2 && cexpr_eq(a1, a2)
            && cexpr_eq(b1, b2),
        (CExpr::Let(x1, r1, b1), CExpr::Let(x2, r2, b2)) => *x1 == *x2 && cexpr_eq(r1, r2)
            && cexpr_eq(b1, b2),
        (CExpr::Var(x), CExpr::Var(y)) => *x == *y,
        (CExpr::MakeCls(f1, v1, b1), CExpr::MakeCls(f2, v2, b2)) => *f1 == *f2 && ids_eq(v1, v2)
            && cexpr_eq(b1, b2),
        (CExpr::AppCls(f1, a1), CExpr::AppCls(f2, a2)) => *f1 == *f2 && ids_eq(a1, a2),
        (CExpr::AppDir(f1, a1), CExpr::AppDir(f2, a2)) => *f1 == *f2 && ids_eq(a1, a2),
        (CExpr::Tuple(a1), CExpr::Tuple(a2)) => ids_eq(a1, a2),
        (CExpr::LetTuple(x1, y1, b1), CExpr::LetTuple(x2, y2, b2)) => ids_eq(x1, x2) && *y1
            == *y2 && cexpr_eq(b1, b2),
        _ => false,
    }
}

impl PartialEq for CExpr {
    fn eq(&self, other: &Self) -> (r: bool) {
        cexpr_eq(self, other)
    }
}

impl Eq for CExpr {

}

impl vstd::std_specs::cmp::PartialEqSpecImpl for CExpr {
    open spec fn obeys_eq_spec() -> bool {
        true
    }

    open spec fn eq_spec(&self, other: &Self) -> bool {
        self@ == other@
    }
}

impl PartialEq for FunDef {
    fn eq(&self, other: &Self) -> (r: bool) {
        self.name == other.name && ids_eq(&self.params, &other.params) && self.closure
            == other.closure && ids_eq(&self.fvs, &other.fvs) && type_eq(
            &self.ret_ty,
            &other.ret_ty,
        ) && cexpr_eq(&self.body, &other.body)
    }
}

impl Eq for FunDef {

}

impl vstd::std_specs::cmp::PartialEqSpecImpl for FunDef {
    open spec fn obeys_eq_spec() -> bool {
        true
    }

    open spec fn eq_spec(&self, other: &Self) -> bool {
        self@ == other@
    }
}

/// Whether `x` is in the list `v`.
pub fn contains_id(v: &Vec<VarId>, x: VarId) -> (r: bool)
    ensures
        r == v@.contains(x),
{
    let mut i: usize = 0;
    while i < v.len()
        invariant
            i <= v.len(),
            forall|j: int| 0 <= j < i ==> v@[j] != x,
        decreases v.len() - i,
    {
        if v[i] == x {
            return true;
        }
        i += 1;
    }
    false
}

fn copy_ids(v: &Vec<VarId>) -> (r: Vec<VarId>)
    ensures
        r@ == v@,
{
    let mut out: Vec<VarId> = Vec::new();
    let mut i: usize = 0;
    while i < v.len()
        invariant
            i <= v.len(),
            out@ == v@.subrange(0, i as int),
        decreases v.len() - i,
    {
        out.push(v[i]);
        i += 1;
        assert(out@ =~= v@.subrange(0, i as int));
    }
    assert(v@.subrange(0, v@.len() as int) =~= v@);
    out
}

fn append_ids(dst: &mut Vec<VarId>, src: &Vec<VarId>)
    ensures
        final(dst)@ == old(dst)@ + src@,
{
    let mut i: usize = 0;
    assert(dst@ =~= old(dst)@ + src@.subrange(0, 0));
    while i < src.len()
        invariant
            i <= src.len(),
            dst@ == old(dst)@ + src@.subrange(0, i as int),
        decreases src.len() - i,
    {
        dst.push(src[i]);
        i += 1;
        assert(dst@ =~= old(dst)@ + src@.subrange(0, i as int));
    }
    assert(src@.subrange(0, src@.len() as int) =~= src@);
}

/// Whether `f` is used in `e` as a value.
pub fn is_value_use(f: VarId, e: &KExpr) -> (r: bool)
    ensures
        r == value_use(f, e@),
    decreases e,
{
    match e {
        KExpr::Unary(_, a) => *a == f,
        KExpr::Binary(_, a, b) => *a == f || *b == f,
        KExpr::Put(a, b, c) => *a == f || *b == f || *c == f,
        KExpr::If(c, a, b) => *c == f || is_value_use(f, a) || is_value_use(f, b),
        KExpr::Let(x, rhs, body) => is_value_use(f, rhs) || is_value_use(f, body),
        KExpr::Var(x) => *x == f,
        KExpr::LetRec(g, params, rhs, body) => is_value_use(f, rhs) || is_value_use(f, body),
        KExpr::App(g, args) => contains_id(args, f),
        KExpr::Tuple(args) => contains_id(args, f),
        KExpr::LetTuple(xs, y, body) => *y == f || is_value_use(f, body),
        _ => false,
    }
}

fn note_id(x: VarId, bound: &Vec<VarId>, acc: &mut Vec<VarId>)
    ensures
        final(acc)@ == note(x, bound@, old(acc)@),
{
    if !contains_id(bound, x) && !contains_id(acc, x) {
        acc.push(x);
    }
}

fn note_ids(vs: &Vec<VarId>, bound: &Vec<VarId>, acc: &mut Vec<VarId>)
    ensures
        final(acc)@ == note_all(vs@, 0, bound@, old(acc)@),
{
    let mut i: usize = 0;
    while i < vs.len()
        invariant
            i <= vs.len(),
            note_all(vs@, 0, bound@, old(acc)@) == note_all(vs@, i as nat, bound@, acc@),
        decreases vs.len() - i,
    {
        note_id(vs[i], bound, acc);
        i += 1;
    }
}

fn collect_free(e: &CExpr, bound: &mut Vec<VarId>, acc: &mut Vec<VarId>)
    ensures
        final(acc)@ == collect(e@, old(bound)@, old(acc)@),
        final(bound)@ == old(bound)@,
    decreases e,
{
    match e {
        CExpr::Unary(_, a) => {
            note_id(*a, bound, acc);
        },
        CExpr::Binary(_, a, b) => {
            note_id(*a, bound, acc);
            note_id(*b, bound, acc);
        },
        CExpr::Put(a, b, c) => {
            note_id(*a, bound, acc);
            note_id(*b, bound, acc);
            note_id(*c, bound, acc);
        },
        CExpr::If(c, a, b) => {
            note_id(*c, bound, acc);
            collect_free(a, bound, acc);
            collect_free(b, bound, acc);
        },
        CExpr::Let(x, rhs, body) => {
            collect_free(rhs, bound, acc);
            let depth = bound.len();
            bound.push(*x);
            collect_free(body, bound, acc);
            bound.truncate(depth);
            assert(bound@ =~= old(bound)@);
        },
        CExpr::Var(x) => {
            note_id(*x, bound, acc);
        },
        CExpr::MakeCls(f, fvs, body) => {
            note_ids(fvs, bound, acc);
            let depth = bound.len();
            bound.push(*f);
            collect_free(body, bound, acc);
            bound.truncate(depth);
            assert(bound@ =~= old(bound)@);
        },
        CExpr::AppCls(f, args) => {
            note_id(*f, bound, acc);
            note_ids(args, bound, acc);
        },
        CExpr::AppDir(f, args) => {
            note_ids(args, bound, acc);
        },
        CExpr::Tuple(args) => {
            note_ids(args, bound, acc);
        },
        CExpr::LetTuple(xs, y, body) => {
            note_id(*y, bound, acc);
            let depth = bound.len();
            append_ids(bound, xs);
            collect_free(body, bound, acc);
            bound.truncate(depth);
            assert(bound@ =~= old(bound)@);
        },
        _ => {},
    }
}

fn convert(known: &mut Vec<VarId>, tys: &Vec<Type>, funs: &mut Vec<FunDef>, e: KExpr) -> (r: CExpr)
    ensures
        (funs_model(final(funs)@), r@) == cc(
            old(known)@,
            model_seq(tys@),
            funs_model(old(funs)@),
            e@,
        ),
        final(known)@ == old(known)@,
    decreases e,
{
    match e {
        KExpr::Unit => CExpr::Unit,
        KExpr::Bool(b) => CExpr::Bool(b),
        KExpr::Int(i) => CExpr::Int(i),
        KExpr::Float(f) => CExpr::Float(f),
        KExpr::Unary(op, a) => CExpr::Unary(op, a),
        KExpr::Binary(op, a, b) => CExpr::Binary(op, a, b),
        KExpr::Put(a, b, c) => CExpr::Put(a, b, c),
        KExpr::If(c, a, b) => {
            let ca = convert(known, tys, funs, *a);
            let cb = convert(known, tys, funs, *b);
            CExpr::If(c, Box::new(ca), Box::new(cb))
        },
        KExpr::Let(x, rhs, body) => {
            let cr = convert(known, tys, funs, *rhs);
            let cb = convert(known, tys, funs, *body);
            CExpr::Let(x, Box::new(cr), Box::new(cb))
        },
        KExpr::Var(x) => CExpr::Var(x),
        KExpr::LetRec(f, params, rhs, body) => {
            let direct = !is_value_use(f, &body);
            let depth = known.len();
            if direct {
                known.push(f);
            }
            let ghost known1 = known@;
            let cr = convert(known, tys, funs, *rhs);
            let mut bound: Vec<VarId> = Vec::new();
            bound.push(f);
            append_ids(&mut bound, &params);
            append_ids(&mut bound, known);
            assert(bound@ =~= bound_in(f, params@, known1));
            let mut fvs: Vec<VarId> = Vec::new();
            collect_free(&cr, &mut bound, &mut fvs);
            let fun_params = if direct {
                params
            } else {
                let mut with_self: Vec<VarId> = Vec::new();
                with_self.push(f);
                append_ids(&mut with_self, &params);
                assert(with_self@ =~= seq![f] + params@);
                with_self
            };
            let def = FunDef {
                name: f,
                params: fun_params,
                closure: !direct,
                fvs: copy_ids(&fvs),
                ret_ty: ret_type(type_of(tys, f)),
                body: cr,
            };
            let ghost before = funs_model(funs@);
            assert(def@ == fun_of(f, params@, direct, known1, model_seq(tys@), cr@));
            funs.push(def);
            assert(funs_model(funs@) =~= before.push(def@));
            let cb = convert(known, tys, funs, *body);
            known.truncate(depth);
            assert(known@ =~= old(known)@);
            if direct {
                cb
            } else {
                CExpr::MakeCls(f, fvs, Box::new(cb))
            }
        },
        KExpr::App(f, args) => if contains_id(known, f) {
            CExpr::AppDir(f, args)
        } else {
            CExpr::AppCls(f, args)
        },
        KExpr::Tuple(args) => CExpr::Tuple(args),
        KExpr::LetTuple(xs, y, body) => {
            let cb = convert(known, tys, funs, *body);
            CExpr::LetTuple(xs, y, Box::new(cb))
        },
    }
}

/// Every free variable of the body of every function of `funs` is one of
/// its parameters, one of its listed free variables, or the name of a
/// function of `funs`.
pub open spec fn all_closed(funs: Seq<FunModel>) -> bool {
    forall|i: int, v: u32|
        0 <= i < funs.len() && #[trigger] free_in(v, funs[i].body) ==> funs[i].params.contains(v)
            || funs[i].fvs.contains(v) || names(funs, 0, v)
}

/// Closure-converts the program `expr`, which is in K-normal form, where
/// `tys` gives the type of each variable: the top-level functions that its
/// function definitions become, each after those defined inside it and
/// before those defined after it, and the main expression. The body of no
/// top-level function has a free variable that is not a parameter of the
/// function, one of its listed free variables or the name of a top-level
/// function.
pub fn closure_convert(expr: KExpr, tys: &Vec<Type>) -> (r: (Vec<FunDef>, CExpr))
    ensures
        (funs_model(r.0@), r.1@) == closure_convert_spec(model_seq(tys@), expr@),
        all_closed(funs_model(r.0@)),
{
    let mut known: Vec<VarId> = Vec::new();
    let mut funs: Vec<FunDef> = Vec::new();
    assert(funs_model(funs@) =~= Seq::<FunModel>::empty());
    let main = convert(&mut known, tys, &mut funs, expr);
    proof {
        let fm = funs_model(funs@);
        assert forall|i: int, v: u32| 0 <= i < fm.len() && #[trigger] free_in(
            v,
            fm[i].body,
        ) implies fm[i].params.contains(v) || fm[i].fvs.contains(v) || names(fm, 0, v) by {
            lemma_functions_closed(model_seq(tys@), expr@, i, v);
        }
    }
    (funs, main)
}

} // verus!

//! What a program in K-normal form evaluates to, and that A-normalization
//! does not change it.
//!
//! The evaluation is by steps counted down from a given number, so that it
//! is defined for programs that do not end, too. What the operations of the
//! language compute, and what a call of a value that is no closure does, is
//! left open: the machine that evaluates is given them as functions.

use vstd::prelude::*;
use crate::anormal::{anf, hoist};
use crate::knormal::{Bind, BinOp, KE, UnOp, assemble, wrap};

verus! {

/// A value.
pub enum Val {
    Unit,
    Bool(bool),
    Int(i64),
    /// A float, as the bits of its IEEE 754 double.
    Float(u64),
    Tuple(Seq<Val>),
    /// An array, by its place in the store.
    Array(nat),
    /// The closure of the function of that name, with the values of the
    /// free variables of the function.
    Closure(u32, Map<u32, Val>),
    /// A value from outside the program.
    Outside(u32),
}

/// The store: what the arrays hold, and whatever else the operations of
/// the machine keep.
pub type Store = Seq<Seq<Val>>;

/// The parameters and the body of a function.
pub struct Code {
    pub params: Seq<u32>,
    pub body: KE,
}

/// The machine that evaluates: the code of the functions by their names,
/// and what the operations compute from the values of their operands and
/// the store; `None` where an operation cannot be applied.
pub struct Machine {
    pub code: Map<u32, Code>,
    pub unary: spec_fn(UnOp, Val, Store) -> Option<(Val, Store)>,
    pub binary: spec_fn(BinOp, Val, Val, Store) -> Option<(Val, Store)>,
    pub put: spec_fn(Val, Val, Val, Store) -> Option<(Val, Store)>,
    pub outside: spec_fn(Val, Seq<Val>, Store) -> Option<(Val, Store)>,
}

/// Whether the variable `v` is free in `e`.
pub open spec fn kfree(v: u32, e: KE) -> bool
    decreases e,
{
    match e {
        KE::Unary(_, a) => a == v,
        KE::Binary(_, a, b) => a == v || b == v,
        KE::Put(a, b, c) => a == v || b == v || c == v,
        KE::If(c, a, b) => c == v || kfree(v, *a) || kfree(v, *b),
        KE::Let(x, rhs, body) => kfree(v, *rhs) || (v != x && kfree(v, *body)),
        KE::Var(x) => x == v,
        KE::LetRec(f, params, rhs, body) => (v != f && !params.contains(v) && kfree(v, *rhs)) || (
        v != f && kfree(v, *body)),
        KE::App(f, args) => f == v || args.contains(v),
        KE::Tuple(args) => args.contains(v),
        KE::LetTuple(xs, y, body) => y == v || (!xs.contains(v) && kfree(v, *body)),
        _ => false,
    }
}

/// The values that `env` has for the free variables of the function `f`
/// with parameters `params` and body `rhs`.
pub open spec fn capture(env: Map<u32, Val>, f: u32, params: Seq<u32>, rhs: KE) -> Map<
    u32,
    Val,
> {
    Map::new(
        |v: u32| env.dom().contains(v) && v != f && !params.contains(v) && kfree(v, rhs),
        |v: u32| env[v],
    )
}

/// The values of the variables `xs`, if each has one.
pub open spec fn values(env: Map<u32, Val>, xs: Seq<u32>) -> Option<Seq<Val>> {
    if forall|i: int| 0 <= i < xs.len() ==> env.dom().contains(#[trigger] xs[i]) {
        Some(Seq::new(xs.len(), |i: int| env[xs[i]]))
    } else {
        None
    }
}

/// `env` with the first `n` of the variables `xs` bound to the values at
/// their indices in `vs`, later ones over earlier ones.
pub open spec fn bind_all(env: Map<u32, Val>, xs: Seq<u32>, vs: Seq<Val>, n: nat) -> Map<
    u32,
    Val,
>
    decreases n,
{
    if n == 0 {
        env
    } else {
        bind_all(env, xs, vs, (n - 1) as nat).insert(xs[n - 1], vs[n - 1])
    }
}

/// What `e` evaluates to in `fuel` calls or fewer, where the variables have
/// the values of `env` and the store is `w`: the value and the store after
/// it; `None` where the evaluation goes wrong, or takes more calls.
pub open spec fn eval(m: Machine, fuel: nat, env: Map<u32, Val>, w: Store, e: KE) -> Option<
    (Val, Store),
>
    decreases fuel, e,
{
    match e {
        KE::Unit => Some((Val::Unit, w)),
        KE::Bool(b) => Some((Val::Bool(b), w)),
        KE::Int(i) => Some((Val::Int(i), w)),
        KE::Float(f) => Some((Val::Float(f), w)),
        KE::Unary(op, a) => if env.dom().contains(a) {
            (m.unary)(op, env[a], w)
        } else {
            None
        },
        KE::Binary(op, a, b) => if env.dom().contains(a) && env.dom().contains(b) {
            (m.binary)(op, env[a], env[b], w)
        } else {
            None
        },
        KE::Put(a, b, c) => if env.dom().contains(a) && env.dom().contains(b)
            && env.dom().contains(c) {
            (m.put)(env[a], env[b], env[c], w)
        } else {
            None
        },
        KE::If(c, a, b) => if env.dom().contains(c) {
            match env[c] {
                Val::Bool(t) => if t {
                    eval(m, fuel, env, w, *a)
                } else {
                    eval(m, fuel, env, w, *b)
                },
                _ => None,
            }
        } else {
            None
        },
        KE::Let(x, rhs, body) => match eval(m, fuel, env, w, *rhs) {
            None => None,
            Some((v, w1)) => eval(m, fuel, env.insert(x, v), w1, *body),
        },
        KE::Var(x) => if env.dom().contains(x) {
            Some((env[x], w))
        } else {
            None
        },
        KE::LetRec(f, params, rhs, body) => eval(
            m,
            fuel,
            env.insert(f, Val::Closure(f, capture(env, f, params, *rhs))),
            w,
            *body,
        ),
        KE::App(g, args) => if env.dom().contains(g) {
            match values(env, args) {
                None => None,
                Some(vs) => match env[g] {
                    Val::Closure(f, held) => if fuel > 0 && m.code.dom().contains(f)
                        && m.code[f].params.len() == vs.len() {
                        eval(
                            m,
                            (fuel - 1) as nat,
                            bind_all(held.insert(f, env[g]), m.code[f].params, vs, vs.len()),
                            w,
                            m.code[f].body,
                        )
                    } else {
                        None
                    },
                    other => (m.outside)(other, vs, w),
                },
            }
        } else {
            None
        },
        KE::Tuple(args) => match values(env, args) {
            None => None,
            Some(vs) => Some((Val::Tuple(vs), w)),
        },
        KE::LetTuple(xs, y, body) => if env.dom().contains(y) {
            match env[y] {
                Val::Tuple(vs) => if vs.len() == xs.len() {
                    eval(m, fuel, bind_all(env, xs, vs, xs.len()), w, *body)
                } else {
                    None
                },
                _ => None,
            }
        } else {
            None
        },
    }
}

/// Whether `env1` and `env2` say the same of the variable `v`.
pub open spec fn same_at(env1: Map<u32, Val>, env2: Map<u32, Val>, v: u32) -> bool {
    &&& env1.dom().contains(v) == env2.dom().contains(v)
    &&& env1.dom().contains(v) ==> env1[v] == env2[v]
}

/// Whether `env1` and `env2` say the same of every free variable of `e`.
pub open spec fn agree(env1: Map<u32, Val>, env2: Map<u32, Val>, e: KE) -> bool {
    forall|v: u32| #[trigger] kfree(v, e) ==> same_at(env1, env2, v)
}

/// Whether `u` is one of the first `n` of `xs`.
pub open spec fn among_first(xs: Seq<u32>, n: nat, u: u32) -> bool {
    exists|i: int| 0 <= i < n && i < xs.len() && xs[i] == u
}

proof fn lemma_bind_all_same(
    env1: Map<u32, Val>,
    env2: Map<u32, Val>,
    xs: Seq<u32>,
    vs: Seq<Val>,
    n: nat,
    u: u32,
)
    requires
        n <= xs.len(),
        among_first(xs, n, u) || same_at(env1, env2, u),
    ensures
        same_at(bind_all(env1, xs, vs, n), bind_all(env2, xs, vs, n), u),
    decreases n,
{
    if n > 0 {
        if xs[n - 1] != u {
            if among_first(xs, n, u) {
                let i = choose|i: int| 0 <= i < n && i < xs.len() && xs[i] == u;
                assert(0 <= i < n - 1 && i < xs.len() && xs[i] == u);
                assert(among_first(xs, (n - 1) as nat, u));
            }
            lemma_bind_all_same(env1, env2, xs, vs, (n - 1) as nat, u);
        }
    }
}

proof fn lemma_values_same(env1: Map<u32, Val>, env2: Map<u32, Val>, xs: Seq<u32>)
    requires
        forall|i: int| 0 <= i < xs.len() ==> same_at(env1, env2, #[trigger] xs[i]),
    ensures
        values(env1, xs) == values(env2, xs),
{
    if values(env1, xs) is Some {
        assert(values(env1, xs)->Some_0 =~= values(env2, xs)->Some_0);
    }
}

/// The evaluation of an expression looks only at its free variables.
pub proof fn lemma_eval_agree(
    m: Machine,
    fuel: nat,
    env1: Map<u32, Val>,
    env2: Map<u32, Val>,
    w: Store,
    e: KE,
)
    requires
        agree(env1, env2, e),
    ensures
        eval(m, fuel, env1, w, e) == eval(m, fuel, env2, w, e),
    decreases e,
{
    match e {
        KE::Unary(op, a) => {
            assert(kfree(a, e));
        },
        KE::Binary(op, a, b) => {
            assert(kfree(a, e) && kfree(b, e));
        },
        KE::Put(a, b, c) => {
            assert(kfree(a, e) && kfree(b, e) && kfree(c, e));
        },
        KE::If(c, a, b) => {
            assert(kfree(c, e));
            assert forall|v: u32| #[trigger] kfree(v, *a) implies same_at(env1, env2, v) by {
                assert(kfree(v, e));
            }
            assert forall|v: u32| #[trigger] kfree(v, *b) implies same_at(env1, env2, v) by {
                assert(kfree(v, e));
            }
            lemma_eval_agree(m, fuel, env1, env2, w, *a);
            lemma_eval_agree(m, fuel, env1, env2, w, *b);
        },
        KE::Let(x, rhs, body) => {
            assert forall|v: u32| #[trigger] kfree(v, *rhs) implies same_at(env1, env2, v) by {
                assert(kfree(v, e));
            }
            lemma_eval_agree(m, fuel, env1, env2, w, *rhs);
            if eval(m, fuel, env1, w, *rhs) is Some {
                let (v1, w1) = eval(m, fuel, env1, w, *rhs)->Some_0;
                assert forall|v: u32| #[trigger] kfree(v, *body) implies same_at(
                    env1.insert(x, v1),
                    env2.insert(x, v1),
                    v,
                ) by {
                    if v != x {
                        assert(kfree(v, e));
                    }
                }
                lemma_eval_agree(m, fuel, env1.insert(x, v1), env2.insert(x, v1), w1, *body);
            }
        },
        KE::Var(x) => {
            assert(kfree(x, e));
        },
        KE::LetRec(f, params, rhs, body) => {
            assert forall|v: u32|
                v != f && !params.contains(v) && kfree(v, *rhs) implies same_at(env1, env2, v) by {
                assert(kfree(v, e));
            }
            assert(capture(env1, f, params, *rhs) =~= capture(env2, f, params, *rhs));
            let c = Val::Closure(f, capture(env1, f, params, *rhs));
            assert forall|v: u32| #[trigger] kfree(v, *body) implies same_at(
                env1.insert(f, c),
                env2.insert(f, c),
                v,
            ) by {
                if v != f {
                    assert(kfree(v, e));
                }
            }
            lemma_eval_agree(m, fuel, env1.insert(f, c), env2.insert(f, c), w, *body);
        },
        KE::App(g, args) => {
            assert(kfree(g, e));
            assert forall|i: int| 0 <= i < args.len() implies same_at(
                env1,
                env2,
                #[trigger] args[i],
            ) by {
                assert(args.contains(args[i]));
                assert(kfree(args[i], e));
            }
            lemma_values_same(env1, env2, args);
        },
        KE::Tuple(args) => {
            assert forall|i: int| 0 <= i < args.len() implies same_at(
                env1,
                env2,
                #[trigger] args[i],
            ) by {
                assert(args.contains(args[i]));
                assert(kfree(args[i], e));
            }
            lemma_values_same(env1, env2, args);
        },
        KE::LetTuple(xs, y, body) => {
            assert(kfree(y, e));
            if env1.dom().contains(y) {
                match env1[y] {
                    Val::Tuple(vs) => {
                        if vs.len() == xs.len() {
                            let b1 = bind_all(env1, xs, vs, xs.len());
                            let b2 = bind_all(env2, xs, vs, xs.len());
                            assert forall|v: u32| #[trigger] kfree(v, *body) implies same_at(
                                b1,
                                b2,
                                v,
                            ) by {
                                if xs.contains(v) {
                                    let i = choose|i: int| 0 <= i < xs.len() && xs[i] == v;
                                    assert(0 <= i < xs.len() && i < xs.len() && xs[i] == v);
                                    assert(among_first(xs, xs.len(), v));
                                } else {
                                    assert(kfree(v, e));
                                }
                                lemma_bind_all_same(env1, env2, xs, vs, xs.len(), v);
                            }
                            lemma_eval_agree(m, fuel, b1, b2, w, *body);
                        }
                    },
                    _ => {},
                }
            }
        },
        _ => {},
    }
}

/// Whether the bindings that `rhs` begins with can be moved out in front
/// of `let x = rhs in body`: none of them binds a variable that is free in
/// `body`, unless it is `x` itself.
pub open spec fn movable(x: u32, rhs: KE, body: KE) -> bool
    decreases rhs,
{
    match rhs {
        KE::Let(y, e1, e2) => (y == x || !kfree(y, body)) && movable(x, *e2, body),
        _ => true,
    }
}

/// Whether every binding that A-normalization moves in `e` can be moved.
pub open spec fn hoistable(e: KE) -> bool
    decreases e,
{
    match e {
        KE::Let(x, rhs, body) => hoistable(*rhs) && hoistable(*body) && movable(
            x,
            anf(*rhs),
            anf(*body),
        ),
        KE::If(c, a, b) => hoistable(*a) && hoistable(*b),
        KE::LetRec(f, params, rhs, body) => hoistable(*rhs) && hoistable(*body),
        KE::LetTuple(xs, y, body) => hoistable(*body),
        _ => true,
    }
}

/// Moving bindings that can be moved changes no free variable.
pub proof fn lemma_hoist_free(v: u32, x: u32, rhs: KE, body: KE)
    requires
        movable(x, rhs, body),
    ensures
        kfree(v, hoist(x, rhs, body)) == kfree(v, KE::Let(x, Box::new(rhs), Box::new(body))),
    decreases rhs,
{
    match rhs {
        KE::Let(y, e1, e2) => {
            lemma_hoist_free(v, x, *e2, body);
            let whole = KE::Let(x, Box::new(rhs), Box::new(body));
            let inner = KE::Let(x, e2, Box::new(body));
            let moved = hoist(x, rhs, body);
            assert(moved == KE::Let(y, e1, Box::new(hoist(x, *e2, body))));
            assert(kfree(v, whole) == (kfree(v, rhs) || (v != x && kfree(v, body))));
            assert(kfree(v, rhs) == (kfree(v, *e1) || (v != y && kfree(v, *e2))));
            assert(kfree(v, inner) == (kfree(v, *e2) || (v != x && kfree(v, body))));
            assert(kfree(v, moved) == (kfree(v, *e1) || (v != y && kfree(
                v,
                hoist(x, *e2, body),
            ))));
        },
        _ => {},
    }
}

/// A-normalization changes no free variable of an expression whose
/// bindings can be moved.
pub proof fn lemma_anf_free(v: u32, e: KE)
    requires
        hoistable(e),
    ensures
        kfree(v, anf(e)) == kfree(v, e),
    decreases e,
{
    match e {
        KE::Let(x, rhs, body) => {
            lemma_anf_free(v, *rhs);
            lemma_anf_free(v, *body);
            lemma_hoist_free(v, x, anf(*rhs), anf(*body));
        },
        KE::If(c, a, b) => {
            lemma_anf_free(v, *a);
            lemma_anf_free(v, *b);
        },
        KE::LetRec(f, params, rhs, body) => {
            lemma_anf_free(v, *rhs);
            lemma_anf_free(v, *body);
        },
        KE::LetTuple(xs, y, body) => {
            lemma_anf_free(v, *body);
        },
        _ => {},
    }
}

/// Moving bindings that can be moved changes nothing of what a `let`
/// evaluates to.
pub proof fn lemma_hoist_eval(
    m: Machine,
    fuel: nat,
    env: Map<u32, Val>,
    w: Store,
    x: u32,
    rhs: KE,
    body: KE,
)
    requires
        movable(x, rhs, body),
    ensures
        eval(m, fuel, env, w, hoist(x, rhs, body)) == eval(
            m,
            fuel,
            env,
            w,
            KE::Let(x, Box::new(rhs), Box::new(body)),
        ),
    decreases rhs,
{
    match rhs {
        KE::Let(y, e1, e2) => {
            let whole = KE::Let(x, Box::new(rhs), Box::new(body));
            let inner = KE::Let(x, e2, Box::new(body));
            let moved = hoist(x, rhs, body);
            assert(moved == KE::Let(y, e1, Box::new(hoist(x, *e2, body))));
            let first = eval(m, fuel, env, w, *e1);
            assert(eval(m, fuel, env, w, rhs) == match first {
                None => None,
                Some((v1, w1)) => eval(m, fuel, env.insert(y, v1), w1, *e2),
            });
            assert(eval(m, fuel, env, w, moved) == match first {
                None => None,
                Some((v1, w1)) => eval(m, fuel, env.insert(y, v1), w1, hoist(x, *e2, body)),
            });
            assert(eval(m, fuel, env, w, whole) == match eval(m, fuel, env, w, rhs) {
                None => None,
                Some((v2, w2)) => eval(m, fuel, env.insert(x, v2), w2, body),
            });
            if first is Some {
                let (v1, w1) = first->Some_0;
                let env1 = env.insert(y, v1);
                lemma_hoist_eval(m, fuel, env1, w1, x, *e2, body);
                let second = eval(m, fuel, env1, w1, *e2);
                assert(eval(m, fuel, env1, w1, inner) == match second {
                    None => None,
                    Some((v2, w2)) => eval(m, fuel, env1.insert(x, v2), w2, body),
                });
                if second is Some {
                    let (v2, w2) = second->Some_0;
                    assert forall|u: u32| #[trigger] kfree(u, body) implies same_at(
                        env1.insert(x, v2),
                        env.insert(x, v2),
                        u,
                    ) by {}
                    lemma_eval_agree(m, fuel, env1.insert(x, v2), env.insert(x, v2), w2, body);
                }
            }
        },
        _ => {},
    }
}

/// The machine `m` with the code of every function A-normalized.
pub open spec fn anf_machine(m: Machine) -> Machine {
    Machine {
        code: Map::new(
            |f: u32| m.code.dom().contains(f),
            |f: u32| Code { params: m.code[f].params, body: anf(m.code[f].body) },
        ),
        ..m
    }
}

/// Whether every binding that A-normalization moves in the code of the
/// machine can be moved.
pub open spec fn code_hoistable(m: Machine) -> bool {
    forall|f: u32| #[trigger] m.code.dom().contains(f) ==> hoistable(m.code[f].body)
}

/// A-normalization preserves what a program evaluates to: an expression
/// and its A-normal form, run with the same values for the variables, on
/// the same store and for the same number of calls, on a machine and on
/// the machine with A-normalized code, end in the same value and the same
/// store, or both do not end well. This holds where the bindings that the
/// pass moves can be moved.
pub proof fn lemma_anf_preserves(m: Machine, fuel: nat, env: Map<u32, Val>, w: Store, e: KE)
    requires
        code_hoistable(m),
        hoistable(e),
    ensures
        eval(anf_machine(m), fuel, env, w, anf(e)) == eval(m, fuel, env, w, e),
    decreases fuel, e,
{
    let m2 = anf_machine(m);
    match e {
        KE::If(c, a, b) => {
            lemma_anf_preserves(m, fuel, env, w, *a);
            lemma_anf_preserves(m, fuel, env, w, *b);
        },
        KE::Let(x, rhs, body) => {
            lemma_hoist_eval(m2, fuel, env, w, x, anf(*rhs), anf(*body));
            lemma_anf_preserves(m, fuel, env, w, *rhs);
            if eval(m, fuel, env, w, *rhs) is Some {
                let (v, w1) = eval(m, fuel, env, w, *rhs)->Some_0;
                lemma_anf_preserves(m, fuel, env.insert(x, v), w1, *body);
            }
        },
        KE::LetRec(f, params, rhs, body) => {
            assert forall|v: u32| kfree(v, anf(*rhs)) == kfree(v, *rhs) by {
                lemma_anf_free(v, *rhs);
            }
            assert(capture(env, f, params, anf(*rhs)) =~= capture(env, f, params, *rhs));
            let c = Val::Closure(f, capture(env, f, params, *rhs));
            lemma_anf_preserves(m, fuel, env.insert(f, c), w, *body);
        },
        KE::App(g, args) => {
            if env.dom().contains(g) && values(env, args) is Some {
                let vs = values(env, args)->Some_0;
                match env[g] {
                    Val::Closure(f, held) => {
                        if fuel > 0 && m.code.dom().contains(f) && m.code[f].params.len()
                            == vs.len() {
                            lemma_anf_preserves(
                                m,
                                (fuel - 1) as nat,
                                bind_all(held.insert(f, env[g]), m.code[f].params, vs, vs.len()),
                                w,
                                m.code[f].body,
                            );
                        }
                    },
                    _ => {},
                }
            }
        },
        KE::LetTuple(xs, y, body) => {
            if env.dom().contains(y) {
                match env[y] {
                    Val::Tuple(vs) => {
                        if vs.len() == xs.len() {
                            lemma_anf_preserves(
                                m,
                                fuel,
                                bind_all(env, xs, vs, xs.len()),
                                w,
                                *body,
                            );
                        }
                    },
                    _ => {},
                }
            }
        },
        _ => {},
    }
}

/// What the link `b` of a chain does to the values of the variables and
/// to the store.
pub open spec fn step(m: Machine, fuel: nat, env: Map<u32, Val>, w: Store, b: Bind) -> Option<
    (Map<u32, Val>, Store),
> {
    match b {
        Bind::Let(x, rhs) => match eval(m, fuel, env, w, rhs) {
            None => None,
            Some((v, w1)) => Some((env.insert(x, v), w1)),
        },
        Bind::LetRec(f, params, rhs) => Some(
            (env.insert(f, Val::Closure(f, capture(env, f, params, rhs))), w),
        ),
        Bind::LetTuple(xs, y) => if env.dom().contains(y) {
            match env[y] {
                Val::Tuple(vs) => if vs.len() == xs.len() {
                    Some((bind_all(env, xs, vs, xs.len()), w))
                } else {
                    None
                },
                _ => None,
            }
        } else {
            None
        },
    }
}

/// What the links `binds[from..to]` of a chain do, one after the other.
pub open spec fn run(
    m: Machine,
    fuel: nat,
    env: Map<u32, Val>,
    w: Store,
    binds: Seq<Bind>,
    from: nat,
    to: nat,
) -> Option<(Map<u32, Val>, Store)>
    decreases to - from,
{
    if from >= to || to > binds.len() {
        Some((env, w))
    } else {
        match run(m, fuel, env, w, binds, from, (to - 1) as nat) {
            None => None,
            Some((env1, w1)) => step(m, fuel, env1, w1, binds[to - 1]),
        }
    }
}

proof fn lemma_wrap_eval(m: Machine, fuel: nat, env: Map<u32, Val>, w: Store, b: Bind, rest: KE)
    ensures
        eval(m, fuel, env, w, wrap(b, rest)) == match step(m, fuel, env, w, b) {
            None => None,
            Some((env1, w1)) => eval(m, fuel, env1, w1, rest),
        },
{
}

/// A chain around an expression evaluates as the chain runs, and the
/// expression after it.
pub proof fn lemma_assemble_eval(
    m: Machine,
    fuel: nat,
    env: Map<u32, Val>,
    w: Store,
    binds: Seq<Bind>,
    last: KE,
)
    ensures
        eval(m, fuel, env, w, assemble(binds, last)) == match run(
            m,
            fuel,
            env,
            w,
            binds,
            0,
            binds.len(),
        ) {
            None => None,
            Some((env1, w1)) => eval(m, fuel, env1, w1, last),
        },
    decreases binds.len(),
{
    if binds.len() > 0 {
        let front = binds.drop_last();
        let b = binds.last();
        lemma_assemble_eval(m, fuel, env, w, front, wrap(b, last));
        lemma_run_prefix(m, fuel, env, w, front, binds, 0, front.len());
        if run(m, fuel, env, w, front, 0, front.len()) is Some {
            let (env1, w1) = run(m, fuel, env, w, front, 0, front.len())->Some_0;
            lemma_wrap_eval(m, fuel, env1, w1, b, last);
        }
    }
}

/// Running links of a chain does not look at the links after them.
pub proof fn lemma_run_prefix(
    m: Machine,
    fuel: nat,
    env: Map<u32, Val>,
    w: Store,
    short: Seq<Bind>,
    long: Seq<Bind>,
    from: nat,
    to: nat,
)
    requires
        to <= short.len() <= long.len(),
        long.subrange(0, short.len() as int) == short,
    ensures
        run(m, fuel, env, w, short, from, to) == run(m, fuel, env, w, long, from, to),
    decreases to - from,
{
    if from < to {
        lemma_run_prefix(m, fuel, env, w, short, long, from, (to - 1) as nat);
        assert(short[to - 1] == long.subrange(0, short.len() as int)[to - 1]);
    }
}

/// Running a chain up to a link and on from there is running it through.
pub proof fn lemma_run_split(
    m: Machine,
    fuel: nat,
    env: Map<u32, Val>,
    w: Store,
    binds: Seq<Bind>,
    from: nat,
    mid: nat,
    to: nat,
)
    requires
        from <= mid <= to <= binds.len(),
    ensures
        run(m, fuel, env, w, binds, from, to) == match run(m, fuel, env, w, binds, from, mid) {
            None => None,
            Some((env1, w1)) => run(m, fuel, env1, w1, binds, mid, to),
        },
    decreases to - mid,
{
    if mid < to {
        lemma_run_split(m, fuel, env, w, binds, from, mid, (to - 1) as nat);
    }
}

} // verus!

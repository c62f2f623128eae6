//! A reference interpreter for the source language and for each of its
//! lowered forms: every form of a program evaluates to the same value and
//! prints the same numbers.

use mincaml::anormal::anormal_expr;
use mincaml::closure::{closure_convert, CExpr, FunDef};
use mincaml::ctx::Ctx;
use mincaml::knormal::{knormal, BinOp, KExpr, UnOp};
use mincaml::syntax::{Binder, Expr};
use mincaml::type_check::type_check_pgm;
use std::cell::RefCell;
use std::collections::HashMap;
use std::rc::Rc;

#[derive(Clone)]
enum Value<'a> {
    Unit,
    Bool(bool),
    Int(i64),
    Float(f64),
    Tuple(Vec<Value<'a>>),
    Array(Rc<RefCell<Vec<Value<'a>>>>),
    PrintInt,
    SrcFun(Rc<SrcFun<'a>>),
    KFun(Rc<KFun<'a>>),
    Closure(u32, Rc<Vec<(u32, Value<'a>)>>),
}

struct SrcFun<'a> {
    name: &'a str,
    params: &'a [Binder],
    body: &'a Expr,
    env: Vec<(String, Value<'a>)>,
}

struct KFun<'a> {
    name: u32,
    params: &'a [u32],
    body: &'a KExpr,
    env: HashMap<u32, Value<'a>>,
}

/// What can be seen of a value from outside.
fn show(v: &Value) -> String {
    match v {
        Value::Unit => "()".to_string(),
        Value::Bool(b) => format!("{}", b),
        Value::Int(i) => format!("{}", i),
        Value::Float(f) => format!("{:?}", f),
        Value::Tuple(vs) => {
            let parts: Vec<String> = vs.iter().map(show).collect();
            format!("({})", parts.join(", "))
        }
        Value::Array(cells) => {
            let parts: Vec<String> = cells.borrow().iter().map(show).collect();
            format!("[|{}|]", parts.join("; "))
        }
        _ => "<fun>".to_string(),
    }
}

fn unary<'a>(op: UnOp, v: Value<'a>) -> Value<'a> {
    match (op, v) {
        (UnOp::Not, Value::Bool(b)) => Value::Bool(!b),
        (UnOp::Neg, Value::Int(i)) => Value::Int(i.wrapping_neg()),
        (UnOp::FNeg, Value::Float(f)) => Value::Float(-f),
        _ => panic!("a unary operation on a value of the wrong kind"),
    }
}

fn equal(a: &Value, b: &Value) -> bool {
    match (a, b) {
        (Value::Unit, Value::Unit) => true,
        (Value::Bool(x), Value::Bool(y)) => x == y,
        (Value::Int(x), Value::Int(y)) => x == y,
        (Value::Float(x), Value::Float(y)) => x == y,
        (Value::Tuple(xs), Value::Tuple(ys)) => {
            xs.len() == ys.len() && xs.iter().zip(ys.iter()).all(|(x, y)| equal(x, y))
        }
        _ => panic!("an equality on values of the wrong kind"),
    }
}

fn at_most(a: &Value, b: &Value) -> bool {
    match (a, b) {
        (Value::Bool(x), Value::Bool(y)) => x <= y,
        (Value::Int(x), Value::Int(y)) => x <= y,
        (Value::Float(x), Value::Float(y)) => x <= y,
        _ => panic!("a comparison on values of the wrong kind"),
    }
}

fn binary<'a>(op: BinOp, a: Value<'a>, b: Value<'a>) -> Value<'a> {
    match (op, a, b) {
        (BinOp::Add, Value::Int(x), Value::Int(y)) => Value::Int(x.wrapping_add(y)),
        (BinOp::Sub, Value::Int(x), Value::Int(y)) => Value::Int(x.wrapping_sub(y)),
        (BinOp::FAdd, Value::Float(x), Value::Float(y)) => Value::Float(x + y),
        (BinOp::FSub, Value::Float(x), Value::Float(y)) => Value::Float(x - y),
        (BinOp::FMul, Value::Float(x), Value::Float(y)) => Value::Float(x * y),
        (BinOp::FDiv, Value::Float(x), Value::Float(y)) => Value::Float(x / y),
        (BinOp::Eq, x, y) => Value::Bool(equal(&x, &y)),
        (BinOp::Le, x, y) => Value::Bool(at_most(&x, &y)),
        (BinOp::Array, Value::Int(n), x) => {
            Value::Array(Rc::new(RefCell::new(vec![x; n as usize])))
        }
        (BinOp::Get, Value::Array(cells), Value::Int(i)) => cells.borrow()[i as usize].clone(),
        _ => panic!("a binary operation on values of the wrong kind"),
    }
}

fn put<'a>(array: Value<'a>, index: Value<'a>, x: Value<'a>) -> Value<'a> {
    match (array, index) {
        (Value::Array(cells), Value::Int(i)) => {
            cells.borrow_mut()[i as usize] = x;
            Value::Unit
        }
        _ => panic!("an array update on values of the wrong kind"),
    }
}

fn print_int<'a>(args: &[Value<'a>], out: &mut Vec<i64>) -> Value<'a> {
    match args {
        [Value::Int(i)] => {
            out.push(*i);
            Value::Unit
        }
        _ => panic!("print_int on something else than one integer"),
    }
}

fn binary_op(e: &Expr) -> BinOp {
    match e {
        Expr::Add(..) => BinOp::Add,
        Expr::Sub(..) => BinOp::Sub,
        Expr::FAdd(..) => BinOp::FAdd,
        Expr::FSub(..) => BinOp::FSub,
        Expr::FMul(..) => BinOp::FMul,
        Expr::FDiv(..) => BinOp::FDiv,
        Expr::Eq(..) => BinOp::Eq,
        Expr::Le(..) => BinOp::Le,
        Expr::Array(..) => BinOp::Array,
        _ => BinOp::Get,
    }
}

/// The source language, by the names of its variables.
fn eval_src<'a>(e: &'a Expr, env: &mut Vec<(String, Value<'a>)>, out: &mut Vec<i64>) -> Value<'a> {
    match e {
        Expr::Unit => Value::Unit,
        Expr::Bool(b) => Value::Bool(*b),
        Expr::Int(i) => Value::Int(*i),
        Expr::Float(bits) => Value::Float(f64::from_bits(*bits)),
        Expr::Not(a) => unary(UnOp::Not, eval_src(a, env, out)),
        Expr::Neg(a) => unary(UnOp::Neg, eval_src(a, env, out)),
        Expr::FNeg(a) => unary(UnOp::FNeg, eval_src(a, env, out)),
        Expr::Add(a, b)
        | Expr::Sub(a, b)
        | Expr::FAdd(a, b)
        | Expr::FSub(a, b)
        | Expr::FMul(a, b)
        | Expr::FDiv(a, b)
        | Expr::Eq(a, b)
        | Expr::Le(a, b)
        | Expr::Array(a, b)
        | Expr::Get(a, b) => {
            let x = eval_src(a, env, out);
            let y = eval_src(b, env, out);
            binary(binary_op(e), x, y)
        }
        Expr::Put(a, b, c) => {
            let array = eval_src(a, env, out);
            let index = eval_src(b, env, out);
            let x = eval_src(c, env, out);
            put(array, index, x)
        }
        Expr::If(c, a, b) => match eval_src(c, env, out) {
            Value::Bool(true) => eval_src(a, env, out),
            Value::Bool(false) => eval_src(b, env, out),
            _ => panic!("a condition that is no boolean"),
        },
        Expr::Let { bndr, rhs, body } => {
            let v = eval_src(rhs, env, out);
            env.push((bndr.name.clone(), v));
            let r = eval_src(body, env, out);
            env.pop();
            r
        }
        Expr::Var(name) => match env.iter().rev().find(|(n, _)| n == name) {
            Some((_, v)) => v.clone(),
            None if name == "print_int" => Value::PrintInt,
            None => panic!("unbound variable {}", name),
        },
        Expr::LetRec { bndr, args, rhs, body } => {
            let f = Value::SrcFun(Rc::new(SrcFun {
                name: bndr.name.as_str(),
                params: args.as_slice(),
                body: rhs.as_ref(),
                env: env.clone(),
            }));
            env.push((bndr.name.clone(), f));
            let r = eval_src(body, env, out);
            env.pop();
            r
        }
        Expr::App { fun, args } => {
            let f = eval_src(fun, env, out);
            let vs: Vec<Value<'a>> = args.iter().map(|a| eval_src(a, env, out)).collect();
            match f {
                Value::PrintInt => print_int(&vs, out),
                Value::SrcFun(fun) => {
                    let mut inner = fun.env.clone();
                    inner.push((fun.name.to_string(), Value::SrcFun(fun.clone())));
                    for (p, v) in fun.params.iter().zip(vs) {
                        inner.push((p.name.clone(), v));
                    }
                    eval_src(fun.body, &mut inner, out)
                }
                _ => panic!("a call of something that is no function"),
            }
        }
        Expr::Tuple(args) => Value::Tuple(args.iter().map(|a| eval_src(a, env, out)).collect()),
        Expr::LetTuple { bndrs, rhs, body } => match eval_src(rhs, env, out) {
            Value::Tuple(vs) => {
                let depth = env.len();
                for (x, v) in bndrs.iter().zip(vs) {
                    env.push((x.name.clone(), v));
                }
                let r = eval_src(body, env, out);
                env.truncate(depth);
                r
            }
            _ => panic!("a tuple pattern on something that is no tuple"),
        },
    }
}

fn operands<'a>(env: &HashMap<u32, Value<'a>>, xs: &[u32]) -> Vec<Value<'a>> {
    xs.iter().map(|x| env[x].clone()).collect()
}

/// The K-normal form, by the identities of its variables.
fn eval_k<'a>(e: &'a KExpr, env: &HashMap<u32, Value<'a>>, out: &mut Vec<i64>) -> Value<'a> {
    match e {
        KExpr::Unit => Value::Unit,
        KExpr::Bool(b) => Value::Bool(*b),
        KExpr::Int(i) => Value::Int(*i),
        KExpr::Float(bits) => Value::Float(f64::from_bits(*bits)),
        KExpr::Unary(op, a) => unary(*op, env[a].clone()),
        KExpr::Binary(op, a, b) => binary(*op, env[a].clone(), env[b].clone()),
        KExpr::Put(a, b, c) => put(env[a].clone(), env[b].clone(), env[c].clone()),
        KExpr::If(c, a, b) => match env[c] {
            Value::Bool(true) => eval_k(a, env, out),
            Value::Bool(false) => eval_k(b, env, out),
            _ => panic!("a condition that is no boolean"),
        },
        KExpr::Let(x, rhs, body) => {
            let v = eval_k(rhs, env, out);
            let mut inner = env.clone();
            inner.insert(*x, v);
            eval_k(body, &inner, out)
        }
        KExpr::Var(x) => env[x].clone(),
        KExpr::LetRec(f, params, rhs, body) => {
            let fun = Value::KFun(Rc::new(KFun {
                name: *f,
                params: params.as_slice(),
                body: rhs.as_ref(),
                env: env.clone(),
            }));
            let mut inner = env.clone();
            inner.insert(*f, fun);
            eval_k(body, &inner, out)
        }
        KExpr::App(f, args) => {
            let vs = operands(env, args);
            match &env[f] {
                Value::PrintInt => print_int(&vs, out),
                Value::KFun(fun) => {
                    let mut inner = fun.env.clone();
                    inner.insert(fun.name, Value::KFun(fun.clone()));
                    for (p, v) in fun.params.iter().zip(vs) {
                        inner.insert(*p, v);
                    }
                    eval_k(fun.body, &inner, out)
                }
                _ => panic!("a call of something that is no function"),
            }
        }
        KExpr::Tuple(args) => Value::Tuple(operands(env, args)),
        KExpr::LetTuple(xs, y, body) => match &env[y] {
            Value::Tuple(vs) => {
                let mut inner = env.clone();
                for (x, v) in xs.iter().zip(vs.iter()) {
                    inner.insert(*x, v.clone());
                }
                eval_k(body, &inner, out)
            }
            _ => panic!("a tuple pattern on something that is no tuple"),
        },
    }
}

fn call<'a>(
    funs: &'a [FunDef],
    name: u32,
    env: &HashMap<u32, Value<'a>>,
    args: Vec<Value<'a>>,
    out: &mut Vec<i64>,
) -> Value<'a> {
    let fun = funs.iter().find(|f| f.name == name).expect("a call of an unknown function");
    assert_eq!(fun.params.len(), args.len());
    let mut inner = env.clone();
    for (p, v) in fun.params.iter().zip(args) {
        inner.insert(*p, v);
    }
    eval_c(funs, &fun.body, &inner, out)
}

/// The closure-converted form: top-level functions, and closures made of a
/// name and the values of the free variables.
fn eval_c<'a>(
    funs: &'a [FunDef],
    e: &'a CExpr,
    env: &HashMap<u32, Value<'a>>,
    out: &mut Vec<i64>,
) -> Value<'a> {
    match e {
        CExpr::Unit => Value::Unit,
        CExpr::Bool(b) => Value::Bool(*b),
        CExpr::Int(i) => Value::Int(*i),
        CExpr::Float(bits) => Value::Float(f64::from_bits(*bits)),
        CExpr::Unary(op, a) => unary(*op, env[a].clone()),
        CExpr::Binary(op, a, b) => binary(*op, env[a].clone(), env[b].clone()),
        CExpr::Put(a, b, c) => put(env[a].clone(), env[b].clone(), env[c].clone()),
        CExpr::If(c, a, b) => match env[c] {
            Value::Bool(true) => eval_c(funs, a, env, out),
            Value::Bool(false) => eval_c(funs, b, env, out),
            _ => panic!("a condition that is no boolean"),
        },
        CExpr::Let(x, rhs, body) => {
            let v = eval_c(funs, rhs, env, out);
            let mut inner = env.clone();
            inner.insert(*x, v);
            eval_c(funs, body, &inner, out)
        }
        CExpr::Var(x) => env[x].clone(),
        CExpr::MakeCls(f, fvs, body) => {
            let held: Vec<(u32, Value<'a>)> = fvs.iter().map(|x| (*x, env[x].clone())).collect();
            let mut inner = env.clone();
            inner.insert(*f, Value::Closure(*f, Rc::new(held)));
            eval_c(funs, body, &inner, out)
        }
        CExpr::AppCls(f, args) => {
            let vs = operands(env, args);
            match &env[f] {
                Value::PrintInt => print_int(&vs, out),
                Value::Closure(name, held) => {
                    // a closure runs on what it holds, and takes itself first
                    let mut inner: HashMap<u32, Value<'a>> = HashMap::new();
                    for (id, v) in env.iter() {
                        if matches!(v, Value::PrintInt) {
                            inner.insert(*id, v.clone());
                        }
                    }
                    for (x, v) in held.iter() {
                        inner.insert(*x, v.clone());
                    }
                    let mut all = vec![env[f].clone()];
                    all.extend(vs);
                    call(funs, *name, &inner, all, out)
                }
                _ => panic!("a call of something that is no closure"),
            }
        }
        CExpr::AppDir(f, args) => call(funs, *f, env, operands(env, args), out),
        CExpr::Tuple(args) => Value::Tuple(operands(env, args)),
        CExpr::LetTuple(xs, y, body) => match &env[y] {
            Value::Tuple(vs) => {
                let mut inner = env.clone();
                for (x, v) in xs.iter().zip(vs.iter()) {
                    inner.insert(*x, v.clone());
                }
                eval_c(funs, body, &inner, out)
            }
            _ => panic!("a tuple pattern on something that is no tuple"),
        },
    }
}

/// Makes the binders of a program: user variables, in the order of their
/// identities.
struct Binders {
    ctx: Ctx,
}

impl Binders {
    fn new() -> Binders {
        Binders { ctx: Ctx::new() }
    }

    fn bind(&mut self, name: &str) -> Binder {
        let id = self.ctx.fresh_user(name).unwrap();
        Binder { name: name.to_string(), id }
    }
}

fn b(e: Expr) -> Box<Expr> {
    Box::new(e)
}

fn var(name: &str) -> Expr {
    Expr::Var(name.to_string())
}

fn app(f: Expr, args: Vec<Expr>) -> Expr {
    Expr::App { fun: b(f), args }
}

fn let_(bndr: Binder, rhs: Expr, body: Expr) -> Expr {
    Expr::Let { bndr, rhs: b(rhs), body: b(body) }
}

fn let_rec(bndr: Binder, args: Vec<Binder>, rhs: Expr, body: Expr) -> Expr {
    Expr::LetRec { bndr, args, rhs: b(rhs), body: b(body) }
}

/// The variables of the table that stand for `print_int`.
fn builtins<'a>(ctx: &Ctx) -> HashMap<u32, Value<'a>> {
    let mut globals = HashMap::new();
    for id in 0..ctx.len() as u32 {
        if ctx.get_var(id).to_string() == "#builtin[print_int]" {
            globals.insert(id, Value::PrintInt);
        }
    }
    globals
}

/// Runs the program in every form, checks that the forms agree, and gives
/// what it evaluates to and what it prints.
fn run(binders: Binders, e: &Expr) -> (String, Vec<i64>) {
    let mut out_src = Vec::new();
    let v_src = show(&eval_src(e, &mut Vec::new(), &mut out_src));

    let mut ctx = binders.ctx;
    let mut tys = type_check_pgm(e, ctx.len()).unwrap();
    let k = knormal(&mut ctx, &mut tys, e).unwrap();

    let mut out_k = Vec::new();
    let v_k = show(&eval_k(&k, &builtins(&ctx), &mut out_k));
    assert_eq!(v_k, v_src);
    assert_eq!(out_k, out_src);

    let a = anormal_expr(k);
    let mut out_a = Vec::new();
    let v_a = show(&eval_k(&a, &builtins(&ctx), &mut out_a));
    assert_eq!(v_a, v_src);
    assert_eq!(out_a, out_src);

    let (funs, main) = closure_convert(a, &tys);
    let mut out_c = Vec::new();
    let v_c = show(&eval_c(&funs, &main, &builtins(&ctx), &mut out_c));
    assert_eq!(v_c, v_src);
    assert_eq!(out_c, out_src);

    (v_src, out_src)
}

#[test]
fn forms_agree_on_arithmetic() {
    let mut bs = Binders::new();
    let x = bs.bind("x");
    // let x = 1 + 2 in x - 10
    let e = let_(
        x,
        Expr::Add(b(Expr::Int(1)), b(Expr::Int(2))),
        Expr::Sub(b(var("x")), b(Expr::Int(10))),
    );
    assert_eq!(run(bs, &e), ("-7".to_string(), vec![]));
}

#[test]
fn forms_agree_on_floats() {
    // (1.5 +. 2.25) *. (-. 2.0) /. 0.5 <= 0.0
    let f = |x: f64| Expr::Float(x.to_bits());
    let product = Expr::FMul(b(Expr::FAdd(b(f(1.5)), b(f(2.25)))), b(Expr::FNeg(b(f(2.0)))));
    let e = Expr::Tuple(vec![
        Expr::FDiv(b(product), b(f(0.5))),
        Expr::Le(b(Expr::FSub(b(f(1.0)), b(f(3.0)))), b(f(0.0))),
    ]);
    assert_eq!(run(Binders::new(), &e), ("(-15.0, true)".to_string(), vec![]));
}

#[test]
fn forms_agree_on_a_direct_function() {
    let mut bs = Binders::new();
    let f = bs.bind("f");
    let x = bs.bind("x");
    // let rec f x = x + 1 in f 3
    let e = let_rec(
        f,
        vec![x],
        Expr::Add(b(var("x")), b(Expr::Int(1))),
        app(var("f"), vec![Expr::Int(3)]),
    );
    assert_eq!(run(bs, &e), ("4".to_string(), vec![]));
}

#[test]
fn forms_agree_on_a_function_with_a_free_variable() {
    let mut bs = Binders::new();
    let y = bs.bind("y");
    let f = bs.bind("f");
    let x = bs.bind("x");
    // let y = 10 in let rec f x = x + y in f 3
    let e = let_(
        y,
        Expr::Int(10),
        let_rec(
            f,
            vec![x],
            Expr::Add(b(var("x")), b(var("y"))),
            app(var("f"), vec![Expr::Int(3)]),
        ),
    );
    assert_eq!(run(bs, &e), ("13".to_string(), vec![]));
}

#[test]
fn forms_agree_on_a_function_used_as_a_value() {
    let mut bs = Binders::new();
    let f = bs.bind("f");
    let x = bs.bind("x");
    let g = bs.bind("g");
    // let rec f x = x + 1 in let g = f in g 3
    let e = let_rec(
        f,
        vec![x],
        Expr::Add(b(var("x")), b(Expr::Int(1))),
        let_(g, var("f"), app(var("g"), vec![Expr::Int(3)])),
    );
    assert_eq!(run(bs, &e), ("4".to_string(), vec![]));
}

#[test]
fn forms_agree_on_recursion() {
    let mut bs = Binders::new();
    let sum = bs.bind("sum");
    let n = bs.bind("n");
    // let rec sum n = if n <= 0 then 0 else n + sum (n - 1) in sum 10
    let e = let_rec(
        sum,
        vec![n],
        Expr::If(
            b(Expr::Le(b(var("n")), b(Expr::Int(0)))),
            b(Expr::Int(0)),
            b(Expr::Add(
                b(var("n")),
                b(app(var("sum"), vec![Expr::Sub(b(var("n")), b(Expr::Int(1)))])),
            )),
        ),
        app(var("sum"), vec![Expr::Int(10)]),
    );
    assert_eq!(run(bs, &e), ("55".to_string(), vec![]));
}

#[test]
fn forms_agree_on_a_closure_that_is_returned() {
    let mut bs = Binders::new();
    let adder = bs.bind("adder");
    let x = bs.bind("x");
    let add = bs.bind("add");
    let y = bs.bind("y");
    let add3 = bs.bind("add3");
    // let rec adder x = (let rec add y = x + y in add) in
    // let add3 = adder 3 in add3 4 + add3 10
    let e = let_rec(
        adder,
        vec![x],
        let_rec(add, vec![y], Expr::Add(b(var("x")), b(var("y"))), var("add")),
        let_(
            add3,
            app(var("adder"), vec![Expr::Int(3)]),
            Expr::Add(
                b(app(var("add3"), vec![Expr::Int(4)])),
                b(app(var("add3"), vec![Expr::Int(10)])),
            ),
        ),
    );
    assert_eq!(run(bs, &e), ("20".to_string(), vec![]));
}

#[test]
fn forms_agree_on_a_recursive_closure() {
    let mut bs = Binders::new();
    let count = bs.bind("count");
    let n = bs.bind("n");
    let pair = bs.bind("pair");
    let g = bs.bind("g");
    let one = bs.bind("one");
    // let rec count n = if n <= 0 then 0 else 1 + count (n - 1) in
    // let pair = (count, 1) in let (g, one) = pair in g 5 + one
    let e = let_rec(
        count,
        vec![n],
        Expr::If(
            b(Expr::Le(b(var("n")), b(Expr::Int(0)))),
            b(Expr::Int(0)),
            b(Expr::Add(
                b(Expr::Int(1)),
                b(app(var("count"), vec![Expr::Sub(b(var("n")), b(Expr::Int(1)))])),
            )),
        ),
        let_(
            pair,
            Expr::Tuple(vec![var("count"), Expr::Int(1)]),
            Expr::LetTuple {
                bndrs: vec![g, one],
                rhs: b(var("pair")),
                body: b(Expr::Add(b(app(var("g"), vec![Expr::Int(5)])), b(var("one")))),
            },
        ),
    );
    assert_eq!(run(bs, &e), ("6".to_string(), vec![]));
}

#[test]
fn forms_agree_on_arrays() {
    let mut bs = Binders::new();
    let a = bs.bind("a");
    let u = bs.bind("u");
    // let a = Array.make 3 0 in let u = (a.(1) <- 7) in (a.(1) + a.(0), a)
    let e = let_(
        a,
        Expr::Array(b(Expr::Int(3)), b(Expr::Int(0))),
        let_(
            u,
            Expr::Put(b(var("a")), b(Expr::Int(1)), b(Expr::Int(7))),
            Expr::Tuple(vec![
                Expr::Add(
                    b(Expr::Get(b(var("a")), b(Expr::Int(1)))),
                    b(Expr::Get(b(var("a")), b(Expr::Int(0)))),
                ),
                var("a"),
            ]),
        ),
    );
    assert_eq!(run(bs, &e), ("(7, [|0; 7; 0|])".to_string(), vec![]));
}

#[test]
fn forms_agree_on_the_order_of_evaluation() {
    let mut bs = Binders::new();
    let show = bs.bind("show");
    let n = bs.bind("n");
    let u = bs.bind("u");
    let p = print_arg;
    fn print_arg(n: i64) -> Expr {
        Expr::App { fun: Box::new(Expr::Var("print_int".to_string())), args: vec![Expr::Int(n)] }
    }
    // let rec show n = (let u = print_int n in n) in
    // ((show 1 + show 2) - show 3, (print_int 4, print_int 5), not (show 6 = show 7))
    let call = |k: i64| app(var("show"), vec![Expr::Int(k)]);
    let e = let_rec(
        show,
        vec![n],
        let_(u, app(var("print_int"), vec![var("n")]), var("n")),
        Expr::Tuple(vec![
            Expr::Sub(b(Expr::Add(b(call(1)), b(call(2)))), b(call(3))),
            Expr::Tuple(vec![p(4), p(5)]),
            Expr::Not(b(Expr::Eq(b(call(6)), b(call(7))))),
        ]),
    );
    assert_eq!(run(bs, &e), ("(0, ((), ()), true)".to_string(), vec![1, 2, 3, 4, 5, 6, 7]));
}

#[test]
fn forms_agree_on_conditions_with_effects() {
    let mut bs = Binders::new();
    let a = bs.bind("a");
    let u = bs.bind("u");
    // let a = Array.make 1 5 in
    // let u = (if a.(0) <= 5 then a.(0) <- 1 else a.(0) <- 2) in a.(0)
    let cell = || Expr::Get(b(var("a")), b(Expr::Int(0)));
    let set = |k: i64| Expr::Put(b(var("a")), b(Expr::Int(0)), b(Expr::Int(k)));
    let e = let_(
        a,
        Expr::Array(b(Expr::Int(1)), b(Expr::Int(5))),
        let_(
            u,
            Expr::If(b(Expr::Le(b(cell()), b(Expr::Int(5)))), b(set(1)), b(set(2))),
            cell(),
        ),
    );
    assert_eq!(run(bs, &e), ("1".to_string(), vec![]));
}

use mincaml::syntax::{Binder, Expr};
use mincaml::type_check::{mk_type_env, settle_type, type_check, type_check_pgm, tyvar_demand};
use mincaml::types::{Type, TypeErr};

fn b(e: Expr) -> Box<Expr> {
    Box::new(e)
}

fn var(name: &str) -> Expr {
    Expr::Var(name.to_string())
}

fn bndr(name: &str, id: u32) -> Binder {
    Binder { name: name.to_string(), id }
}

fn let_(name: &str, id: u32, rhs: Expr, body: Expr) -> Expr {
    Expr::Let { bndr: bndr(name, id), rhs: b(rhs), body: b(body) }
}

fn fun(args: Vec<Type>, ret: Type) -> Type {
    Type::Fun { args, ret: Box::new(ret) }
}

#[test]
fn literals_have_their_types() {
    assert_eq!(type_check(&Expr::Unit).unwrap(), Type::Unit);
    assert_eq!(type_check(&Expr::Bool(true)).unwrap(), Type::Bool);
    assert_eq!(type_check(&Expr::Int(3)).unwrap(), Type::Int);
    assert_eq!(type_check(&Expr::Float(0)).unwrap(), Type::Float);
}

#[test]
fn let_of_a_sum() {
    // let x = 1 + 2 in x
    let e = let_("x", 0, Expr::Add(b(Expr::Int(1)), b(Expr::Int(2))), var("x"));
    assert_eq!(type_check(&e).unwrap(), Type::Int);
    assert_eq!(type_check_pgm(&e, 1).unwrap(), vec![Type::Int]);
    assert_eq!(tyvar_demand(&e), Some(1));
}

#[test]
fn recursive_function() {
    // let rec f x = x + 1 in f 3
    let e = Expr::LetRec {
        bndr: bndr("f", 0),
        args: vec![bndr("x", 1)],
        rhs: b(Expr::Add(b(var("x")), b(Expr::Int(1)))),
        body: b(Expr::App { fun: b(var("f")), args: vec![Expr::Int(3)] }),
    };
    assert_eq!(type_check(&e).unwrap(), Type::Int);
    assert_eq!(type_check_pgm(&e, 2).unwrap(), vec![fun(vec![Type::Int], Type::Int), Type::Int]);
    assert_eq!(tyvar_demand(&e), Some(3));
}

#[test]
fn function_with_a_free_variable() {
    // let y = 10 in let rec f x = x + y in f 3
    let e = let_(
        "y",
        0,
        Expr::Int(10),
        Expr::LetRec {
            bndr: bndr("f", 1),
            args: vec![bndr("x", 2)],
            rhs: b(Expr::Add(b(var("x")), b(var("y")))),
            body: b(Expr::App { fun: b(var("f")), args: vec![Expr::Int(3)] }),
        },
    );
    assert_eq!(
        type_check_pgm(&e, 3).unwrap(),
        vec![Type::Int, fun(vec![Type::Int], Type::Int), Type::Int]
    );
}

#[test]
fn function_used_as_a_value() {
    // let rec f x = x + 1 in let g = f in g 3
    let e = Expr::LetRec {
        bndr: bndr("f", 0),
        args: vec![bndr("x", 1)],
        rhs: b(Expr::Add(b(var("x")), b(Expr::Int(1)))),
        body: b(let_("g", 2, var("f"), Expr::App { fun: b(var("g")), args: vec![Expr::Int(3)] })),
    };
    let f = fun(vec![Type::Int], Type::Int);
    assert_eq!(type_check(&e).unwrap(), Type::Int);
    assert_eq!(type_check_pgm(&e, 3).unwrap(), vec![f.clone(), Type::Int, f]);
}

#[test]
fn array_make_put_get() {
    // let a = Array.make 3 0 in let _ = a.(1) <- 7 in a.(1)
    let e = let_(
        "a",
        0,
        Expr::Array(b(Expr::Int(3)), b(Expr::Int(0))),
        let_(
            "_",
            1,
            Expr::Put(b(var("a")), b(Expr::Int(1)), b(Expr::Int(7))),
            Expr::Get(b(var("a")), b(Expr::Int(1))),
        ),
    );
    assert_eq!(type_check(&e).unwrap(), Type::Int);
    assert_eq!(
        type_check_pgm(&e, 2).unwrap(),
        vec![Type::Array(Box::new(Type::Int)), Type::Unit]
    );
}

#[test]
fn applying_an_integer_is_a_type_error() {
    // let f = 1 in f 2
    let e = let_("f", 0, Expr::Int(1), Expr::App { fun: b(var("f")), args: vec![Expr::Int(2)] });
    match type_check(&e) {
        Err(TypeErr::UnifyError(x, y)) => {
            assert_eq!(x, fun(vec![Type::Int], Type::Var(1)));
            assert_eq!(y, Type::Int);
        }
        other => panic!("expected a clash, got {:?}", other),
    }
    assert!(matches!(type_check_pgm(&e, 1), Err(TypeErr::UnifyError(_, _))));
}

#[test]
fn unbound_variable() {
    match type_check(&var("nope")) {
        Err(TypeErr::UnboundVar(name)) => assert_eq!(name, "nope"),
        other => panic!("expected an unbound variable, got {:?}", other),
    }
}

#[test]
fn binding_is_gone_after_its_scope() {
    // (let x = 1 in x) + x
    let e = Expr::Add(b(let_("x", 0, Expr::Int(1), var("x"))), b(var("x")));
    assert!(matches!(type_check(&e), Err(TypeErr::UnboundVar(_))));
}

#[test]
fn shadowing_restores_the_outer_binding() {
    // let x = 1 in (let x = true in x) = (x = 2)
    let inner = let_("x", 1, Expr::Bool(true), var("x"));
    let e = let_(
        "x",
        0,
        Expr::Int(1),
        Expr::Eq(b(inner), b(Expr::Eq(b(var("x")), b(Expr::Int(2))))),
    );
    assert_eq!(type_check(&e).unwrap(), Type::Bool);
    assert_eq!(type_check_pgm(&e, 2).unwrap(), vec![Type::Int, Type::Bool]);
}

#[test]
fn print_int_is_built_in() {
    let e = Expr::App { fun: b(var("print_int")), args: vec![Expr::Int(1)] };
    assert_eq!(type_check(&e).unwrap(), Type::Unit);
    let env = mk_type_env();
    assert_eq!(env.len(), 1);
    assert_eq!(env[0].0, "print_int");
    assert_eq!(env[0].1, fun(vec![Type::Int], Type::Unit));
}

#[test]
fn operators() {
    let t = Expr::Bool(true);
    assert_eq!(type_check(&Expr::Not(b(t))).unwrap(), Type::Bool);
    assert_eq!(type_check(&Expr::Neg(b(Expr::Int(1)))).unwrap(), Type::Int);
    assert_eq!(type_check(&Expr::FNeg(b(Expr::Float(1)))).unwrap(), Type::Float);
    assert_eq!(type_check(&Expr::Sub(b(Expr::Int(1)), b(Expr::Int(2)))).unwrap(), Type::Int);
    assert_eq!(
        type_check(&Expr::FMul(b(Expr::Float(1)), b(Expr::Float(2)))).unwrap(),
        Type::Float
    );
    assert_eq!(type_check(&Expr::Le(b(Expr::Int(1)), b(Expr::Int(2)))).unwrap(), Type::Bool);
    assert!(matches!(
        type_check(&Expr::FAdd(b(Expr::Float(1)), b(Expr::Int(2)))),
        Err(TypeErr::UnifyError(_, _))
    ));
    assert!(matches!(
        type_check(&Expr::Not(b(Expr::Int(2)))),
        Err(TypeErr::UnifyError(_, _))
    ));
}

#[test]
fn conditional() {
    let e = Expr::If(b(Expr::Bool(true)), b(Expr::Int(1)), b(Expr::Int(2)));
    assert_eq!(type_check(&e).unwrap(), Type::Int);
    let bad = Expr::If(b(Expr::Int(0)), b(Expr::Int(1)), b(Expr::Int(2)));
    assert!(matches!(type_check(&bad), Err(TypeErr::UnifyError(_, _))));
    let bad = Expr::If(b(Expr::Bool(true)), b(Expr::Int(1)), b(Expr::Unit));
    assert!(matches!(type_check(&bad), Err(TypeErr::UnifyError(_, _))));
}

#[test]
fn tuples() {
    // let (a, b) = (1, true) in b
    let e = Expr::LetTuple {
        bndrs: vec![bndr("a", 0), bndr("b", 1)],
        rhs: b(Expr::Tuple(vec![Expr::Int(1), Expr::Bool(true)])),
        body: b(var("b")),
    };
    assert_eq!(type_check(&e).unwrap(), Type::Bool);
    assert_eq!(type_check_pgm(&e, 2).unwrap(), vec![Type::Int, Type::Bool]);
    assert_eq!(
        type_check(&Expr::Tuple(vec![Expr::Int(1), Expr::Unit])).unwrap(),
        Type::Tuple(vec![Type::Int, Type::Unit])
    );
}

#[test]
fn open_types_settle_to_unit() {
    // let rec f x = x in 1
    let e = Expr::LetRec {
        bndr: bndr("f", 0),
        args: vec![bndr("x", 1)],
        rhs: b(var("x")),
        body: b(Expr::Int(1)),
    };
    assert_eq!(
        type_check_pgm(&e, 2).unwrap(),
        vec![fun(vec![Type::Unit], Type::Unit), Type::Unit]
    );
    assert_eq!(
        settle_type(&Type::Tuple(vec![Type::Var(4), Type::Array(Box::new(Type::Var(5)))])),
        Type::Tuple(vec![Type::Unit, Type::Array(Box::new(Type::Unit))])
    );
}

#[test]
fn binders_beyond_the_table_are_not_recorded() {
    let e = let_("x", 5, Expr::Int(1), var("x"));
    assert_eq!(type_check_pgm(&e, 2).unwrap(), vec![Type::Unit, Type::Unit]);
}

#[test]
fn inference_is_repeatable() {
    let e = let_("f", 0, Expr::Int(1), Expr::App { fun: b(var("f")), args: vec![Expr::Int(2)] });
    let first = format!("{:?}", type_check(&e));
    let second = format!("{:?}", type_check(&e));
    assert_eq!(first, second);
}

#[test]
fn self_application_is_refused() {
    // let rec f x = f in f
    let e = Expr::LetRec {
        bndr: bndr("f", 0),
        args: vec![bndr("x", 1)],
        rhs: b(var("f")),
        body: b(var("f")),
    };
    assert!(matches!(type_check(&e), Err(TypeErr::UnifyError(_, _))));
}

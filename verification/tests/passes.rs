use mincaml::anormal::{anormal, anormal_expr};
use mincaml::closure::{closure_convert, contains_id, is_value_use, CExpr, FunDef};
use mincaml::ctx::Ctx;
use mincaml::knormal::{knormal, BinOp, KExpr, UnOp};
use mincaml::syntax::{Binder, Expr};
use mincaml::type_check::type_check_pgm;
use mincaml::types::Type;

fn b(e: Expr) -> Box<Expr> {
    Box::new(e)
}

fn var(name: &str) -> Expr {
    Expr::Var(name.to_string())
}

fn klet(x: u32, rhs: KExpr, body: KExpr) -> KExpr {
    KExpr::Let(x, Box::new(rhs), Box::new(body))
}

fn clet(x: u32, rhs: CExpr, body: CExpr) -> CExpr {
    CExpr::Let(x, Box::new(rhs), Box::new(body))
}

fn fun(args: Vec<Type>, ret: Type) -> Type {
    Type::Fun { args, ret: Box::new(ret) }
}

/// Makes the binders of a program: user variables, in the order of their
/// identities.
struct Binders {
    ctx: Ctx,
}

impl Binders {
    fn new() -> Binders {
        Binders { ctx: Ctx::new() }
    }

    fn bind(&mut self, name: &str) -> Binder {
        let id = self.ctx.fresh_user(name).unwrap();
        Binder { name: name.to_string(), id }
    }
}

/// Type inference and K-normalization of a program.
fn lower(binders: Binders, e: &Expr) -> (KExpr, Ctx, Vec<Type>) {
    let mut ctx = binders.ctx;
    let mut tys = type_check_pgm(e, ctx.len()).unwrap();
    let k = knormal(&mut ctx, &mut tys, e).unwrap();
    (k, ctx, tys)
}

#[test]
fn sum_in_a_let() {
    // let x = 1 + 2 in x
    let mut bs = Binders::new();
    let x = bs.bind("x");
    let e = Expr::Let {
        bndr: x,
        rhs: b(Expr::Add(b(Expr::Int(1)), b(Expr::Int(2)))),
        body: b(var("x")),
    };
    let (k, ctx, tys) = lower(bs, &e);
    let want = klet(
        1,
        KExpr::Int(1),
        klet(2, KExpr::Int(2), klet(0, KExpr::Binary(BinOp::Add, 1, 2), KExpr::Var(0))),
    );
    assert_eq!(k, want);
    assert_eq!(ctx.len(), 3);
    assert_eq!(ctx.get_var(0).to_string(), "x_1");
    assert_eq!(ctx.get_var(1).to_string(), "#kn_0x2");
    assert_eq!(ctx.get_var(2).to_string(), "#kn_0x3");
    assert_eq!(tys, vec![Type::Int, Type::Int, Type::Int]);

    let a = anormal_expr(k);
    assert_eq!(a, want);

    let (funs, main) = closure_convert(a, &tys);
    assert!(funs.is_empty());
    assert_eq!(
        main,
        clet(
            1,
            CExpr::Int(1),
            clet(2, CExpr::Int(2), clet(0, CExpr::Binary(BinOp::Add, 1, 2), CExpr::Var(0))),
        )
    );
}

fn succ_then(bs: &mut Binders, body: impl FnOnce(&mut Binders) -> Expr) -> Expr {
    // let rec f x = x + 1 in <body>
    let f = bs.bind("f");
    let x = bs.bind("x");
    let body = body(bs);
    Expr::LetRec {
        bndr: f,
        args: vec![x],
        rhs: b(Expr::Add(b(var("x")), b(Expr::Int(1)))),
        body: b(body),
    }
}

#[test]
fn function_only_called_is_direct() {
    // let rec f x = x + 1 in f 3
    let mut bs = Binders::new();
    let e = succ_then(&mut bs, |_| Expr::App { fun: b(var("f")), args: vec![Expr::Int(3)] });
    let (k, _ctx, tys) = lower(bs, &e);
    assert_eq!(
        k,
        KExpr::LetRec(
            0,
            vec![1],
            Box::new(klet(2, KExpr::Int(1), KExpr::Binary(BinOp::Add, 1, 2))),
            Box::new(klet(3, KExpr::Int(3), KExpr::App(0, vec![3]))),
        )
    );
    let (funs, main) = closure_convert(anormal_expr(k), &tys);
    assert_eq!(
        funs,
        vec![FunDef {
            name: 0,
            params: vec![1],
            closure: false,
            fvs: vec![],
            ret_ty: Type::Int,
            body: clet(2, CExpr::Int(1), CExpr::Binary(BinOp::Add, 1, 2)),
        }]
    );
    assert_eq!(main, clet(3, CExpr::Int(3), CExpr::AppDir(0, vec![3])));
}

#[test]
fn direct_function_with_a_free_variable() {
    // let y = 10 in let rec f x = x + y in f 3
    let mut bs = Binders::new();
    let y = bs.bind("y");
    let f = bs.bind("f");
    let x = bs.bind("x");
    let e = Expr::Let {
        bndr: y,
        rhs: b(Expr::Int(10)),
        body: b(Expr::LetRec {
            bndr: f,
            args: vec![x],
            rhs: b(Expr::Add(b(var("x")), b(var("y")))),
            body: b(Expr::App { fun: b(var("f")), args: vec![Expr::Int(3)] }),
        }),
    };
    let (k, _ctx, tys) = lower(bs, &e);
    assert_eq!(
        k,
        klet(
            0,
            KExpr::Int(10),
            KExpr::LetRec(
                1,
                vec![2],
                Box::new(KExpr::Binary(BinOp::Add, 2, 0)),
                Box::new(klet(3, KExpr::Int(3), KExpr::App(1, vec![3]))),
            ),
        )
    );
    let (funs, main) = closure_convert(anormal_expr(k), &tys);
    assert_eq!(
        funs,
        vec![FunDef {
            name: 1,
            params: vec![2],
            closure: false,
            fvs: vec![0],
            ret_ty: Type::Int,
            body: CExpr::Binary(BinOp::Add, 2, 0),
        }]
    );
    assert_eq!(
        main,
        clet(0, CExpr::Int(10), clet(3, CExpr::Int(3), CExpr::AppDir(1, vec![3])))
    );
}

#[test]
fn function_used_as_a_value_is_a_closure() {
    // let rec f x = x + 1 in let g = f in g 3
    let mut bs = Binders::new();
    let e = succ_then(&mut bs, |bs| Expr::Let {
        bndr: bs.bind("g"),
        rhs: b(var("f")),
        body: b(Expr::App { fun: b(var("g")), args: vec![Expr::Int(3)] }),
    });
    let (k, _ctx, tys) = lower(bs, &e);
    assert_eq!(
        k,
        KExpr::LetRec(
            0,
            vec![1],
            Box::new(klet(3, KExpr::Int(1), KExpr::Binary(BinOp::Add, 1, 3))),
            Box::new(klet(2, KExpr::Var(0), klet(4, KExpr::Int(3), KExpr::App(2, vec![4])))),
        )
    );
    let (funs, main) = closure_convert(anormal_expr(k), &tys);
    assert_eq!(
        funs,
        vec![FunDef {
            name: 0,
            params: vec![0, 1],
            closure: true,
            fvs: vec![],
            ret_ty: Type::Int,
            body: clet(3, CExpr::Int(1), CExpr::Binary(BinOp::Add, 1, 3)),
        }]
    );
    assert_eq!(
        main,
        CExpr::MakeCls(
            0,
            vec![],
            Box::new(clet(
                2,
                CExpr::Var(0),
                clet(4, CExpr::Int(3), CExpr::AppCls(2, vec![4])),
            )),
        )
    );
}

#[test]
fn function_passed_as_an_argument_is_a_closure() {
    // let rec f x = x + 1 in (f, f 1)
    let mut bs = Binders::new();
    let e = succ_then(&mut bs, |_| {
        Expr::Tuple(vec![var("f"), Expr::App { fun: b(var("f")), args: vec![Expr::Int(1)] }])
    });
    let (k, _ctx, tys) = lower(bs, &e);
    let (funs, main) = closure_convert(anormal_expr(k), &tys);
    assert_eq!(funs.len(), 1);
    assert!(funs[0].closure);
    assert_eq!(funs[0].params, vec![0, 1]);
    assert_eq!(
        main,
        CExpr::MakeCls(
            0,
            vec![],
            Box::new(clet(
                3,
                CExpr::Int(1),
                clet(4, CExpr::AppCls(0, vec![3]), CExpr::Tuple(vec![0, 4])),
            )),
        )
    );
}

#[test]
fn closure_captures_its_free_variables_once() {
    // let y = 10 in let rec f x = (x + y) + y in f
    let mut bs = Binders::new();
    let y = bs.bind("y");
    let f = bs.bind("f");
    let x = bs.bind("x");
    let e = Expr::Let {
        bndr: y,
        rhs: b(Expr::Int(10)),
        body: b(Expr::LetRec {
            bndr: f,
            args: vec![x],
            rhs: b(Expr::Add(b(Expr::Add(b(var("x")), b(var("y")))), b(var("y")))),
            body: b(var("f")),
        }),
    };
    let (k, _ctx, tys) = lower(bs, &e);
    let (funs, main) = closure_convert(anormal_expr(k), &tys);
    assert_eq!(
        funs,
        vec![FunDef {
            name: 1,
            params: vec![1, 2],
            closure: true,
            fvs: vec![0],
            ret_ty: Type::Int,
            body: clet(3, CExpr::Binary(BinOp::Add, 2, 0), CExpr::Binary(BinOp::Add, 3, 0)),
        }]
    );
    assert_eq!(
        main,
        clet(0, CExpr::Int(10), CExpr::MakeCls(1, vec![0], Box::new(CExpr::Var(1))))
    );
}

#[test]
fn array_operands_are_variables() {
    // let a = Array.make 3 0 in let u = (a.(1) <- 7) in a.(1)
    let mut bs = Binders::new();
    let a = bs.bind("a");
    let u = bs.bind("u");
    let e = Expr::Let {
        bndr: a,
        rhs: b(Expr::Array(b(Expr::Int(3)), b(Expr::Int(0)))),
        body: b(Expr::Let {
            bndr: u,
            rhs: b(Expr::Put(b(var("a")), b(Expr::Int(1)), b(Expr::Int(7)))),
            body: b(Expr::Get(b(var("a")), b(Expr::Int(1)))),
        }),
    };
    let (k, _ctx, tys) = lower(bs, &e);
    assert_eq!(
        k,
        klet(
            2,
            KExpr::Int(3),
            klet(
                3,
                KExpr::Int(0),
                klet(
                    0,
                    KExpr::Binary(BinOp::Array, 2, 3),
                    klet(
                        4,
                        KExpr::Int(1),
                        klet(
                            5,
                            KExpr::Int(7),
                            klet(
                                1,
                                KExpr::Put(0, 4, 5),
                                klet(6, KExpr::Int(1), KExpr::Binary(BinOp::Get, 0, 6)),
                            ),
                        ),
                    ),
                ),
            ),
        )
    );
    assert_eq!(
        tys,
        vec![
            Type::Array(Box::new(Type::Int)),
            Type::Unit,
            Type::Int,
            Type::Int,
            Type::Int,
            Type::Int,
            Type::Int,
        ]
    );
}

#[test]
fn builtin_and_external_names() {
    // print_int (foo + foo)
    let e = Expr::App {
        fun: b(var("print_int")),
        args: vec![Expr::Add(b(var("foo")), b(var("foo")))],
    };
    let mut ctx = Ctx::new();
    let mut tys: Vec<Type> = Vec::new();
    let k = knormal(&mut ctx, &mut tys, &e).unwrap();
    assert_eq!(k, klet(2, KExpr::Binary(BinOp::Add, 1, 1), KExpr::App(0, vec![2])));
    assert_eq!(ctx.len(), 3);
    assert_eq!(ctx.get_var(0).to_string(), "#builtin[print_int]");
    assert_eq!(ctx.get_var(1).to_string(), "#ext[foo]");
    assert_eq!(ctx.get_var(2).to_string(), "#kn_0x3");
    assert_eq!(tys, vec![fun(vec![Type::Int], Type::Unit), Type::Unit, Type::Int]);
}

#[test]
fn conditions_are_variables_and_branches_stay_expressions() {
    // if 1 <= 2 then -5 else 6
    let e = Expr::If(
        b(Expr::Le(b(Expr::Int(1)), b(Expr::Int(2)))),
        b(Expr::Neg(b(Expr::Int(5)))),
        b(Expr::Int(6)),
    );
    let mut ctx = Ctx::new();
    let mut tys: Vec<Type> = Vec::new();
    let k = knormal(&mut ctx, &mut tys, &e).unwrap();
    assert_eq!(
        k,
        klet(
            0,
            KExpr::Int(1),
            klet(
                1,
                KExpr::Int(2),
                klet(
                    2,
                    KExpr::Binary(BinOp::Le, 0, 1),
                    KExpr::If(
                        2,
                        Box::new(klet(3, KExpr::Int(5), KExpr::Unary(UnOp::Neg, 3))),
                        Box::new(KExpr::Int(6)),
                    ),
                ),
            ),
        )
    );
    assert_eq!(tys, vec![Type::Int, Type::Int, Type::Bool, Type::Int]);
}

#[test]
fn tuples_and_their_destructuring() {
    // let (p, q) = (1, true) in q
    let mut bs = Binders::new();
    let p = bs.bind("p");
    let q = bs.bind("q");
    let e = Expr::LetTuple {
        bndrs: vec![p, q],
        rhs: b(Expr::Tuple(vec![Expr::Int(1), Expr::Bool(true)])),
        body: b(var("q")),
    };
    let (k, _ctx, tys) = lower(bs, &e);
    assert_eq!(
        k,
        klet(
            2,
            KExpr::Int(1),
            klet(
                3,
                KExpr::Bool(true),
                klet(
                    4,
                    KExpr::Tuple(vec![2, 3]),
                    KExpr::LetTuple(vec![0, 1], 4, Box::new(KExpr::Var(1))),
                ),
            ),
        )
    );
    assert_eq!(tys[4], Type::Tuple(vec![Type::Int, Type::Bool]));
}

#[test]
fn nested_lets_are_flattened() {
    // let x = (let y = (let z = 1 in z) in y) in x
    let nested = klet(
        0,
        klet(1, klet(2, KExpr::Int(1), KExpr::Var(2)), KExpr::Var(1)),
        KExpr::Var(0),
    );
    let flat = klet(
        2,
        KExpr::Int(1),
        klet(1, KExpr::Var(2), klet(0, KExpr::Var(1), KExpr::Var(0))),
    );
    assert_eq!(anormal_expr(nested), flat);

    let mut in_place = klet(0, klet(1, KExpr::Int(1), KExpr::Int(2)), KExpr::Var(0));
    anormal(&mut in_place);
    assert_eq!(in_place, klet(1, KExpr::Int(1), klet(0, KExpr::Int(2), KExpr::Var(0))));
}

#[test]
fn other_forms_are_rebuilt_around_flattened_parts() {
    let nested = || klet(0, klet(1, KExpr::Int(1), KExpr::Var(1)), KExpr::Var(0));
    let flat = || klet(1, KExpr::Int(1), klet(0, KExpr::Var(1), KExpr::Var(0)));
    assert_eq!(
        anormal_expr(KExpr::If(9, Box::new(nested()), Box::new(nested()))),
        KExpr::If(9, Box::new(flat()), Box::new(flat()))
    );
    assert_eq!(
        anormal_expr(KExpr::LetRec(7, vec![8], Box::new(nested()), Box::new(nested()))),
        KExpr::LetRec(7, vec![8], Box::new(flat()), Box::new(flat()))
    );
    assert_eq!(
        anormal_expr(KExpr::LetTuple(vec![5], 6, Box::new(nested()))),
        KExpr::LetTuple(vec![5], 6, Box::new(flat()))
    );
    // a function definition on the right-hand side of a let stays there
    let rec = || KExpr::LetRec(7, vec![8], Box::new(KExpr::Var(8)), Box::new(KExpr::Var(7)));
    assert_eq!(anormal_expr(klet(0, rec(), KExpr::Var(0))), klet(0, rec(), KExpr::Var(0)));
}

#[test]
fn inner_functions_come_before_outer_ones() {
    // let rec f x = (let rec g y = y in g x) in f 1, in K-normal form
    let k = KExpr::LetRec(
        0,
        vec![1],
        Box::new(KExpr::LetRec(
            2,
            vec![3],
            Box::new(KExpr::Var(3)),
            Box::new(KExpr::App(2, vec![1])),
        )),
        Box::new(klet(4, KExpr::Int(1), KExpr::App(0, vec![4]))),
    );
    let tys = vec![
        fun(vec![Type::Int], Type::Int),
        Type::Int,
        fun(vec![Type::Int], Type::Int),
        Type::Int,
        Type::Int,
    ];
    let (funs, main) = closure_convert(k, &tys);
    assert_eq!(funs.len(), 2);
    assert_eq!(funs[0].name, 2);
    assert_eq!(funs[0].body, CExpr::Var(3));
    assert_eq!(funs[1].name, 0);
    assert_eq!(funs[1].body, CExpr::AppDir(2, vec![1]));
    assert!(!funs[0].closure && !funs[1].closure);
    assert_eq!(main, clet(4, CExpr::Int(1), CExpr::AppDir(0, vec![4])));
}

#[test]
fn a_call_outside_the_scope_of_a_direct_function_goes_through_a_closure() {
    // (let rec f x = x in f 1); h 2, in K-normal form: `h` is no known function
    let k = klet(
        5,
        KExpr::LetRec(
            0,
            vec![1],
            Box::new(KExpr::Var(1)),
            Box::new(KExpr::App(0, vec![2])),
        ),
        KExpr::App(0, vec![3]),
    );
    let (funs, main) = closure_convert(k, &Vec::new());
    assert_eq!(funs.len(), 1);
    assert_eq!(funs[0].ret_ty, Type::Unit);
    assert_eq!(main, clet(5, CExpr::AppDir(0, vec![2]), CExpr::AppCls(0, vec![3])));
}

#[test]
fn value_uses() {
    assert!(is_value_use(1, &KExpr::Var(1)));
    assert!(is_value_use(1, &KExpr::Tuple(vec![0, 1])));
    assert!(is_value_use(1, &KExpr::App(0, vec![1])));
    assert!(!is_value_use(1, &KExpr::App(1, vec![0])));
    assert!(is_value_use(1, &KExpr::Binary(BinOp::Eq, 1, 2)));
    assert!(is_value_use(1, &KExpr::If(1, Box::new(KExpr::Unit), Box::new(KExpr::Unit))));
    assert!(!is_value_use(1, &KExpr::Int(1)));
    assert!(contains_id(&vec![3, 4], 4));
    assert!(!contains_id(&vec![3, 4], 5));
}

use mincaml::subst::{deref_tyvar, norm_ty, occurs, resolve_ty};
use mincaml::type_check::new_tyvar;
use mincaml::types::{Type, TypeErr};
use mincaml::unify::unify;
use std::collections::HashMap;

fn fun(args: Vec<Type>, ret: Type) -> Type {
    Type::Fun { args, ret: Box::new(ret) }
}

#[test]
fn unify_test_1() {
    let mut tyvar_cnt = 0;
    let mut substs = HashMap::new();

    let ty1 = Type::Int;
    let ty2 = new_tyvar(&mut tyvar_cnt);
    unify(&mut substs, &ty1, &ty2).unwrap();
    assert_eq!(norm_ty(&substs, &ty2), &Type::Int);
    assert_eq!(norm_ty(&substs, &ty1), &Type::Int);

    let ty3 = new_tyvar(&mut tyvar_cnt);
    unify(&mut substs, &ty2, &ty3).unwrap();
    assert_eq!(norm_ty(&substs, &ty2), &Type::Int);
    assert_eq!(norm_ty(&substs, &ty3), &Type::Int);
}

#[test]
fn unify_test_2() {
    let mut tyvar_cnt = 0;
    let mut substs = HashMap::new();

    let ty1 = Type::Int;
    let ty2 = new_tyvar(&mut tyvar_cnt);
    let ty3 = new_tyvar(&mut tyvar_cnt);
    let ty4 = new_tyvar(&mut tyvar_cnt);
    let ty5 = new_tyvar(&mut tyvar_cnt);

    unify(&mut substs, &ty2, &ty3).unwrap();
    unify(&mut substs, &ty2, &ty4).unwrap();
    unify(&mut substs, &ty2, &ty5).unwrap();
    unify(&mut substs, &ty5, &ty1).unwrap();

    assert_eq!(norm_ty(&substs, &ty1), &Type::Int);
    assert_eq!(norm_ty(&substs, &ty2), &Type::Int);
    assert_eq!(norm_ty(&substs, &ty3), &Type::Int);
    assert_eq!(norm_ty(&substs, &ty4), &Type::Int);
    assert_eq!(norm_ty(&substs, &ty5), &Type::Int);
}

#[test]
fn new_tyvar_counts_up() {
    let mut cnt = 7;
    assert_eq!(new_tyvar(&mut cnt), Type::Var(7));
    assert_eq!(new_tyvar(&mut cnt), Type::Var(8));
    assert_eq!(cnt, 9);
}

#[test]
fn unify_rejects_different_arity() {
    let mut substs = HashMap::new();
    let a = fun(vec![Type::Int], Type::Int);
    let b = fun(vec![Type::Int, Type::Int], Type::Int);
    match unify(&mut substs, &a, &b) {
        Err(TypeErr::UnifyError(x, y)) => {
            assert_eq!(x, a);
            assert_eq!(y, b);
        }
        other => panic!("expected a clash, got {:?}", other),
    }
    assert!(substs.is_empty());
}

#[test]
fn unify_rejects_tuples_of_different_length() {
    let mut substs = HashMap::new();
    let a = Type::Tuple(vec![Type::Int]);
    let b = Type::Tuple(vec![Type::Int, Type::Bool]);
    assert!(matches!(unify(&mut substs, &a, &b), Err(TypeErr::UnifyError(_, _))));
}

#[test]
fn unify_binds_variable_on_either_side() {
    let mut left = HashMap::new();
    unify(&mut left, &Type::Var(3), &Type::Int).unwrap();
    assert_eq!(norm_ty(&left, &Type::Var(3)), &Type::Int);

    let mut right = HashMap::new();
    unify(&mut right, &Type::Int, &Type::Var(3)).unwrap();
    assert_eq!(norm_ty(&right, &Type::Var(3)), &Type::Int);
    assert_eq!(left, right);
}

#[test]
fn unify_two_variables_binds_the_left_one() {
    let mut substs = HashMap::new();
    unify(&mut substs, &Type::Var(1), &Type::Var(2)).unwrap();
    assert_eq!(substs.get(&1), Some(&Type::Var(2)));
    assert_eq!(substs.get(&2), None);
}

#[test]
fn unify_same_variable_binds_nothing() {
    let mut substs = HashMap::new();
    unify(&mut substs, &Type::Var(1), &Type::Var(1)).unwrap();
    assert!(substs.is_empty());
    assert_eq!(norm_ty(&substs, &Type::Var(1)), &Type::Var(1));
}

#[test]
fn unify_refuses_a_variable_inside_its_own_binding() {
    let mut substs = HashMap::new();
    let f = fun(vec![Type::Var(0)], Type::Int);
    match unify(&mut substs, &Type::Var(0), &f) {
        Err(TypeErr::UnifyError(x, y)) => {
            assert_eq!(x, Type::Var(0));
            assert_eq!(y, f);
        }
        other => panic!("expected a clash, got {:?}", other),
    }
    assert!(substs.is_empty());
}

#[test]
fn unify_refuses_a_cycle_through_another_variable() {
    let mut substs = HashMap::new();
    unify(&mut substs, &Type::Var(1), &Type::Array(Box::new(Type::Var(0)))).unwrap();
    let r = unify(&mut substs, &Type::Var(0), &Type::Tuple(vec![Type::Var(1)]));
    assert!(matches!(r, Err(TypeErr::UnifyError(_, _))));
    assert_eq!(substs.len(), 1);
}

#[test]
fn unify_clash_reports_normal_forms() {
    let mut substs = HashMap::new();
    unify(&mut substs, &Type::Var(0), &Type::Bool).unwrap();
    match unify(&mut substs, &Type::Var(0), &Type::Int) {
        Err(TypeErr::UnifyError(x, y)) => {
            assert_eq!(x, Type::Bool);
            assert_eq!(y, Type::Int);
        }
        other => panic!("expected a clash, got {:?}", other),
    }
}

#[test]
fn unify_functions_part_by_part() {
    let mut substs = HashMap::new();
    let a = fun(vec![Type::Var(0), Type::Bool], Type::Var(1));
    let b = fun(vec![Type::Int, Type::Var(2)], Type::Float);
    unify(&mut substs, &a, &b).unwrap();
    let want = fun(vec![Type::Int, Type::Bool], Type::Float);
    assert_eq!(resolve_ty(&substs, &a), want);
    assert_eq!(resolve_ty(&substs, &b), want);
}

#[test]
fn unify_keeps_bindings_made_before_a_clash() {
    let mut substs = HashMap::new();
    let a = Type::Tuple(vec![Type::Var(0), Type::Int]);
    let b = Type::Tuple(vec![Type::Bool, Type::Bool]);
    match unify(&mut substs, &a, &b) {
        Err(TypeErr::UnifyError(x, y)) => {
            assert_eq!(x, Type::Int);
            assert_eq!(y, Type::Bool);
        }
        other => panic!("expected a clash, got {:?}", other),
    }
    assert_eq!(substs.get(&0), Some(&Type::Bool));
}

#[test]
fn unify_later_pair_sees_earlier_binding() {
    let mut substs = HashMap::new();
    let a = Type::Tuple(vec![Type::Var(0), Type::Var(0)]);
    let b = Type::Tuple(vec![Type::Int, Type::Bool]);
    assert!(matches!(unify(&mut substs, &a, &b), Err(TypeErr::UnifyError(_, _))));
}

#[test]
fn unify_chain_resolves_alike() {
    let mut substs = HashMap::new();
    let t = Type::Array(Box::new(Type::Var(0)));
    let u = Type::Var(1);
    let v = Type::Array(Box::new(Type::Int));
    unify(&mut substs, &t, &u).unwrap();
    unify(&mut substs, &u, &v).unwrap();
    assert_eq!(resolve_ty(&substs, &t), resolve_ty(&substs, &v));
    assert_eq!(resolve_ty(&substs, &t), v);
}

#[test]
fn norm_stops_at_the_head() {
    let mut substs = HashMap::new();
    substs.insert(0, Type::Var(1));
    substs.insert(1, Type::Array(Box::new(Type::Var(2))));
    substs.insert(2, Type::Int);
    assert_eq!(norm_ty(&substs, &Type::Var(0)), &Type::Array(Box::new(Type::Var(2))));
    assert_eq!(deref_tyvar(&substs, 0), Type::Array(Box::new(Type::Var(2))));
    assert_eq!(deref_tyvar(&substs, 9), Type::Var(9));
    assert_eq!(resolve_ty(&substs, &Type::Var(0)), Type::Array(Box::new(Type::Int)));
}

#[test]
fn occurs_looks_through_bindings() {
    let mut substs = HashMap::new();
    substs.insert(0, Type::Tuple(vec![Type::Bool, Type::Var(1)]));
    assert!(occurs(&substs, 1, &Type::Var(0)));
    assert!(!occurs(&substs, 0, &Type::Var(0)));
    assert!(occurs(&substs, 5, &fun(vec![Type::Int], Type::Var(5))));
    assert!(!occurs(&substs, 5, &Type::Int));
}

#[test]
fn types_compare_by_structure() {
    let a = fun(vec![Type::Int, Type::Tuple(vec![Type::Bool])], Type::Unit);
    let b = a.clone();
    assert_eq!(a, b);
    assert_ne!(a, fun(vec![Type::Int], Type::Unit));
    assert_ne!(Type::Var(0), Type::Var(1));
    assert_ne!(Type::Float, Type::Int);
}

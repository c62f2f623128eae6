//! The type algebra, and its mathematical model.

use vstd::prelude::*;

verus! {

/// Type variables are represented as unique integers.
pub type TyVar = u64;

/// The mathematical model of a type: what contracts speak of.
pub enum Ty {
    Unit,
    Bool,
    Int,
    Float,
    Fun(Seq<Ty>, Box<Ty>),
    Tuple(Seq<Ty>),
    Array(Box<Ty>),
    Var(u64),
}

/// A type of the language. `Var` is a unification variable whose binding, if
/// it has one, lives in a substitution.
#[derive(Debug)]
pub enum Type {
    Unit,
    Bool,
    Int,
    Float,
    Fun { args: Vec<Type>, ret: Box<Type> },
    Tuple(Vec<Type>),
    Array(Box<Type>),
    Var(TyVar),
}

/// The model of a type.
pub open spec fn model(t: Type) -> Ty
    decreases t, 0int,
{
    match t {
        Type::Unit => Ty::Unit,
        Type::Bool => Ty::Bool,
        Type::Int => Ty::Int,
        Type::Float => Ty::Float,
        Type::Fun { args, ret } => Ty::Fun(model_seq(args@), Box::new(model(*ret))),
        Type::Tuple(args) => Ty::Tuple(model_seq(args@)),
        Type::Array(elem) => Ty::Array(Box::new(model(*elem))),
        Type::Var(v) => Ty::Var(v),
    }
}

/// The models of a sequence of types, element by element.
pub open spec fn model_seq(ts: Seq<Type>) -> Seq<Ty>
    decreases ts, 1int,
{
    Seq::new(
        ts.len(),
        |i: int|
            if 0 <= i < ts.len() {
                model(ts[i])
            } else {
                Ty::Unit
            },
    )
}

/// How the model descends into the components of a type.
pub proof fn lemma_model_parts(t: Type)
    ensures
        t matches Type::Fun { args, ret } ==> model(t) == Ty::Fun(
            model_seq(args@),
            Box::new(model(*ret)),
        ),
        t matches Type::Tuple(args) ==> model(t) == Ty::Tuple(model_seq(args@)),
        t matches Type::Array(elem) ==> model(t) == Ty::Array(Box::new(model(*elem))),
        t matches Type::Var(v) ==> model(t) == Ty::Var(v),
        t is Unit ==> model(t) == Ty::Unit,
        t is Bool ==> model(t) == Ty::Bool,
        t is Int ==> model(t) == Ty::Int,
        t is Float ==> model(t) == Ty::Float,
{
}

/// The model of a sequence has the length of the sequence, and holds the
/// models of its elements.
pub proof fn lemma_model_seq(ts: Seq<Type>)
    ensures
        model_seq(ts).len() == ts.len(),
        forall|i: int| 0 <= i < ts.len() ==> #[trigger] model_seq(ts)[i] == model(ts[i]),
{
}

impl View for Type {
    type V = Ty;

    open spec fn view(&self) -> Ty {
        model(*self)
    }
}

/// Whether a type holds no type variable at all.
pub open spec fn ground(t: Ty) -> bool
    decreases t,
{
    match t {
        Ty::Fun(args, ret) => (forall|i: int| 0 <= i < args.len() ==> ground(#[trigger] args[i]))
            && ground(*ret),
        Ty::Tuple(args) => forall|i: int| 0 <= i < args.len() ==> ground(#[trigger] args[i]),
        Ty::Array(elem) => ground(*elem),
        Ty::Var(_) => false,
        _ => true,
    }
}

/// Copies a vector of types.
pub fn clone_types(ts: &Vec<Type>) -> (r: Vec<Type>)
    ensures
        model_seq(r@) == model_seq(ts@),
    decreases ts, 1int,
{
    let mut out: Vec<Type> = Vec::new();
    let mut i: usize = 0;
    while i < ts.len()
        invariant
            i <= ts.len(),
            out.len() == i,
            forall|j: int| 0 <= j < i ==> model(out@[j]) == model(ts@[j]),
        decreases ts.len() - i,
    {
        out.push(clone_type(&ts[i]));
        i += 1;
    }
    assert(model_seq(out@) =~= model_seq(ts@));
    out
}

/// Copies a type.
pub fn clone_type(t: &Type) -> (r: Type)
    ensures
        r@ == t@,
    decreases t, 0int,
{
    match t {
        Type::Unit => Type::Unit,
        Type::Bool => Type::Bool,
        Type::Int => Type::Int,
        Type::Float => Type::Float,
        Type::Fun { args, ret } => Type::Fun {
            args: clone_types(args),
            ret: Box::new(clone_type(ret)),
        },
        Type::Tuple(args) => Type::Tuple(clone_types(args)),
        Type::Array(elem) => Type::Array(Box::new(clone_type(elem))),
        Type::Var(v) => Type::Var(*v),
    }
}

/// Structural equality of two vectors of types.
pub fn types_eq(a: &Vec<Type>, b: &Vec<Type>) -> (r: bool)
    ensures
        r == (model_seq(a@) == model_seq(b@)),
    decreases a, 1int,
{
    if a.len() != b.len() {
        assert(model_seq(a@).len() != model_seq(b@).len());
        return false;
    }
    let mut i: usize = 0;
    while i < a.len()
        invariant
            a.len() == b.len(),
            i <= a.len(),
            forall|j: int| 0 <= j < i ==> model(a@[j]) == model(b@[j]),
        decreases a.len() - i,
    {
        if !type_eq(&a[i], &b[i]) {
            assert(model_seq(a@)[i as int] != model_seq(b@)[i as int]);
            return false;
        }
        i += 1;
    }
    assert(model_seq(a@) =~= model_seq(b@));
    true
}

/// Structural equality of two types.
pub fn type_eq(a: &Type, b: &Type) -> (r: bool)
    ensures
        r == (a@ == b@),
    decreases a, 0int,
{
    match (a, b) {
        (Type::Unit, Type::Unit) => true,
        (Type::Bool, Type::Bool) => true,
        (Type::Int, Type::Int) => true,
        (Type::Float, Type::Float) => true,
        (Type::Fun { args: a1, ret: r1 }, Type::Fun { args: a2, ret: r2 }) => types_eq(a1, a2)
            && type_eq(r1, r2),
        (Type::Tuple(a1), Type::Tuple(a2)) => types_eq(a1, a2),
        (Type::Array(e1), Type::Array(e2)) => type_eq(e1, e2),
        (Type::Var(x), Type::Var(y)) => *x == *y,
        _ => false,
    }
}

impl Clone for Type {
    fn clone(&self) -> (r: Self)
        ensures
            r@ == self@,
    {
        clone_type(self)
    }
}

impl PartialEq for Type {
    fn eq(&self, other: &Self) -> (r: bool) {
        type_eq(self, other)
    }
}

impl Eq for Type {

}

impl vstd::std_specs::cmp::PartialEqSpecImpl for Type {
    open spec fn obeys_eq_spec() -> bool {
        true
    }

    open spec fn eq_spec(&self, other: &Self) -> bool {
        self@ == other@
    }
}

/// Why type inference failed.
#[derive(Debug)]
pub enum TypeErr {
    /// Can't unify these two types
    UnifyError(Type, Type),
    /// Unbound variable
    UnboundVar(String),
}

/// The mathematical model of a type error.
pub enum TypeErrModel {
    UnifyError(Ty, Ty),
    UnboundVar(Seq<char>),
}

impl View for TypeErr {
    type V = TypeErrModel;

    open spec fn view(&self) -> TypeErrModel {
        match self {
            TypeErr::UnifyError(a, b) => TypeErrModel::UnifyError(a@, b@),
            TypeErr::UnboundVar(name) => TypeErrModel::UnboundVar(name@),
        }
    }
}

} // verus!

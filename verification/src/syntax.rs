//! The abstract syntax tree that the parser hands to the front end.

use vstd::prelude::*;

verus! {

/// The identity of a binder: its index among the binders of a program,
/// which is also the identity of its variable in the table of variables.
pub type BinderId = u32;

/// A binding occurrence of a name.
#[derive(Debug)]
pub struct Binder {
    pub name: String,
    pub id: BinderId,
}

/// An expression of the source language.
#[derive(Debug)]
#[allow(inconsistent_fields)]
pub enum Expr {
    Unit,
    Bool(bool),
    Int(i64),
    /// A float literal, as the bits of its IEEE 754 double.
    Float(u64),
    Not(Box<Expr>),
    Neg(Box<Expr>),
    Add(Box<Expr>, Box<Expr>),
    Sub(Box<Expr>, Box<Expr>),
    FNeg(Box<Expr>),
    FAdd(Box<Expr>, Box<Expr>),
    FSub(Box<Expr>, Box<Expr>),
    FMul(Box<Expr>, Box<Expr>),
    FDiv(Box<Expr>, Box<Expr>),
    Eq(Box<Expr>, Box<Expr>),
    Le(Box<Expr>, Box<Expr>),
    If(Box<Expr>, Box<Expr>, Box<Expr>),
    Let { bndr: Binder, rhs: Box<Expr>, body: Box<Expr> },
    Var(String),
    LetRec { bndr: Binder, args: Vec<Binder>, rhs: Box<Expr>, body: Box<Expr> },
    App { fun: Box<Expr>, args: Vec<Expr> },
    Tuple(Vec<Expr>),
    LetTuple { bndrs: Vec<Binder>, rhs: Box<Expr>, body: Box<Expr> },
    /// `Array.make n x`
    Array(Box<Expr>, Box<Expr>),
    Get(Box<Expr>, Box<Expr>),
    Put(Box<Expr>, Box<Expr>, Box<Expr>),
}

} // verus!

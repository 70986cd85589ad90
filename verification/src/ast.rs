//! The abstract syntax tree produced by the parser, together with its
//! mathematical model.
//!
//! `Expr` is the executable tree; `SpecExpr` is the ghost tree that the
//! grammar functions in `grammar` speak about. `expr_view` relates the two.

use vstd::prelude::*;

verus! {

/// An expression of the language. Names are owned copies of the matched
/// source bytes. `Call` always carries at least one argument: a bare
/// identifier parses as `Reference`, never as a zero-argument `Call`.
#[derive(Debug, PartialEq)]
pub enum Expr {
    /// Integer literal, one or more decimal digits.
    Num(u64),
    /// A bare identifier used as a value.
    Reference(Vec<u8>),
    /// Prefix minus.
    Neg(Box<Expr>),
    Add(Box<Expr>, Box<Expr>),
    Sub(Box<Expr>, Box<Expr>),
    Mul(Box<Expr>, Box<Expr>),
    Div(Box<Expr>, Box<Expr>),
    /// `name = value;`
    Binding { name: Vec<u8>, value: Box<Expr> },
    /// `let b1 b2 ... in body`
    LetIn { bindings: Vec<Expr>, body: Box<Expr> },
    /// Prefix application `f a b c`, one or more arguments.
    Call(Vec<u8>, Vec<Expr>),
    /// `arg: body`
    Lambda { arg: Vec<u8>, body: Box<Expr> },
}

/// The ghost counterpart of `Expr`: numbers as unbounded naturals, names
/// as byte sequences.
pub ghost enum SpecExpr {
    Num(nat),
    Reference(Seq<u8>),
    Neg(Box<SpecExpr>),
    Add(Box<SpecExpr>, Box<SpecExpr>),
    Sub(Box<SpecExpr>, Box<SpecExpr>),
    Mul(Box<SpecExpr>, Box<SpecExpr>),
    Div(Box<SpecExpr>, Box<SpecExpr>),
    Binding { name: Seq<u8>, value: Box<SpecExpr> },
    LetIn { bindings: Seq<SpecExpr>, body: Box<SpecExpr> },
    Call(Seq<u8>, Seq<SpecExpr>),
    Lambda { arg: Seq<u8>, body: Box<SpecExpr> },
}

/// The model of an executable tree.
pub open spec fn expr_view(e: Expr) -> SpecExpr
    decreases e,
{
    match e {
        Expr::Num(n) => SpecExpr::Num(n as nat),
        Expr::Reference(name) => SpecExpr::Reference(name@),
        Expr::Neg(a) => SpecExpr::Neg(Box::new(expr_view(*a))),
        Expr::Add(a, b) => SpecExpr::Add(Box::new(expr_view(*a)), Box::new(expr_view(*b))),
        Expr::Sub(a, b) => SpecExpr::Sub(Box::new(expr_view(*a)), Box::new(expr_view(*b))),
        Expr::Mul(a, b) => SpecExpr::Mul(Box::new(expr_view(*a)), Box::new(expr_view(*b))),
        Expr::Div(a, b) => SpecExpr::Div(Box::new(expr_view(*a)), Box::new(expr_view(*b))),
        Expr::Binding { name, value } => SpecExpr::Binding {
            name: name@,
            value: Box::new(expr_view(*value)),
        },
        Expr::LetIn { bindings, body } => SpecExpr::LetIn {
            bindings: exprs_view(bindings@),
            body: Box::new(expr_view(*body)),
        },
        Expr::Call(name, args) => SpecExpr::Call(name@, exprs_view(args@)),
        Expr::Lambda { arg, body } => SpecExpr::Lambda {
            arg: arg@,
            body: Box::new(expr_view(*body)),
        },
    }
}

/// The model of a sequence of executable trees, element by element.
pub open spec fn exprs_view(s: Seq<Expr>) -> Seq<SpecExpr>
    decreases s,
{
    if s.len() == 0 {
        Seq::empty()
    } else {
        exprs_view(s.drop_last()).push(expr_view(s.last()))
    }
}

/// Structural soundness of a tree: every name has at least one byte, and a
/// `Call` carries at least one argument.
pub open spec fn wf_expr(e: SpecExpr) -> bool
    decreases e,
{
    match e {
        SpecExpr::Num(_) => true,
        SpecExpr::Reference(name) => name.len() >= 1,
        SpecExpr::Neg(a) => wf_expr(*a),
        SpecExpr::Add(a, b) => wf_expr(*a) && wf_expr(*b),
        SpecExpr::Sub(a, b) => wf_expr(*a) && wf_expr(*b),
        SpecExpr::Mul(a, b) => wf_expr(*a) && wf_expr(*b),
        SpecExpr::Div(a, b) => wf_expr(*a) && wf_expr(*b),
        SpecExpr::Binding { name, value } => name.len() >= 1 && wf_expr(*value),
        SpecExpr::LetIn { bindings, body } => wf_exprs(bindings) && wf_expr(*body),
        SpecExpr::Call(name, args) => name.len() >= 1 && args.len() >= 1 && wf_exprs(args),
        SpecExpr::Lambda { arg, body } => arg.len() >= 1 && wf_expr(*body),
    }
}

/// Structural soundness of every tree in a sequence.
pub open spec fn wf_exprs(s: Seq<SpecExpr>) -> bool
    decreases s,
{
    forall|i: int| 0 <= i < s.len() ==> wf_expr(#[trigger] s[i])
}

impl View for Expr {
    type V = SpecExpr;

    open spec fn view(&self) -> SpecExpr {
        expr_view(*self)
    }
}

/// Appending one tree to a sequence appends its model to the sequence's
/// model.
pub proof fn lemma_exprs_view_push(s: Seq<Expr>, e: Expr)
    ensures
        exprs_view(s.push(e)) == exprs_view(s).push(expr_view(e)),
{
    assert(s.push(e).drop_last() =~= s);
    assert(s.push(e).last() == e);
}

} // verus!

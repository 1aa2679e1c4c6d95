//! Statement syntax trees.
use vstd::prelude::*;
use std::rc::Rc;
use crate::expr::Expr;
use crate::token::Token;

verus! {

/// A member of a class body.
#[derive(Debug, PartialEq)]
pub enum ClassMember {
    Method { name: Token, parameters: Rc<Vec<Token>>, body: Rc<Vec<Stmt>> },
    StaticMethod { name: Token, parameters: Rc<Vec<Token>>, body: Rc<Vec<Stmt>> },
    Getter { name: Token, body: Rc<Vec<Stmt>> },
}

/// A Lox statement.
#[derive(Debug, PartialEq)]
pub enum Stmt {
    Expression { expression: Expr },
    Print { expression: Expr },
    Var { name: Token, initializer: Option<Expr> },
    Block { statements: Vec<Stmt> },
    If { condition: Expr, then_branch: Box<Stmt>, else_branch: Option<Box<Stmt>> },
    While { condition: Expr, body: Box<Stmt> },
    Break,
    Function { name: Token, parameters: Rc<Vec<Token>>, body: Rc<Vec<Stmt>> },
    Class { name: Token, superclass: Option<Expr>, methods: Vec<ClassMember> },
    Return { keyword: Token, value: Option<Expr> },
}

} // verus!

//! Expression syntax trees.
use vstd::prelude::*;
use std::rc::Rc;
use crate::expr_id::ExprId;
use crate::stmt::Stmt;
use crate::token::{Literal, Token};

verus! {

/// A Lox expression. Expressions that refer to a variable (`Variable`,
/// `Assign`, `This`, `Super`) carry an [`ExprId`] under which the resolver
/// records where the variable lives.
#[derive(Debug, PartialEq)]
pub enum Expr {
    Binary { left: Box<Expr>, operator: Token, right: Box<Expr> },
    Grouping { expression: Box<Expr> },
    Literal { value: Literal },
    Unary { operator: Token, right: Box<Expr> },
    Variable { id: ExprId, name: Token },
    Assign { id: ExprId, name: Token, value: Box<Expr> },
    Logical { left: Box<Expr>, operator: Token, right: Box<Expr> },
    Call { callee: Box<Expr>, paren: Token, arguments: Vec<Expr> },
    Get { object: Box<Expr>, name: Token },
    SetProperty { object: Box<Expr>, name: Token, value: Box<Expr> },
    This { id: ExprId, keyword: Token },
    Super { id: ExprId, keyword: Token, method: Token },
    Function { params: Rc<Vec<Token>>, body: Rc<Vec<Stmt>> },
}

} // verus!

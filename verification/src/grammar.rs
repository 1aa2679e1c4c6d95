//! The Lox grammar, as what parsing a list of tokens gives: syntax trees
//! described as plain values, and, for each rule, the tree (or failure) and
//! the parser's position, loop nesting and next expression identifier after
//! it. The parser's contracts say that it builds exactly these trees.
//!
//! The rules call each other recursively, so each is opaque: a proof that
//! needs a rule's definition reveals it together with the rules it calls.
use vstd::prelude::*;
use crate::expr::Expr;
use crate::expr_id::ExprId;
use crate::stmt::{ClassMember, Stmt};
use crate::lox::{report_text, token_location};
use crate::token::{Literal, Token, TokenType};

verus! {

// ----------------------------------------------------------------------
// Syntax trees as values.

/// An expression, with lists as sequences.
pub enum SExpr {
    Binary { left: Box<SExpr>, operator: Token, right: Box<SExpr> },
    Grouping { expression: Box<SExpr> },
    Literal { value: Literal },
    Unary { operator: Token, right: Box<SExpr> },
    Variable { id: ExprId, name: Token },
    Assign { id: ExprId, name: Token, value: Box<SExpr> },
    Logical { left: Box<SExpr>, operator: Token, right: Box<SExpr> },
    Call { callee: Box<SExpr>, paren: Token, arguments: Seq<SExpr> },
    Get { object: Box<SExpr>, name: Token },
    SetProperty { object: Box<SExpr>, name: Token, value: Box<SExpr> },
    This { id: ExprId, keyword: Token },
    Super { id: ExprId, keyword: Token, method: Token },
    Function { params: Seq<Token>, body: Seq<SStmt> },
}

/// A member of a class body, with lists as sequences.
pub enum SMember {
    Method { name: Token, parameters: Seq<Token>, body: Seq<SStmt> },
    StaticMethod { name: Token, parameters: Seq<Token>, body: Seq<SStmt> },
    Getter { name: Token, body: Seq<SStmt> },
}

/// A statement, with lists as sequences.
pub enum SStmt {
    Expression { expression: SExpr },
    Print { expression: SExpr },
    Var { name: Token, initializer: Option<SExpr> },
    Block { statements: Seq<SStmt> },
    If { condition: SExpr, then_branch: Box<SStmt>, else_branch: Option<Box<SStmt>> },
    While { condition: SExpr, body: Box<SStmt> },
    Break,
    Function { name: Token, parameters: Seq<Token>, body: Seq<SStmt> },
    Class { name: Token, superclass: Option<SExpr>, methods: Seq<SMember> },
    Return { keyword: Token, value: Option<SExpr> },
}

/// An expression as a plain value.
pub open spec fn expr_view(e: Expr) -> SExpr
    decreases e,
{
    match e {
        Expr::Binary { left, operator, right } => SExpr::Binary {
            left: Box::new(expr_view(*left)),
            operator,
            right: Box::new(expr_view(*right)),
        },
        Expr::Grouping { expression } => SExpr::Grouping { expression: Box::new(expr_view(*expression)) },
        Expr::Literal { value } => SExpr::Literal { value },
        Expr::Unary { operator, right } => SExpr::Unary { operator, right: Box::new(expr_view(*right)) },
        Expr::Variable { id, name } => SExpr::Variable { id, name },
        Expr::Assign { id, name, value } => SExpr::Assign { id, name, value: Box::new(expr_view(*value)) },
        Expr::Logical { left, operator, right } => SExpr::Logical {
            left: Box::new(expr_view(*left)),
            operator,
            right: Box::new(expr_view(*right)),
        },
        Expr::Call { callee, paren, arguments } => SExpr::Call {
            callee: Box::new(expr_view(*callee)),
            paren,
            arguments: exprs_view(arguments@),
        },
        Expr::Get { object, name } => SExpr::Get { object: Box::new(expr_view(*object)), name },
        Expr::SetProperty { object, name, value } => SExpr::SetProperty {
            object: Box::new(expr_view(*object)),
            name,
            value: Box::new(expr_view(*value)),
        },
        Expr::This { id, keyword } => SExpr::This { id, keyword },
        Expr::Super { id, keyword, method } => SExpr::Super { id, keyword, method },
        Expr::Function { params, body } => SExpr::Function { params: (*params)@, body: stmts_view((*body)@) },
    }
}

/// A list of expressions as plain values.
pub open spec fn exprs_view(es: Seq<Expr>) -> Seq<SExpr>
    decreases es,
{
    if es.len() == 0 {
        Seq::empty()
    } else {
        exprs_view(es.drop_last()).push(expr_view(es.last()))
    }
}

/// A statement as a plain value.
pub open spec fn stmt_view(s: Stmt) -> SStmt
    decreases s,
{
    match s {
        Stmt::Expression { expression } => SStmt::Expression { expression: expr_view(expression) },
        Stmt::Print { expression } => SStmt::Print { expression: expr_view(expression) },
        Stmt::Var { name, initializer } => SStmt::Var {
            name,
            initializer: match initializer {
                Some(e) => Some(expr_view(e)),
                None => None,
            },
        },
        Stmt::Block { statements } => SStmt::Block { statements: stmts_view(statements@) },
        Stmt::If { condition, then_branch, else_branch } => SStmt::If {
            condition: expr_view(condition),
            then_branch: Box::new(stmt_view(*then_branch)),
            else_branch: match else_branch {
                Some(e) => Some(Box::new(stmt_view(*e))),
                None => None,
            },
        },
        Stmt::While { condition, body } => SStmt::While {
            condition: expr_view(condition),
            body: Box::new(stmt_view(*body)),
        },
        Stmt::Break => SStmt::Break,
        Stmt::Function { name, parameters, body } => SStmt::Function {
            name,
            parameters: (*parameters)@,
            body: stmts_view((*body)@),
        },
        Stmt::Class { name, superclass, methods } => SStmt::Class {
            name,
            superclass: match superclass {
                Some(e) => Some(expr_view(e)),
                None => None,
            },
            methods: members_view(methods@),
        },
        Stmt::Return { keyword, value } => SStmt::Return {
            keyword,
            value: match value {
                Some(e) => Some(expr_view(e)),
                None => None,
            },
        },
    }
}

/// A list of statements as plain values.
pub open spec fn stmts_view(ss: Seq<Stmt>) -> Seq<SStmt>
    decreases ss,
{
    if ss.len() == 0 {
        Seq::empty()
    } else {
        stmts_view(ss.drop_last()).push(stmt_view(ss.last()))
    }
}

/// A class member as a plain value.
pub open spec fn member_view(m: ClassMember) -> SMember
    decreases m,
{
    match m {
        ClassMember::Method { name, parameters, body } => SMember::Method {
            name,
            parameters: (*parameters)@,
            body: stmts_view((*body)@),
        },
        ClassMember::StaticMethod { name, parameters, body } => SMember::StaticMethod {
            name,
            parameters: (*parameters)@,
            body: stmts_view((*body)@),
        },
        ClassMember::Getter { name, body } => SMember::Getter { name, body: stmts_view((*body)@) },
    }
}

/// A list of class members as plain values.
pub open spec fn members_view(ms: Seq<ClassMember>) -> Seq<SMember>
    decreases ms,
{
    if ms.len() == 0 {
        Seq::empty()
    } else {
        members_view(ms.drop_last()).push(member_view(ms.last()))
    }
}


/// Viewing a list with one more expression adds that expression's view.
pub proof fn lemma_exprs_view_push(es: Seq<Expr>, e: Expr)
    ensures
        exprs_view(es.push(e)) == exprs_view(es).push(expr_view(e)),
{
    assert(es.push(e).drop_last() =~= es);
}

/// Viewing a list with one more statement adds that statement's view.
pub proof fn lemma_stmts_view_push(ss: Seq<Stmt>, s: Stmt)
    ensures
        stmts_view(ss.push(s)) == stmts_view(ss).push(stmt_view(s)),
{
    assert(ss.push(s).drop_last() =~= ss);
}

/// Viewing a list with one more class member adds that member's view.
pub proof fn lemma_members_view_push(ms: Seq<ClassMember>, m: ClassMember)
    ensures
        members_view(ms.push(m)) == members_view(ms).push(member_view(m)),
{
    assert(ms.push(m).drop_last() =~= ms);
}

// ----------------------------------------------------------------------
// The parser's state, and what each rule gives.

/// Where the parser is: the position of the current token, how many loops
/// enclose it, the next expression identifier to hand out, and the errors
/// reported so far (each as its report line).
pub struct PState {
    pub pos: nat,
    pub depth: nat,
    pub id: nat,
    pub reports: Seq<Seq<char>>,
}

/// What a rule gives: a tree, or `None` where it fails (after reporting an
/// error), and the state after it.
pub struct Parsed<T> {
    pub value: Option<T>,
    pub next: PState,
}

/// The rule failed; the parser is at `st`.
pub open spec fn fail<T>(st: PState) -> Parsed<T> {
    Parsed { value: None, next: st }
}

/// `st`, with the error `message` reported at `token`.
pub open spec fn report(st: PState, token: Token, message: Seq<char>) -> PState {
    PState { reports: st.reports.push(report_text(token.line as nat, token_location(token), message)), ..st }
}

/// The rule gave `v`; the parser is at `st`.
pub open spec fn done<T>(v: T, st: PState) -> Parsed<T> {
    Parsed { value: Some(v), next: st }
}

/// The kind of the current token.
pub open spec fn kind_at(toks: Seq<Token>, st: PState) -> TokenType {
    toks[st.pos as int].token_type
}

pub open spec fn at_end(toks: Seq<Token>, st: PState) -> bool {
    kind_at(toks, st) == TokenType::Eof
}

/// The current token has kind `t` (the end of input never does).
pub open spec fn check(toks: Seq<Token>, st: PState, t: TokenType) -> bool {
    !at_end(toks, st) && kind_at(toks, st) == t
}

/// The token after the current one has kind `t`.
pub open spec fn check_next(toks: Seq<Token>, st: PState, t: TokenType) -> bool {
    !at_end(toks, st) && st.pos + 1 < toks.len() && toks[(st.pos + 1) as int].token_type == t
}

/// One token further.
pub open spec fn skip(st: PState) -> PState {
    PState { pos: st.pos + 1, ..st }
}

/// The current token, if it has kind `t`.
pub open spec fn consume_s(toks: Seq<Token>, st: PState, t: TokenType, message: Seq<char>) -> Parsed<Token> {
    if check(toks, st, t) {
        done(toks[st.pos as int], skip(st))
    } else {
        fail(report(st, toks[st.pos as int], message))
    }
}

/// A fresh expression identifier (there are `usize::MAX` of them).
pub open spec fn new_id(toks: Seq<Token>, st: PState) -> Parsed<ExprId> {
    if st.id < usize::MAX {
        done(st.id as usize, PState { id: st.id + 1, ..st })
    } else {
        fail(report(st, toks[st.pos as int], "Too many expressions."@))
    }
}

/// `after` is further on than `before`, and still within the tokens.
pub open spec fn advanced(toks: Seq<Token>, before: PState, after: PState) -> bool {
    before.pos < after.pos < toks.len()
}

/// A binary node.
pub open spec fn binary(left: SExpr, operator: Token, right: SExpr) -> SExpr {
    SExpr::Binary { left: Box::new(left), operator, right: Box::new(right) }
}

/// A logical node.
pub open spec fn logical(left: SExpr, operator: Token, right: SExpr) -> SExpr {
    SExpr::Logical { left: Box::new(left), operator, right: Box::new(right) }
}

// ----------------------------------------------------------------------
// Expressions, from the loosest binding to the tightest.

/// An expression: an assignment or anything that binds tighter.
#[verifier::opaque]
pub open spec fn expression_s(toks: Seq<Token>, st: PState) -> Parsed<SExpr>
    decreases toks.len() - st.pos, 300int,
{
    if st.pos >= toks.len() {
        fail(st)
    } else {
        assignment_s(toks, st)
    }
}

/// `target = value`, right-associative; a target that is neither a variable
/// nor a property is reported and the left side stands.
#[verifier::opaque]
pub open spec fn assignment_s(toks: Seq<Token>, st: PState) -> Parsed<SExpr>
    decreases toks.len() - st.pos, 290int,
{
    if st.pos >= toks.len() {
        fail(st)
    } else {
        let l = logic_or_s(toks, st);
        match l.value {
            None => l,
            Some(target) => if advanced(toks, st, l.next) && check(toks, l.next, TokenType::Equal) {
                let v = assignment_s(toks, skip(l.next));
                match v.value {
                    None => v,
                    Some(value) => match target {
                        SExpr::Variable { name, .. } => {
                            let id = new_id(toks, v.next);
                            match id.value {
                                Some(i) => done(SExpr::Assign { id: i, name, value: Box::new(value) }, id.next),
                                None => fail(id.next),
                            }
                        },
                        SExpr::Get { object, name } => done(
                            SExpr::SetProperty { object, name, value: Box::new(value) },
                            v.next,
                        ),
                        _ => done(target, report(v.next, toks[l.next.pos as int], "Invalid assignment target."@)),
                    },
                }
            } else {
                l
            },
        }
    }
}

/// Operands joined by `or`.
#[verifier::opaque]
pub open spec fn logic_or_s(toks: Seq<Token>, st: PState) -> Parsed<SExpr>
    decreases toks.len() - st.pos, 280int,
{
    if st.pos >= toks.len() {
        fail(st)
    } else {
        let l = logic_and_s(toks, st);
        match l.value {
            Some(e) => if advanced(toks, st, l.next) { or_rest(toks, l.next, e) } else { l },
            None => l,
        }
    }
}

/// More `or` operands after `left`, folded to the left.
#[verifier::opaque]
pub open spec fn or_rest(toks: Seq<Token>, st: PState, left: SExpr) -> Parsed<SExpr>
    decreases toks.len() - st.pos, 280int,
{
    if st.pos >= toks.len() {
        fail(st)
    } else if check(toks, st, TokenType::Or) {
        let r = logic_and_s(toks, skip(st));
        match r.value {
            Some(right) => if advanced(toks, st, r.next) {
                or_rest(toks, r.next, logical(left, toks[st.pos as int], right))
            } else {
                fail(r.next)
            },
            None => r,
        }
    } else {
        done(left, st)
    }
}

/// Operands joined by `and`.
#[verifier::opaque]
pub open spec fn logic_and_s(toks: Seq<Token>, st: PState) -> Parsed<SExpr>
    decreases toks.len() - st.pos, 270int,
{
    if st.pos >= toks.len() {
        fail(st)
    } else {
        let l = equality_s(toks, st);
        match l.value {
            Some(e) => if advanced(toks, st, l.next) { and_rest(toks, l.next, e) } else { l },
            None => l,
        }
    }
}

/// More `and` operands after `left`, folded to the left.
#[verifier::opaque]
pub open spec fn and_rest(toks: Seq<Token>, st: PState, left: SExpr) -> Parsed<SExpr>
    decreases toks.len() - st.pos, 270int,
{
    if st.pos >= toks.len() {
        fail(st)
    } else if check(toks, st, TokenType::And) {
        let r = equality_s(toks, skip(st));
        match r.value {
            Some(right) => if advanced(toks, st, r.next) {
                and_rest(toks, r.next, logical(left, toks[st.pos as int], right))
            } else {
                fail(r.next)
            },
            None => r,
        }
    } else {
        done(left, st)
    }
}

/// Comparisons joined by `==` or `!=`.
#[verifier::opaque]
pub open spec fn equality_s(toks: Seq<Token>, st: PState) -> Parsed<SExpr>
    decreases toks.len() - st.pos, 260int,
{
    if st.pos >= toks.len() {
        fail(st)
    } else {
        let l = comparison_s(toks, st);
        match l.value {
            Some(e) => if advanced(toks, st, l.next) { equality_rest(toks, l.next, e) } else { l },
            None => l,
        }
    }
}

/// More `==` / `!=` operands after `left`, folded to the left.
#[verifier::opaque]
pub open spec fn equality_rest(toks: Seq<Token>, st: PState, left: SExpr) -> Parsed<SExpr>
    decreases toks.len() - st.pos, 260int,
{
    if st.pos >= toks.len() {
        fail(st)
    } else if check(toks, st, TokenType::BangEqual) || check(toks, st, TokenType::EqualEqual) {
        let r = comparison_s(toks, skip(st));
        match r.value {
            Some(right) => if advanced(toks, st, r.next) {
                equality_rest(toks, r.next, binary(left, toks[st.pos as int], right))
            } else {
                fail(r.next)
            },
            None => r,
        }
    } else {
        done(left, st)
    }
}

/// Terms joined by `>`, `>=`, `<` or `<=`.
#[verifier::opaque]
pub open spec fn comparison_s(toks: Seq<Token>, st: PState) -> Parsed<SExpr>
    decreases toks.len() - st.pos, 250int,
{
    if st.pos >= toks.len() {
        fail(st)
    } else {
        let l = term_s(toks, st);
        match l.value {
            Some(e) => if advanced(toks, st, l.next) { comparison_rest(toks, l.next, e) } else { l },
            None => l,
        }
    }
}

/// More comparison operands after `left`, folded to the left.
#[verifier::opaque]
pub open spec fn comparison_rest(toks: Seq<Token>, st: PState, left: SExpr) -> Parsed<SExpr>
    decreases toks.len() - st.pos, 250int,
{
    if st.pos >= toks.len() {
        fail(st)
    } else if check(toks, st, TokenType::Greater) || check(toks, st, TokenType::GreaterEqual) || check(
        toks,
        st,
        TokenType::Less,
    ) || check(toks, st, TokenType::LessEqual) {
        let r = term_s(toks, skip(st));
        match r.value {
            Some(right) => if advanced(toks, st, r.next) {
                comparison_rest(toks, r.next, binary(left, toks[st.pos as int], right))
            } else {
                fail(r.next)
            },
            None => r,
        }
    } else {
        done(left, st)
    }
}

/// Factors joined by `-` or `+`.
#[verifier::opaque]
pub open spec fn term_s(toks: Seq<Token>, st: PState) -> Parsed<SExpr>
    decreases toks.len() - st.pos, 240int,
{
    if st.pos >= toks.len() {
        fail(st)
    } else {
        let l = factor_s(toks, st);
        match l.value {
            Some(e) => if advanced(toks, st, l.next) { term_rest(toks, l.next, e) } else { l },
            None => l,
        }
    }
}

/// More `-` / `+` operands after `left`, folded to the left.
#[verifier::opaque]
pub open spec fn term_rest(toks: Seq<Token>, st: PState, left: SExpr) -> Parsed<SExpr>
    decreases toks.len() - st.pos, 240int,
{
    if st.pos >= toks.len() {
        fail(st)
    } else if check(toks, st, TokenType::Minus) || check(toks, st, TokenType::Plus) {
        let r = factor_s(toks, skip(st));
        match r.value {
            Some(right) => if advanced(toks, st, r.next) {
                term_rest(toks, r.next, binary(left, toks[st.pos as int], right))
            } else {
                fail(r.next)
            },
            None => r,
        }
    } else {
        done(left, st)
    }
}

/// Unary expressions joined by `/` or `*`.
#[verifier::opaque]
pub open spec fn factor_s(toks: Seq<Token>, st: PState) -> Parsed<SExpr>
    decreases toks.len() - st.pos, 230int,
{
    if st.pos >= toks.len() {
        fail(st)
    } else {
        let l = unary_s(toks, st);
        match l.value {
            Some(e) => if advanced(toks, st, l.next) { factor_rest(toks, l.next, e) } else { l },
            None => l,
        }
    }
}

/// More `/` / `*` operands after `left`, folded to the left.
#[verifier::opaque]
pub open spec fn factor_rest(toks: Seq<Token>, st: PState, left: SExpr) -> Parsed<SExpr>
    decreases toks.len() - st.pos, 230int,
{
    if st.pos >= toks.len() {
        fail(st)
    } else if check(toks, st, TokenType::Slash) || check(toks, st, TokenType::Star) {
        let r = unary_s(toks, skip(st));
        match r.value {
            Some(right) => if advanced(toks, st, r.next) {
                factor_rest(toks, r.next, binary(left, toks[st.pos as int], right))
            } else {
                fail(r.next)
            },
            None => r,
        }
    } else {
        done(left, st)
    }
}

/// `!` or `-` applied to a unary expression, or a call.
#[verifier::opaque]
pub open spec fn unary_s(toks: Seq<Token>, st: PState) -> Parsed<SExpr>
    decreases toks.len() - st.pos, 220int,
{
    if st.pos >= toks.len() {
        fail(st)
    } else if check(toks, st, TokenType::Bang) || check(toks, st, TokenType::Minus) {
        let r = unary_s(toks, skip(st));
        match r.value {
            Some(right) => done(SExpr::Unary { operator: toks[st.pos as int], right: Box::new(right) }, r.next),
            None => r,
        }
    } else {
        call_s(toks, st)
    }
}

/// A primary expression followed by calls and property reads.
#[verifier::opaque]
pub open spec fn call_s(toks: Seq<Token>, st: PState) -> Parsed<SExpr>
    decreases toks.len() - st.pos, 210int,
{
    if st.pos >= toks.len() {
        fail(st)
    } else {
        let p = primary_s(toks, st);
        match p.value {
            Some(e) => if advanced(toks, st, p.next) { call_rest(toks, p.next, e) } else { p },
            None => p,
        }
    }
}

/// Calls and property reads after `callee`, applied from left to right.
#[verifier::opaque]
pub open spec fn call_rest(toks: Seq<Token>, st: PState, callee: SExpr) -> Parsed<SExpr>
    decreases toks.len() - st.pos, 210int,
{
    if st.pos >= toks.len() {
        fail(st)
    } else if check(toks, st, TokenType::LeftParen) {
        let c = finish_call_s(toks, skip(st), callee);
        match c.value {
            Some(e) => if advanced(toks, st, c.next) { call_rest(toks, c.next, e) } else { fail(c.next) },
            None => c,
        }
    } else if check(toks, st, TokenType::Dot) {
        let n = consume_s(toks, skip(st), TokenType::Identifier, "Expect property name after '.'."@);
        match n.value {
            Some(name) => if advanced(toks, st, n.next) {
                call_rest(toks, n.next, SExpr::Get { object: Box::new(callee), name })
            } else {
                fail(n.next)
            },
            None => fail(n.next),
        }
    } else {
        done(callee, st)
    }
}

/// The arguments and closing parenthesis of a call whose `(` is consumed.
#[verifier::opaque]
pub open spec fn finish_call_s(toks: Seq<Token>, st: PState, callee: SExpr) -> Parsed<SExpr>
    decreases toks.len() - st.pos, 310int,
{
    if st.pos >= toks.len() {
        fail(st)
    } else {
        let args = if !check(toks, st, TokenType::RightParen) {
            args_rest(toks, st, Seq::empty())
        } else {
            done(Seq::empty(), st)
        };
        match args.value {
            Some(arguments) => if args.next.pos >= st.pos {
                let paren = consume_s(toks, args.next, TokenType::RightParen, "Expect ')' after arguments."@);
                match paren.value {
                    Some(p) => done(SExpr::Call { callee: Box::new(callee), paren: p, arguments }, paren.next),
                    None => fail(paren.next),
                }
            } else {
                fail(args.next)
            },
            None => fail(args.next),
        }
    }
}

/// Arguments separated by commas, after those in `acc`.
#[verifier::opaque]
pub open spec fn args_rest(toks: Seq<Token>, st: PState, acc: Seq<SExpr>) -> Parsed<Seq<SExpr>>
    decreases toks.len() - st.pos, 305int,
{
    if st.pos >= toks.len() {
        fail(st)
    } else {
        let a = expression_s(
            toks,
            if acc.len() >= 255 {
                report(st, toks[st.pos as int], "Can't have more than 255 arguments."@)
            } else {
                st
            },
        );
        match a.value {
            Some(e) => if advanced(toks, st, a.next) && check(toks, a.next, TokenType::Comma) {
                args_rest(toks, skip(a.next), acc.push(e))
            } else {
                done(acc.push(e), a.next)
            },
            None => fail(a.next),
        }
    }
}

/// A literal, a grouping, `super.name`, `this`, a variable, or an
/// anonymous function (`fun` not followed by a name and `(`).
#[verifier::opaque]
pub open spec fn primary_s(toks: Seq<Token>, st: PState) -> Parsed<SExpr>
    decreases toks.len() - st.pos, 190int,
{
    if st.pos >= toks.len() {
        fail(st)
    } else if check(toks, st, TokenType::Fun) {
        let after = skip(st);
        if after.pos < toks.len() && check(toks, after, TokenType::Identifier) && check_next(
            toks,
            after,
            TokenType::LeftParen,
        ) {
            fail(report(after, toks[st.pos as int], "Expect expression."@))
        } else {
            function_body_s(toks, after, "function"@)
        }
    } else if check(toks, st, TokenType::False) {
        done(SExpr::Literal { value: Literal::Boolean(false) }, skip(st))
    } else if check(toks, st, TokenType::True) {
        done(SExpr::Literal { value: Literal::Boolean(true) }, skip(st))
    } else if check(toks, st, TokenType::Nil) {
        done(SExpr::Literal { value: Literal::Nil }, skip(st))
    } else if check(toks, st, TokenType::Number) || check(toks, st, TokenType::String) {
        done(
            SExpr::Literal {
                value: match toks[st.pos as int].literal {
                    Some(l) => l,
                    None => Literal::Nil,
                },
            },
            skip(st),
        )
    } else if check(toks, st, TokenType::LeftParen) {
        let e = expression_s(toks, skip(st));
        match e.value {
            Some(inner) => if e.next.pos < toks.len() {
                let close = consume_s(toks, e.next, TokenType::RightParen, "Expect ')' after expression."@);
                match close.value {
                    Some(_) => done(SExpr::Grouping { expression: Box::new(inner) }, close.next),
                    None => fail(close.next),
                }
            } else {
                fail(e.next)
            },
            None => e,
        }
    } else if check(toks, st, TokenType::Super) {
        let dot = consume_s(toks, skip(st), TokenType::Dot, "Expect '.' after 'super'."@);
        match dot.value {
            None => fail(dot.next),
            Some(_) => {
                let method = consume_s(toks, dot.next, TokenType::Identifier, "Expect superclass method name."@);
                match method.value {
                    None => fail(method.next),
                    Some(m) => {
                        let id = new_id(toks, method.next);
                        match id.value {
                            Some(i) => done(SExpr::Super { id: i, keyword: toks[st.pos as int], method: m }, id.next),
                            None => fail(id.next),
                        }
                    },
                }
            },
        }
    } else if check(toks, st, TokenType::This) {
        let id = new_id(toks, skip(st));
        match id.value {
            Some(i) => done(SExpr::This { id: i, keyword: toks[st.pos as int] }, id.next),
            None => fail(id.next),
        }
    } else if check(toks, st, TokenType::Identifier) {
        let id = new_id(toks, skip(st));
        match id.value {
            Some(i) => done(SExpr::Variable { id: i, name: toks[st.pos as int] }, id.next),
            None => fail(id.next),
        }
    } else {
        fail(report(st, toks[st.pos as int], "Expect expression."@))
    }
}

/// An anonymous function after `fun`.
#[verifier::opaque]
pub open spec fn function_body_s(toks: Seq<Token>, st: PState, kind: Seq<char>) -> Parsed<SExpr>
    decreases toks.len() - st.pos, 470int,
{
    if st.pos >= toks.len() {
        fail(st)
    } else {
        let pb = params_and_body_s(toks, st, kind);
        match pb.value {
            Some((params, body)) => done(SExpr::Function { params, body }, pb.next),
            None => fail(pb.next),
        }
    }
}

/// `( parameters ) { body }`.
#[verifier::opaque]
pub open spec fn params_and_body_s(toks: Seq<Token>, st: PState, kind: Seq<char>) -> Parsed<(Seq<Token>, Seq<SStmt>)>
    decreases toks.len() - st.pos, 460int,
{
    if st.pos >= toks.len() {
        fail(st)
    } else {
        let open = consume_s(toks, st, TokenType::LeftParen, "Expect '(' after "@ + kind + " name."@);
        match open.value {
            None => fail(open.next),
            Some(_) => {
                let params = if !check(toks, open.next, TokenType::RightParen) {
                    params_rest(toks, open.next, Seq::empty())
                } else {
                    done(Seq::empty(), open.next)
                };
                match params.value {
                    None => fail(params.next),
                    Some(ps) => if open.next.pos <= params.next.pos < toks.len() {
                        let close = consume_s(toks, params.next, TokenType::RightParen, "Expect ')' after parameters."@);
                        match close.value {
                            None => fail(close.next),
                            Some(_) => {
                                let brace = consume_s(toks, close.next, TokenType::LeftBrace, "Expect '{' before "@ + kind + " body."@);
                                match brace.value {
                                    None => fail(brace.next),
                                    Some(_) => if st.pos < brace.next.pos <= toks.len() {
                                        let body = block_s(toks, brace.next);
                                        match body.value {
                                            Some(b) => done((ps, b), body.next),
                                            None => fail(body.next),
                                        }
                                    } else {
                                        fail(brace.next)
                                    },
                                }
                            },
                        }
                    } else {
                        fail(params.next)
                    },
                }
            },
        }
    }
}

/// Parameter names separated by commas, after those in `acc`.
#[verifier::opaque]
pub open spec fn params_rest(toks: Seq<Token>, st: PState, acc: Seq<Token>) -> Parsed<Seq<Token>>
    decreases toks.len() - st.pos, 455int,
{
    if st.pos >= toks.len() {
        fail(st)
    } else {
        let p = consume_s(
            toks,
            if acc.len() >= 255 {
                report(st, toks[st.pos as int], "Can't have more than 255 parameters."@)
            } else {
                st
            },
            TokenType::Identifier,
            "Expect parameter name."@,
        );
        match p.value {
            None => fail(p.next),
            Some(name) => if st.pos < p.next.pos < toks.len() && check(toks, p.next, TokenType::Comma) {
                params_rest(toks, skip(p.next), acc.push(name))
            } else {
                done(acc.push(name), p.next)
            },
        }
    }
}

// ----------------------------------------------------------------------
// Statements and declarations.

/// A class, function or variable declaration, or a statement.
#[verifier::opaque]
pub open spec fn declaration_s(toks: Seq<Token>, st: PState) -> Parsed<SStmt>
    decreases toks.len() - st.pos, 500int,
{
    if st.pos >= toks.len() {
        fail(st)
    } else if check(toks, st, TokenType::Class) {
        class_decl_s(toks, skip(st))
    } else if check(toks, st, TokenType::Fun) && check_next(toks, st, TokenType::Identifier) {
        function_decl_s(toks, skip(st), "function"@)
    } else if check(toks, st, TokenType::Var) {
        var_declaration_s(toks, skip(st))
    } else {
        statement_s(toks, st)
    }
}

/// `class Name (< Super)? { members }` after `class`.
#[verifier::opaque]
pub open spec fn class_decl_s(toks: Seq<Token>, st: PState) -> Parsed<SStmt>
    decreases toks.len() - st.pos, 480int,
{
    if st.pos >= toks.len() {
        fail(st)
    } else {
        let name = consume_s(toks, st, TokenType::Identifier, "Expect class name."@);
        match name.value {
            None => fail(name.next),
            Some(n) => {
                let sup: Parsed<Option<SExpr>> = if check(toks, name.next, TokenType::Less) {
                    let sn = consume_s(toks, skip(name.next), TokenType::Identifier, "Expect superclass name."@);
                    match sn.value {
                        None => fail(sn.next),
                        Some(super_name) => {
                            let id = new_id(toks, sn.next);
                            match id.value {
                                Some(i) => done(Some(SExpr::Variable { id: i, name: super_name }), id.next),
                                None => fail(id.next),
                            }
                        },
                    }
                } else {
                    done(None, name.next)
                };
                match sup.value {
                    None => fail(sup.next),
                    Some(superclass) => if sup.next.pos < toks.len() {
                        let brace = consume_s(toks, sup.next, TokenType::LeftBrace, "Expect '{' before class body."@);
                        match brace.value {
                            None => fail(brace.next),
                            Some(_) => {
                                let ms = members_rest(toks, brace.next, Seq::empty());
                                match ms.value {
                                    None => fail(ms.next),
                                    Some(methods) => if ms.next.pos < toks.len() {
                                        let close = consume_s(toks, ms.next, TokenType::RightBrace, "Expect '}' after class body."@);
                                        match close.value {
                                            None => fail(close.next),
                                            Some(_) => done(SStmt::Class { name: n, superclass, methods }, close.next),
                                        }
                                    } else {
                                        fail(ms.next)
                                    },
                                }
                            },
                        }
                    } else {
                        fail(sup.next)
                    },
                }
            },
        }
    }
}

/// Class members up to the closing `}` or the end, after those in `acc`.
#[verifier::opaque]
pub open spec fn members_rest(toks: Seq<Token>, st: PState, acc: Seq<SMember>) -> Parsed<Seq<SMember>>
    decreases toks.len() - st.pos, 475int,
{
    if st.pos >= toks.len() {
        fail(st)
    } else if check(toks, st, TokenType::RightBrace) || at_end(toks, st) {
        done(acc, st)
    } else {
        let m = class_member_s(toks, st);
        match m.value {
            None => fail(m.next),
            Some(member) => if advanced(toks, st, m.next) {
                members_rest(toks, m.next, acc.push(member))
            } else {
                fail(m.next)
            },
        }
    }
}

/// A method, a static method (after `class`) or a getter (no parameter list).
#[verifier::opaque]
pub open spec fn class_member_s(toks: Seq<Token>, st: PState) -> Parsed<SMember>
    decreases toks.len() - st.pos, 470int,
{
    if st.pos >= toks.len() {
        fail(st)
    } else {
        let is_static = check(toks, st, TokenType::Class);
        let start = if is_static { skip(st) } else { st };
        let name = consume_s(toks, start, TokenType::Identifier, "Expect method name."@);
        match name.value {
            None => fail(name.next),
            Some(n) => if !(st.pos <= name.next.pos < toks.len()) {
                fail(name.next)
            } else if check(toks, name.next, TokenType::LeftBrace) {
                if is_static {
                    fail(report(name.next, n, "Static getters are not allowed."@))
                } else {
                    let body = getter_body_s(toks, name.next);
                    match body.value {
                        Some(b) => done(SMember::Getter { name: n, body: b }, body.next),
                        None => fail(body.next),
                    }
                }
            } else {
                let pb = params_and_body_s(toks, name.next, "method"@);
                match pb.value {
                    Some((parameters, body)) => if is_static {
                        done(SMember::StaticMethod { name: n, parameters, body }, pb.next)
                    } else {
                        done(SMember::Method { name: n, parameters, body }, pb.next)
                    },
                    None => fail(pb.next),
                }
            },
        }
    }
}

/// The `{ body }` of a getter.
#[verifier::opaque]
pub open spec fn getter_body_s(toks: Seq<Token>, st: PState) -> Parsed<Seq<SStmt>>
    decreases toks.len() - st.pos, 460int,
{
    if st.pos >= toks.len() {
        fail(st)
    } else {
        let brace = consume_s(toks, st, TokenType::LeftBrace, "Expect '{' before getter body."@);
        match brace.value {
            None => fail(brace.next),
            Some(_) => block_s(toks, brace.next),
        }
    }
}

/// `fun Name ( parameters ) { body }` after `fun`.
#[verifier::opaque]
pub open spec fn function_decl_s(toks: Seq<Token>, st: PState, kind: Seq<char>) -> Parsed<SStmt>
    decreases toks.len() - st.pos, 470int,
{
    if st.pos >= toks.len() {
        fail(st)
    } else {
        let name = consume_s(toks, st, TokenType::Identifier, "Expect "@ + kind + " name."@);
        match name.value {
            None => fail(name.next),
            Some(n) => if st.pos <= name.next.pos < toks.len() {
                let pb = params_and_body_s(toks, name.next, kind);
                match pb.value {
                    Some((parameters, body)) => done(SStmt::Function { name: n, parameters, body }, pb.next),
                    None => fail(pb.next),
                }
            } else {
                fail(name.next)
            },
        }
    }
}

/// `Name (= initializer)? ;` after `var`.
#[verifier::opaque]
pub open spec fn var_declaration_s(toks: Seq<Token>, st: PState) -> Parsed<SStmt>
    decreases toks.len() - st.pos, 480int,
{
    if st.pos >= toks.len() {
        fail(st)
    } else {
        let name = consume_s(toks, st, TokenType::Identifier, "Expect variable name."@);
        match name.value {
            None => fail(name.next),
            Some(n) => {
                let init: Parsed<Option<SExpr>> = if st.pos <= name.next.pos < toks.len() && check(toks, name.next, TokenType::Equal) {
                    let e = expression_s(toks, skip(name.next));
                    match e.value {
                        Some(x) => done(Some(x), e.next),
                        None => fail(e.next),
                    }
                } else {
                    done(None, name.next)
                };
                match init.value {
                    None => fail(init.next),
                    Some(initializer) => if init.next.pos < toks.len() {
                        let semi = consume_s(toks, init.next, TokenType::Semicolon, "Expect ';' after variable declaration."@);
                        match semi.value {
                            Some(_) => done(SStmt::Var { name: n, initializer }, semi.next),
                            None => fail(semi.next),
                        }
                    } else {
                        fail(init.next)
                    },
                }
            },
        }
    }
}

/// A `for`, `if`, `print`, `return`, `while` or `break` statement, a
/// block, or an expression statement.
#[verifier::opaque]
pub open spec fn statement_s(toks: Seq<Token>, st: PState) -> Parsed<SStmt>
    decreases toks.len() - st.pos, 490int,
{
    if st.pos >= toks.len() {
        fail(st)
    } else if check(toks, st, TokenType::For) {
        for_statement_s(toks, skip(st))
    } else if check(toks, st, TokenType::If) {
        if_statement_s(toks, skip(st))
    } else if check(toks, st, TokenType::Print) {
        print_statement_s(toks, skip(st))
    } else if check(toks, st, TokenType::Return) {
        return_statement_s(toks, skip(st))
    } else if check(toks, st, TokenType::While) {
        while_statement_s(toks, skip(st))
    } else if check(toks, st, TokenType::Break) {
        break_statement_s(toks, skip(st))
    } else if check(toks, st, TokenType::LeftBrace) {
        let b = block_s(toks, skip(st));
        match b.value {
            Some(statements) => done(SStmt::Block { statements }, b.next),
            None => fail(b.next),
        }
    } else {
        expression_statement_s(toks, st)
    }
}

/// An expression, or nothing before `;`, then `;`.
#[verifier::opaque]
pub open spec fn return_statement_s(toks: Seq<Token>, st: PState) -> Parsed<SStmt>
    decreases toks.len() - st.pos, 480int,
{
    if st.pos >= toks.len() || st.pos == 0 {
        fail(st)
    } else {
        let v: Parsed<Option<SExpr>> = if !check(toks, st, TokenType::Semicolon) {
            let e = expression_s(toks, st);
            match e.value {
                Some(x) => done(Some(x), e.next),
                None => fail(e.next),
            }
        } else {
            done(None, st)
        };
        match v.value {
            None => fail(v.next),
            Some(value) => if v.next.pos < toks.len() {
                let semi = consume_s(toks, v.next, TokenType::Semicolon, "Expect ';' after return value."@);
                match semi.value {
                    Some(_) => done(SStmt::Return { keyword: toks[st.pos - 1], value }, semi.next),
                    None => fail(semi.next),
                }
            } else {
                fail(v.next)
            },
        }
    }
}

/// `;` after `break`, inside a loop.
#[verifier::opaque]
pub open spec fn break_statement_s(toks: Seq<Token>, st: PState) -> Parsed<SStmt> {
    if st.pos >= toks.len() {
        fail(st)
    } else if st.depth == 0 {
        fail(report(st, toks[st.pos - 1], "Cannot use 'break' outside of a loop."@))
    } else {
        let semi = consume_s(toks, st, TokenType::Semicolon, "Expect ';' after 'break'."@);
        match semi.value {
            Some(_) => done(SStmt::Break, semi.next),
            None => fail(semi.next),
        }
    }
}

/// `for (init; cond; incr) body` after `for`, as
/// `{ init; while (cond) { body; incr; } }`, with `true` for a missing condition.
/// The body is parsed one loop deeper; the loop nesting is restored after a
/// body that parses, and stays raised after one that fails.
#[verifier::opaque]
pub open spec fn for_statement_s(toks: Seq<Token>, st: PState) -> Parsed<SStmt>
    decreases toks.len() - st.pos, 480int,
{
    if st.pos >= toks.len() {
        fail(st)
    } else {
        let open = consume_s(toks, st, TokenType::LeftParen, "Expect '(' after 'for'.)"@);
        match open.value {
            None => fail(open.next),
            Some(_) => {
                let s1 = open.next;
                let init: Parsed<Option<SStmt>> = if check(toks, s1, TokenType::Semicolon) {
                    done(None, skip(s1))
                } else if st.pos <= s1.pos < toks.len() && check(toks, s1, TokenType::Var) {
                    let d = var_declaration_s(toks, skip(s1));
                    match d.value {
                        Some(x) => done(Some(x), d.next),
                        None => fail(d.next),
                    }
                } else if st.pos <= s1.pos < toks.len() {
                    let d = expression_statement_s(toks, s1);
                    match d.value {
                        Some(x) => done(Some(x), d.next),
                        None => fail(d.next),
                    }
                } else {
                    fail(s1)
                };
                match init.value {
                    None => fail(init.next),
                    Some(initializer) => if st.pos < init.next.pos < toks.len() {
                        let s2 = init.next;
                        let cond: Parsed<Option<SExpr>> = if !check(toks, s2, TokenType::Semicolon) {
                            let e = expression_s(toks, s2);
                            match e.value {
                                Some(x) => done(Some(x), e.next),
                                None => fail(e.next),
                            }
                        } else {
                            done(None, s2)
                        };
                        match cond.value {
                            None => fail(cond.next),
                            Some(condition) => if s2.pos <= cond.next.pos < toks.len() {
                                let semi = consume_s(toks, cond.next, TokenType::Semicolon, "Expect ';' after loop condition."@);
                                match semi.value {
                                    None => fail(semi.next),
                                    Some(_) => {
                                        let s3 = semi.next;
                                        let incr: Parsed<Option<SExpr>> = if !check(toks, s3, TokenType::RightParen) {
                                            let e = expression_s(toks, s3);
                                            match e.value {
                                                Some(x) => done(Some(x), e.next),
                                                None => fail(e.next),
                                            }
                                        } else {
                                            done(None, s3)
                                        };
                                        match incr.value {
                                            None => fail(incr.next),
                                            Some(increment) => if s3.pos <= incr.next.pos < toks.len() {
                                                let close = consume_s(toks, incr.next, TokenType::RightParen, "Expect ')' after clauses."@);
                                                match close.value {
                                                    None => fail(close.next),
                                                    Some(_) => if st.pos < close.next.pos < toks.len() {
                                                        let inner = PState { depth: close.next.depth + 1, ..close.next };
                                                        let b = statement_s(toks, inner);
                                                        match b.value {
                                                            None => fail(b.next),
                                                            Some(body) => {
                                                                let looped = match increment {
                                                                    Some(inc) => SStmt::Block {
                                                                        statements: seq![
                                                                            body,
                                                                            SStmt::Expression { expression: inc },
                                                                        ],
                                                                    },
                                                                    None => body,
                                                                };
                                                                let c = match condition {
                                                                    Some(c) => c,
                                                                    None => SExpr::Literal { value: Literal::Boolean(true) },
                                                                };
                                                                let w = SStmt::While { condition: c, body: Box::new(looped) };
                                                                let result = match initializer {
                                                                    Some(i) => SStmt::Block { statements: seq![i, w] },
                                                                    None => w,
                                                                };
                                                                done(result, PState { depth: (b.next.depth - 1) as nat, ..b.next })
                                                            },
                                                        }
                                                    } else {
                                                        fail(close.next)
                                                    },
                                                }
                                            } else {
                                                fail(incr.next)
                                            },
                                        }
                                    },
                                }
                            } else {
                                fail(cond.next)
                            },
                        }
                    } else {
                        fail(init.next)
                    },
                }
            },
        }
    }
}

/// `(condition) body` after `while`. The body is parsed one loop deeper; the
/// loop nesting is restored after a body that parses, and stays raised after
/// one that fails.
#[verifier::opaque]
pub open spec fn while_statement_s(toks: Seq<Token>, st: PState) -> Parsed<SStmt>
    decreases toks.len() - st.pos, 480int,
{
    if st.pos >= toks.len() {
        fail(st)
    } else {
        let open = consume_s(toks, st, TokenType::LeftParen, "Expect '(' after 'while'."@);
        match open.value {
            None => fail(open.next),
            Some(_) => {
                let c = expression_s(toks, open.next);
                match c.value {
                    None => fail(c.next),
                    Some(condition) => if c.next.pos < toks.len() {
                        let close = consume_s(toks, c.next, TokenType::RightParen, "Expect ')' after condition."@);
                        match close.value {
                            None => fail(close.next),
                            Some(_) => if st.pos < close.next.pos < toks.len() {
                                let inner = PState { depth: close.next.depth + 1, ..close.next };
                                let b = statement_s(toks, inner);
                                match b.value {
                                    None => fail(b.next),
                                    Some(body) => done(
                                        SStmt::While { condition, body: Box::new(body) },
                                        PState { depth: (b.next.depth - 1) as nat, ..b.next },
                                    ),
                                }
                            } else {
                                fail(close.next)
                            },
                        }
                    } else {
                        fail(c.next)
                    },
                }
            },
        }
    }
}

/// `(condition) then (else otherwise)?` after `if`.
#[verifier::opaque]
pub open spec fn if_statement_s(toks: Seq<Token>, st: PState) -> Parsed<SStmt>
    decreases toks.len() - st.pos, 480int,
{
    if st.pos >= toks.len() {
        fail(st)
    } else {
        let open = consume_s(toks, st, TokenType::LeftParen, "Expect '(' after 'if'.)"@);
        match open.value {
            None => fail(open.next),
            Some(_) => {
                let c = expression_s(toks, open.next);
                match c.value {
                    None => fail(c.next),
                    Some(condition) => if c.next.pos < toks.len() {
                        let close = consume_s(toks, c.next, TokenType::RightParen, "Expect ')' after if condition.)"@);
                        match close.value {
                            None => fail(close.next),
                            Some(_) => if st.pos < close.next.pos < toks.len() {
                                let t = statement_s(toks, close.next);
                                match t.value {
                                    None => fail(t.next),
                                    Some(then_branch) => if advanced(toks, close.next, t.next) {
                                        if check(toks, t.next, TokenType::Else) {
                                            let e = statement_s(toks, skip(t.next));
                                            match e.value {
                                                None => fail(e.next),
                                                Some(otherwise) => done(
                                                    SStmt::If {
                                                        condition,
                                                        then_branch: Box::new(then_branch),
                                                        else_branch: Some(Box::new(otherwise)),
                                                    },
                                                    e.next,
                                                ),
                                            }
                                        } else {
                                            done(
                                                SStmt::If { condition, then_branch: Box::new(then_branch), else_branch: None },
                                                t.next,
                                            )
                                        }
                                    } else {
                                        fail(t.next)
                                    },
                                }
                            } else {
                                fail(close.next)
                            },
                        }
                    } else {
                        fail(c.next)
                    },
                }
            },
        }
    }
}

/// Declarations up to the closing `}` (the opening one consumed), then `}`.
#[verifier::opaque]
pub open spec fn block_s(toks: Seq<Token>, st: PState) -> Parsed<Seq<SStmt>>
    decreases toks.len() - st.pos, 515int,
{
    if st.pos >= toks.len() {
        fail(st)
    } else {
        block_rest(toks, st, Seq::empty())
    }
}

/// The rest of a block after the declarations in `acc`; a declaration that
/// fails is skipped as `synchronize_s` says.
#[verifier::opaque]
pub open spec fn block_rest(toks: Seq<Token>, st: PState, acc: Seq<SStmt>) -> Parsed<Seq<SStmt>>
    decreases toks.len() - st.pos, 510int,
{
    if st.pos >= toks.len() {
        fail(st)
    } else if check(toks, st, TokenType::RightBrace) || at_end(toks, st) {
        let close = consume_s(toks, st, TokenType::RightBrace, "Expect '}' after block."@);
        match close.value {
            Some(_) => done(acc, close.next),
            None => fail(close.next),
        }
    } else {
        let d = declaration_s(toks, st);
        let (next, more) = match d.value {
            Some(s) => (d.next, acc.push(s)),
            None => (synchronize_s(toks, d.next), acc),
        };
        if st.pos < next.pos < toks.len() {
            block_rest(toks, next, more)
        } else {
            fail(next)
        }
    }
}

/// An expression, then `;`, after `print`.
#[verifier::opaque]
pub open spec fn print_statement_s(toks: Seq<Token>, st: PState) -> Parsed<SStmt>
    decreases toks.len() - st.pos, 480int,
{
    if st.pos >= toks.len() {
        fail(st)
    } else {
        let e = expression_s(toks, st);
        match e.value {
            None => fail(e.next),
            Some(x) => if e.next.pos < toks.len() {
                let semi = consume_s(toks, e.next, TokenType::Semicolon, "Expect ';' after value."@);
                match semi.value {
                    Some(_) => done(SStmt::Print { expression: x }, semi.next),
                    None => fail(semi.next),
                }
            } else {
                fail(e.next)
            },
        }
    }
}

/// An expression, then `;`.
#[verifier::opaque]
pub open spec fn expression_statement_s(toks: Seq<Token>, st: PState) -> Parsed<SStmt>
    decreases toks.len() - st.pos, 450int,
{
    if st.pos >= toks.len() {
        fail(st)
    } else {
        let e = expression_s(toks, st);
        match e.value {
            None => fail(e.next),
            Some(x) => if e.next.pos < toks.len() {
                let semi = consume_s(toks, e.next, TokenType::Semicolon, "Expect ';' after expression."@);
                match semi.value {
                    Some(_) => done(SStmt::Expression { expression: x }, semi.next),
                    None => fail(semi.next),
                }
            } else {
                fail(e.next)
            },
        }
    }
}

/// Where parsing resumes after a failed declaration: one token on, then up
/// to just after a `;` or before a keyword that starts a statement.
pub open spec fn synchronize_s(toks: Seq<Token>, st: PState) -> PState {
    if st.pos >= toks.len() || at_end(toks, st) {
        st
    } else {
        sync_from(toks, skip(st))
    }
}

pub open spec fn starts_statement(t: TokenType) -> bool {
    t == TokenType::Class || t == TokenType::Fun || t == TokenType::Var || t == TokenType::For || t
        == TokenType::If || t == TokenType::While || t == TokenType::Print || t == TokenType::Return
}

pub open spec fn sync_from(toks: Seq<Token>, st: PState) -> PState
    decreases toks.len() - st.pos,
{
    if st.pos >= toks.len() || at_end(toks, st) || st.pos == 0 {
        st
    } else if toks[st.pos - 1].token_type == TokenType::Semicolon || starts_statement(kind_at(toks, st)) {
        st
    } else {
        sync_from(toks, skip(st))
    }
}

/// All the declarations from `st` to the end of input, after those in
/// `acc`; a declaration that fails is skipped as `synchronize_s` says.
#[verifier::opaque]
pub open spec fn program_rest(toks: Seq<Token>, st: PState, acc: Seq<SStmt>) -> Seq<SStmt>
    decreases toks.len() - st.pos,
{
    if st.pos >= toks.len() || at_end(toks, st) {
        acc
    } else {
        let d = declaration_s(toks, st);
        let (next, more) = match d.value {
            Some(s) => (d.next, acc.push(s)),
            None => (synchronize_s(toks, d.next), acc),
        };
        if st.pos < next.pos < toks.len() {
            program_rest(toks, next, more)
        } else {
            more
        }
    }
}


/// Where the parser is once it has walked the declarations from `st` to the
/// end of input as `program_rest` does: in particular, whether an error was
/// reported on the way.
pub open spec fn program_end(toks: Seq<Token>, st: PState) -> PState
    decreases toks.len() - st.pos,
{
    if st.pos >= toks.len() || at_end(toks, st) {
        st
    } else {
        let d = declaration_s(toks, st);
        let next = match d.value {
            Some(_) => d.next,
            None => synchronize_s(toks, d.next),
        };
        if st.pos < next.pos < toks.len() {
            program_end(toks, next)
        } else {
            next
        }
    }
}

/// Some declaration from `st` to the end of input fails to parse (walking
/// the declarations as `program_rest` does).
#[verifier::opaque]
pub open spec fn program_fails(toks: Seq<Token>, st: PState) -> bool
    decreases toks.len() - st.pos,
{
    if st.pos >= toks.len() || at_end(toks, st) {
        false
    } else {
        let d = declaration_s(toks, st);
        let next = match d.value {
            Some(_) => d.next,
            None => synchronize_s(toks, d.next),
        };
        d.value is None || (st.pos < next.pos < toks.len() && program_fails(toks, next))
    }
}

} // verus!

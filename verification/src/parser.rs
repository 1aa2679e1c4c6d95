//! The recursive-descent parser: turns tokens into statements.
use vstd::prelude::*;
use std::rc::Rc;
use crate::expr::Expr;
use crate::expr_id::ExprId;
use crate::grammar::{
    and_rest, args_rest, assignment_s, at_end, block_rest, block_s, break_statement_s, call_rest, call_s, check,
    check_next, class_decl_s, class_member_s, comparison_rest, comparison_s, consume_s, declaration_s,
    equality_rest, equality_s, expr_view, expression_s, expression_statement_s, exprs_view, factor_rest, factor_s,
    finish_call_s, for_statement_s, function_body_s, function_decl_s, getter_body_s, if_statement_s, kind_at,
    logic_and_s, logic_or_s, member_view, members_rest, members_view, new_id, or_rest, params_and_body_s,
    params_rest, primary_s, print_statement_s, program_fails, program_rest, return_statement_s, skip, starts_statement,
    statement_s, stmt_view, stmts_view, sync_from, synchronize_s, term_rest, term_s, unary_s, var_declaration_s,
    while_statement_s, lemma_exprs_view_push, lemma_members_view_push, lemma_stmts_view_push, PState, Parsed, program_end, report,
    SExpr, SMember, SStmt, advanced, binary, done, fail, logical,
};
use crate::lox::{report_text, token_location, Lox, LoxView};
use crate::scanner::{scanned_token, scanned_tokens};
use crate::stmt::{ClassMember, Stmt};
use crate::text::{owned, append_str};
use crate::token::{Literal, Token, TokenType};

verus! {

/// The parser gave up on the current declaration (the error has been reported).
#[derive(Debug)]
pub struct ParseError;

/// Tokens the parser accepts: at least one, the last being `Eof`, and each
/// number or string token carrying its literal value.
pub open spec fn parsable_tokens(tokens: Seq<Token>) -> bool {
    &&& tokens.len() > 0
    &&& tokens.last().token_type == TokenType::Eof
    &&& forall|i: int|
        0 <= i < tokens.len() && ((#[trigger] tokens[i]).token_type == TokenType::Number
            || tokens[i].token_type == TokenType::String) ==> tokens[i].literal is Some
}

/// `r` is the tree that `p` describes, or an error where `p` failed.
pub open spec fn expr_result(p: Parsed<SExpr>, r: Result<Expr, ParseError>) -> bool {
    match r {
        Ok(e) => p.value == Some(expr_view(e)),
        Err(_) => p.value is None,
    }
}

/// `r` is the statement that `p` describes, or an error where `p` failed.
pub open spec fn stmt_result(p: Parsed<SStmt>, r: Result<Stmt, ParseError>) -> bool {
    match r {
        Ok(s) => p.value == Some(stmt_view(s)),
        Err(_) => p.value is None,
    }
}

/// `r` is the class member that `p` describes, or an error where `p` failed.
pub open spec fn member_result(p: Parsed<SMember>, r: Result<ClassMember, ParseError>) -> bool {
    match r {
        Ok(m) => p.value == Some(member_view(m)),
        Err(_) => p.value is None,
    }
}

/// `r` is the list of statements that `p` describes, or an error where `p` failed.
pub open spec fn block_result(p: Parsed<Seq<SStmt>>, r: Result<Vec<Stmt>, ParseError>) -> bool {
    match r {
        Ok(b) => p.value == Some(stmts_view(b@)),
        Err(_) => p.value is None,
    }
}

/// As `block_result`, for a shared body.
pub open spec fn body_result(p: Parsed<Seq<SStmt>>, r: Result<Rc<Vec<Stmt>>, ParseError>) -> bool {
    match r {
        Ok(b) => p.value == Some(stmts_view((*b)@)),
        Err(_) => p.value is None,
    }
}

/// `r` is the parameter list and body that `p` describes, or an error where `p` failed.
pub open spec fn function_result(
    p: Parsed<(Seq<Token>, Seq<SStmt>)>,
    r: Result<(Rc<Vec<Token>>, Rc<Vec<Stmt>>), ParseError>,
) -> bool {
    match r {
        Ok(pb) => p.value == Some(((*pb.0)@, stmts_view((*pb.1)@))),
        Err(_) => p.value is None,
    }
}

/// What the scanner produces can be parsed.
pub proof fn lemma_scanned_tokens_are_parsable(tokens: Seq<Token>)
    requires
        scanned_tokens(tokens),
    ensures
        parsable_tokens(tokens),
{
    assert forall|i: int|
        0 <= i < tokens.len() && ((#[trigger] tokens[i]).token_type == TokenType::Number
            || tokens[i].token_type == TokenType::String) implies tokens[i].literal is Some by {
        if i < tokens.len() - 1 {
            assert(scanned_token(tokens[i]));
        }
    }
}

pub struct Parser<'a> {
    tokens: Vec<Token>,
    current: usize,
    lox: &'a mut Lox,
    loop_depth: usize,
    /// The reports the session held before this parser reported anything.
    base: Ghost<Seq<Seq<char>>>,
    /// The errors this parser has reported, as report lines.
    made: Ghost<Seq<Seq<char>>>,
}

impl<'a> Parser<'a> {
    pub closed spec fn wf(&self) -> bool {
        &&& parsable_tokens(self.tokens@)
        &&& self.tokens@.len() <= usize::MAX
        &&& self.current < self.tokens@.len()
        &&& self.loop_depth <= self.current
        &&& self.made@.len() > 0 ==> self.lox@.had_error
        &&& self.lox@.reports == self.base@ + self.made@
    }

    /// The current token is the end of input.
    pub closed spec fn at_end(&self) -> bool {
        self.tokens@[self.current as int].token_type == TokenType::Eof
    }

    /// The tokens still to be parsed (the current one included).
    pub closed spec fn remaining(&self) -> int {
        self.tokens@.len() - self.current
    }

    /// `self` is a later state of the parser that was `old`.
    pub closed spec fn follows(&self, old: Parser<'a>) -> bool {
        &&& self.wf()
        &&& self.tokens@ == old.tokens@
        &&& self.current >= old.current
        &&& self.loop_depth >= old.loop_depth
        &&& self.lox@.reports.len() >= old.lox@.reports.len()
        &&& forall|k: int| 0 <= k < old.lox@.reports.len() ==> self.lox@.reports[k] == old.lox@.reports[k]
        &&& old.lox@.had_error ==> self.lox@.had_error
        &&& self.base@ == old.base@
        &&& self.made@.len() >= old.made@.len()
        &&& forall|k: int| 0 <= k < old.made@.len() ==> self.made@[k] == old.made@[k]
        &&& self.lox@.had_error == (old.lox@.had_error || self.made@.len() > 0)
        &&& self.lox@.had_runtime_error == old.lox@.had_runtime_error
        &&& self.lox@.output == old.lox@.output
    }

    /// The session the parser reports errors to.
    pub closed spec fn lox(self) -> &'a mut Lox {
        self.lox
    }

    /// The tokens being parsed.
    pub closed spec fn toks(&self) -> Seq<Token> {
        self.tokens@
    }

    /// Where the parser is, as the grammar sees it.
    pub closed spec fn pstate(&self) -> PState {
        PState {
            pos: self.current as nat,
            depth: self.loop_depth as nat,
            id: self.lox@.next_id,
            reports: self.made@,
        }
    }

    /// What can be observed of that session now.
    pub open spec fn session(&self) -> LoxView {
        (*self.lox())@
    }

    pub fn new(tokens: Vec<Token>, lox: &'a mut Lox) -> (p: Self)
        requires
            parsable_tokens(tokens@),
        ensures
            p.wf(),
            p.remaining() == tokens@.len(),
            p.toks() == tokens@,
            p.pstate() == (PState { pos: 0, depth: 0, id: old(lox)@.next_id, reports: Seq::empty() }),
            p.session() == old(lox)@,
            *final(lox) == *final(p.lox()),
    {
        let _n = tokens.len();
        let ghost base = lox@.reports;
        assert(lox@.reports =~= base + Seq::<Seq<char>>::empty());
        Parser { tokens, current: 0, lox, loop_depth: 0, base: Ghost(base), made: Ghost(Seq::empty()) }
    }

    /// Ends parsing: the session holds what the parser reported.
    pub fn finish(self)
        ensures
            *final(self.lox()) == *self.lox(),
    {
    }

    /// Parses declarations until the end of input: the statements are those
    /// `program_rest` gives for the tokens. A declaration that fails to parse
    /// is reported, and parsing resumes at the next statement boundary. The
    /// errors reported are those `program_end` gives, in order and with their
    /// texts; an error was reported exactly when there is one.
    pub fn parse(&mut self) -> (statements: Vec<Stmt>)
        requires
            old(self).wf(),
        ensures
            final(self).follows(*old(self)),
            *final(final(self).lox()) == *final(old(self).lox()),
            final(self).at_end(),
            stmts_view(statements@) == program_rest(old(self).toks(), old(self).pstate(), Seq::empty()),
            program_fails(old(self).toks(), old(self).pstate()) ==> final(self).session().had_error,
            final(self).session().had_error == (old(self).session().had_error || program_end(
                old(self).toks(),
                old(self).pstate(),
            ).reports.len() > 0),
            old(self).pstate().reports.len() == 0 ==> final(self).session().reports == old(self).session().reports
                + program_end(old(self).toks(), old(self).pstate()).reports,
            final(self).session().reports.len() >= old(self).session().reports.len(),
            forall|k: int|
                0 <= k < old(self).session().reports.len() ==> final(self).session().reports[k] == old(
                    self,
                ).session().reports[k],
            old(self).session().had_error ==> final(self).session().had_error,
            final(self).session().had_runtime_error == old(self).session().had_runtime_error,
            final(self).session().output == old(self).session().output,
    {
        let ghost goal = program_rest(self.toks(), self.pstate(), Seq::empty());
        let mut statements = Vec::new();
        while !self.is_at_end()
            invariant
                self.follows(*old(self)),
                *final(self.lox) == *final(old(self).lox),
                goal == program_rest(old(self).toks(), old(self).pstate(), Seq::empty()),
                program_rest(self.toks(), self.pstate(), stmts_view(statements@)) == goal,
                program_end(self.toks(), self.pstate()) == program_end(old(self).toks(), old(self).pstate()),
                program_fails(old(self).toks(), old(self).pstate()) ==> self.session().had_error || program_fails(
                    self.toks(),
                    self.pstate(),
                ),
            decreases self.remaining(),
        {
            proof {
                reveal(program_rest);
                reveal(program_fails);
                reveal(declaration_s);
            }
            let before = self.current;
            let ghost acc = statements@;
            match self.declaration() {
                Ok(statement) => {
                    statements.push(statement);
                    proof {
                        lemma_stmts_view_push(acc, statement);
                    }
                },
                Err(_) => {
                    self.synchronize(before);
                },
            }
        }
        proof {
            reveal(program_rest);
            reveal(program_fails);
            reveal(declaration_s);
        }
        statements
    }

    #[verifier::spinoff_prover]
    fn declaration(&mut self) -> (r: Result<Stmt, ParseError>)
        requires
            old(self).wf(),
        ensures
            final(self).follows(*old(self)),
            *final(final(self).lox()) == *final(old(self).lox()),
            r is Ok ==> final(self).current > old(self).current,
            final(self).pstate() == declaration_s(old(self).toks(), old(self).pstate()).next,
            stmt_result(declaration_s(old(self).toks(), old(self).pstate()), r),
            r is Err ==> final(self).session().had_error,
        decreases old(self).remaining(), 50int,
    {
        proof {
            reveal(declaration_s);
            reveal(class_decl_s);
            reveal(function_decl_s);
            reveal(var_declaration_s);
            reveal(statement_s);
        }
        if self.matches(TokenType::Class) {
            return self.class_decl();
        }
        if self.check(TokenType::Fun) && self.check_next(TokenType::Identifier) {
            self.advance();
            return self.function_decl("function");
        }
        if self.matches(TokenType::Var) {
            return self.var_declaration();
        }
        self.statement()
    }

    #[verifier::spinoff_prover]
    fn class_decl(&mut self) -> (r: Result<Stmt, ParseError>)
        requires
            old(self).wf(),
            old(self).current > 0,
        ensures
            final(self).follows(*old(self)),
            *final(final(self).lox()) == *final(old(self).lox()),
            r is Ok ==> final(self).current > old(self).current,
            final(self).pstate() == class_decl_s(old(self).toks(), old(self).pstate()).next,
            stmt_result(class_decl_s(old(self).toks(), old(self).pstate()), r),
            r is Err ==> final(self).session().had_error,
        decreases old(self).remaining(), 48int,
    {
        proof {
            reveal(class_decl_s);
            reveal(members_rest);
        }
        let name = self.consume(TokenType::Identifier, "Expect class name.")?;
        let superclass = if self.matches(TokenType::Less) {
            let super_name = self.consume(TokenType::Identifier, "Expect superclass name.")?;
            let id = self.next_expr_id()?;
            proof {
                assert(expr_view(Expr::Variable { id, name: super_name }) == SExpr::Variable { id, name: super_name });
            }
            Some(Expr::Variable { id, name: super_name })
        } else {
            None
        };
        self.consume(TokenType::LeftBrace, "Expect '{' before class body.")?;
        let ghost members_goal = members_rest(self.toks(), self.pstate(), Seq::empty());
        let mut methods = Vec::new();
        while !self.check(TokenType::RightBrace) && !self.is_at_end()
            invariant
                self.follows(*old(self)),
                *final(self.lox) == *final(old(self).lox),
                self.current > old(self).current,
                members_goal.value is None ==> class_decl_s(old(self).toks(), old(self).pstate()) == fail::<SStmt>(
                    members_goal.next,
                ),
                members_rest(self.toks(), self.pstate(), members_view(methods@)) == members_goal,
            decreases self.remaining(),
        {
            proof {
                reveal(members_rest);
                reveal(class_member_s);
            }
            let ghost acc = methods@;
            let member = self.class_member()?;
            methods.push(member);
            proof {
                lemma_members_view_push(acc, member);
            }
        }
        proof {
            reveal(members_rest);
            reveal(class_member_s);
        }
        self.consume(TokenType::RightBrace, "Expect '}' after class body.")?;
        Ok(Stmt::Class { name, superclass, methods })
    }

    #[verifier::spinoff_prover]
    fn class_member(&mut self) -> (r: Result<ClassMember, ParseError>)
        requires
            old(self).wf(),
        ensures
            final(self).follows(*old(self)),
            *final(final(self).lox()) == *final(old(self).lox()),
            r is Ok ==> final(self).current > old(self).current,
            final(self).pstate() == class_member_s(old(self).toks(), old(self).pstate()).next,
            member_result(class_member_s(old(self).toks(), old(self).pstate()), r),
            r is Err ==> final(self).session().had_error,
        decreases old(self).remaining(), 47int,
    {
        proof {
            reveal(class_member_s);
            reveal(params_and_body_s);
            reveal(getter_body_s);
        }
        let is_static = self.matches(TokenType::Class);
        let name = self.consume(TokenType::Identifier, "Expect method name.")?;
        if self.check(TokenType::LeftBrace) {
            if is_static {
                return Err(self.error(&name, "Static getters are not allowed."));
            }
            let body = self.getter_body()?;
            return Ok(ClassMember::Getter { name, body });
        }
        let (parameters, body) = self.params_and_body("method")?;
        if is_static {
            Ok(ClassMember::StaticMethod { name, parameters, body })
        } else {
            Ok(ClassMember::Method { name, parameters, body })
        }
    }

    fn getter_body(&mut self) -> (r: Result<Rc<Vec<Stmt>>, ParseError>)
        requires
            old(self).wf(),
        ensures
            final(self).follows(*old(self)),
            *final(final(self).lox()) == *final(old(self).lox()),
            r is Ok ==> final(self).current > old(self).current,
            final(self).pstate() == getter_body_s(old(self).toks(), old(self).pstate()).next,
            body_result(getter_body_s(old(self).toks(), old(self).pstate()), r),
            r is Err ==> final(self).session().had_error,
        decreases old(self).remaining(), 46int,
    {
        proof {
            reveal(getter_body_s);
            reveal(block_s);
        }
        self.consume(TokenType::LeftBrace, "Expect '{' before getter body.")?;
        let body = self.block()?;
        Ok(Rc::new(body))
    }

    fn check_next(&self, token_type: TokenType) -> (r: bool)
        requires
            self.wf(),
        ensures
            r ==> self.current + 1 < self.tokens@.len() && self.tokens@[self.current + 1].token_type == token_type,
            r == check_next(self.toks(), self.pstate(), token_type),
    {
        if self.is_at_end() {
            return false;
        }
        if self.current + 1 < self.tokens.len() {
            self.tokens[self.current + 1].token_type == token_type
        } else {
            false
        }
    }

    fn function_decl(&mut self, kind: &str) -> (r: Result<Stmt, ParseError>)
        requires
            old(self).wf(),
        ensures
            final(self).follows(*old(self)),
            *final(final(self).lox()) == *final(old(self).lox()),
            r is Ok ==> final(self).current > old(self).current,
            final(self).pstate() == function_decl_s(old(self).toks(), old(self).pstate(), kind@).next,
            stmt_result(function_decl_s(old(self).toks(), old(self).pstate(), kind@), r),
            r is Err ==> final(self).session().had_error,
        decreases old(self).remaining(), 47int,
    {
        proof {
            reveal(function_decl_s);
            reveal(params_and_body_s);
        }
        let mut message = owned("Expect ");
        append_str(&mut message, kind);
        append_str(&mut message, " name.");
        let name = self.consume(TokenType::Identifier, message.as_str())?;
        let (parameters, body) = self.params_and_body(kind)?;
        Ok(Stmt::Function { name, parameters, body })
    }

    fn function_body(&mut self, kind: &str) -> (r: Result<Expr, ParseError>)
        requires
            old(self).wf(),
        ensures
            final(self).follows(*old(self)),
            *final(final(self).lox()) == *final(old(self).lox()),
            r is Ok ==> final(self).current > old(self).current,
            final(self).pstate() == function_body_s(old(self).toks(), old(self).pstate(), kind@).next,
            expr_result(function_body_s(old(self).toks(), old(self).pstate(), kind@), r),
            r is Err ==> final(self).session().had_error,
        decreases old(self).remaining(), 47int,
    {
        proof {
            reveal(function_body_s);
            reveal(params_and_body_s);
        }
        let (params, body) = self.params_and_body(kind)?;
        Ok(Expr::Function { params, body })
    }

    /// `( parameters ) { body }`, shared by functions and methods.
    #[verifier::spinoff_prover]
    fn params_and_body(&mut self, kind: &str) -> (r: Result<(Rc<Vec<Token>>, Rc<Vec<Stmt>>), ParseError>)
        requires
            old(self).wf(),
        ensures
            final(self).follows(*old(self)),
            *final(final(self).lox()) == *final(old(self).lox()),
            r is Ok ==> final(self).current > old(self).current,
            final(self).pstate() == params_and_body_s(old(self).toks(), old(self).pstate(), kind@).next,
            function_result(params_and_body_s(old(self).toks(), old(self).pstate(), kind@), r),
            r is Err ==> final(self).session().had_error,
        decreases old(self).remaining(), 46int,
    {
        proof {
            reveal(params_and_body_s);
            reveal(params_rest);
            reveal(block_s);
        }
        let mut message = owned("Expect '(' after ");
        append_str(&mut message, kind);
        append_str(&mut message, " name.");
        self.consume(TokenType::LeftParen, message.as_str())?;
        let ghost params_goal = params_rest(self.toks(), self.pstate(), Seq::empty());
        let mut parameters: Vec<Token> = Vec::new();
        if !self.check(TokenType::RightParen) {
            loop
                invariant_except_break
                    params_rest(self.toks(), self.pstate(), parameters@) == params_goal,
                invariant
                    self.follows(*old(self)),
                    *final(self.lox) == *final(old(self).lox),
                    self.current > old(self).current,
                    params_goal.value is None ==> params_and_body_s(old(self).toks(), old(self).pstate(), kind@) == fail::<
                        (Seq<Token>, Seq<SStmt>),
                    >(params_goal.next),
                ensures
                    self.follows(*old(self)),
                    *final(self.lox) == *final(old(self).lox),
                    self.current > old(self).current,
                    params_goal == (Parsed { value: Some(parameters@), next: self.pstate() }),
                decreases self.remaining(),
            {
                proof {
                    reveal(params_rest);
                }
                if parameters.len() >= 255 {
                    let token = self.peek().clone();
                    self.error(&token, "Can't have more than 255 parameters.");
                }
                let p = self.consume(TokenType::Identifier, "Expect parameter name.")?;
                parameters.push(p);
                if !self.matches(TokenType::Comma) {
                    break;
                }
            }
        }
        self.consume(TokenType::RightParen, "Expect ')' after parameters.")?;
        let mut message = owned("Expect '{' before ");
        append_str(&mut message, kind);
        append_str(&mut message, " body.");
        self.consume(TokenType::LeftBrace, message.as_str())?;
        let body = self.block()?;
        Ok((Rc::new(parameters), Rc::new(body)))
    }

    #[verifier::spinoff_prover]
    fn var_declaration(&mut self) -> (r: Result<Stmt, ParseError>)
        requires
            old(self).wf(),
        ensures
            final(self).follows(*old(self)),
            *final(final(self).lox()) == *final(old(self).lox()),
            r is Ok ==> final(self).current > old(self).current,
            final(self).pstate() == var_declaration_s(old(self).toks(), old(self).pstate()).next,
            stmt_result(var_declaration_s(old(self).toks(), old(self).pstate()), r),
            r is Err ==> final(self).session().had_error,
        decreases old(self).remaining(), 48int,
    {
        proof {
            reveal(var_declaration_s);
            reveal(expression_s);
        }
        let name = self.consume(TokenType::Identifier, "Expect variable name.")?;
        let initializer = if self.matches(TokenType::Equal) {
            Some(self.expression()?)
        } else {
            None
        };
        self.consume(TokenType::Semicolon, "Expect ';' after variable declaration.")?;
        Ok(Stmt::Var { name, initializer })
    }

    #[verifier::spinoff_prover]
    fn statement(&mut self) -> (r: Result<Stmt, ParseError>)
        requires
            old(self).wf(),
        ensures
            final(self).follows(*old(self)),
            *final(final(self).lox()) == *final(old(self).lox()),
            r is Ok ==> final(self).current > old(self).current,
            final(self).pstate() == statement_s(old(self).toks(), old(self).pstate()).next,
            stmt_result(statement_s(old(self).toks(), old(self).pstate()), r),
            r is Err ==> final(self).session().had_error,
        decreases old(self).remaining(), 49int,
    {
        proof {
            reveal(statement_s);
            reveal(return_statement_s);
            reveal(break_statement_s);
            reveal(for_statement_s);
            reveal(while_statement_s);
            reveal(if_statement_s);
            reveal(block_s);
            reveal(print_statement_s);
            reveal(expression_statement_s);
        }
        if self.matches(TokenType::For) {
            return self.for_statement();
        }
        if self.matches(TokenType::If) {
            return self.if_statement();
        }
        if self.matches(TokenType::Print) {
            return self.print_statement();
        }
        if self.matches(TokenType::Return) {
            return self.return_statement();
        }
        if self.matches(TokenType::While) {
            return self.while_statement();
        }
        if self.matches(TokenType::Break) {
            return self.break_statement();
        }
        if self.matches(TokenType::LeftBrace) {
            let statements = self.block()?;
            return Ok(Stmt::Block { statements });
        }
        self.expression_statement()
    }

    #[verifier::spinoff_prover]
    #[verifier::rlimit(30)]
    fn return_statement(&mut self) -> (r: Result<Stmt, ParseError>)
        requires
            old(self).wf(),
            old(self).current > 0,
        ensures
            final(self).follows(*old(self)),
            *final(final(self).lox()) == *final(old(self).lox()),
            r is Ok ==> final(self).current > old(self).current,
            final(self).pstate() == return_statement_s(old(self).toks(), old(self).pstate()).next,
            stmt_result(return_statement_s(old(self).toks(), old(self).pstate()), r),
            r is Err ==> final(self).session().had_error,
        decreases old(self).remaining(), 48int,
    {
        proof {
            reveal(return_statement_s);
            reveal(expression_s);
        }
        let ghost toks = self.toks();
        let ghost st = self.pstate();
        let keyword = self.previous();
        assert(keyword == toks[st.pos - 1]);
        let value = if !self.check(TokenType::Semicolon) {
            Some(self.expression()?)
        } else {
            None
        };
        let ghost v: Parsed<Option<SExpr>> = if !check(toks, st, TokenType::Semicolon) {
            let e = expression_s(toks, st);
            match e.value {
                Some(x) => done(Some(x), e.next),
                None => fail(e.next),
            }
        } else {
            done(None, st)
        };
        assert(v.next == self.pstate());
        assert(v.value == Some(if value is Some { Some(expr_view(value->0)) } else { None::<SExpr> }));
        self.consume(TokenType::Semicolon, "Expect ';' after return value.")?;
        let ghost returned = stmt_view(Stmt::Return { keyword, value });
        assert(return_statement_s(toks, st) == done(
            SStmt::Return { keyword, value: v.value->0 },
            consume_s(toks, v.next, TokenType::Semicolon, "Expect ';' after return value."@).next,
        ));
        Ok(Stmt::Return { keyword, value })
    }

    fn break_statement(&mut self) -> (r: Result<Stmt, ParseError>)
        requires
            old(self).wf(),
            old(self).current > 0,
        ensures
            final(self).follows(*old(self)),
            *final(final(self).lox()) == *final(old(self).lox()),
            r is Ok ==> final(self).current > old(self).current,
            final(self).pstate() == break_statement_s(old(self).toks(), old(self).pstate()).next,
            stmt_result(break_statement_s(old(self).toks(), old(self).pstate()), r),
            r is Err ==> final(self).session().had_error,
            old(self).loop_depth == 0 ==> r is Err,
    {
        proof {
            reveal(break_statement_s);
        }
        let keyword = self.previous();
        if self.loop_depth == 0 {
            return Err(self.error(&keyword, "Cannot use 'break' outside of a loop."));
        }
        self.consume(TokenType::Semicolon, "Expect ';' after 'break'.")?;
        Ok(Stmt::Break)
    }

    /// `for (init; cond; incr) body` becomes
    /// `{ init; while (cond) { body; incr; } }`, with `true` for a missing condition.
    #[verifier::spinoff_prover]
    #[verifier::rlimit(30)]
    fn for_statement(&mut self) -> (r: Result<Stmt, ParseError>)
        requires
            old(self).wf(),
            old(self).loop_depth < old(self).current,
        ensures
            final(self).follows(*old(self)),
            *final(final(self).lox()) == *final(old(self).lox()),
            r is Ok ==> final(self).current > old(self).current,
            final(self).pstate() == for_statement_s(old(self).toks(), old(self).pstate()).next,
            stmt_result(for_statement_s(old(self).toks(), old(self).pstate()), r),
            r is Err ==> final(self).session().had_error,
        decreases old(self).remaining(), 48int,
    {
        proof {
            reveal(for_statement_s);
            reveal(expression_s);
            reveal(var_declaration_s);
            reveal(statement_s);
            reveal(expression_statement_s);
        }
        self.consume(TokenType::LeftParen, "Expect '(' after 'for'.)")?;
        let initializer = if self.matches(TokenType::Semicolon) {
            None
        } else if self.matches(TokenType::Var) {
            Some(self.var_declaration()?)
        } else {
            Some(self.expression_statement()?)
        };
        let condition = if !self.check(TokenType::Semicolon) {
            Some(self.expression()?)
        } else {
            None
        };
        self.consume(TokenType::Semicolon, "Expect ';' after loop condition.")?;
        let increment = if !self.check(TokenType::RightParen) {
            Some(self.expression()?)
        } else {
            None
        };
        self.consume(TokenType::RightParen, "Expect ')' after clauses.")?;
        self.loop_depth = self.loop_depth + 1;
        let ghost initializer_view: Option<SStmt> = if initializer is Some {
            Some(stmt_view(initializer->0))
        } else {
            None
        };
        let ghost condition_opt_view: Option<SExpr> = if condition is Some {
            Some(expr_view(condition->0))
        } else {
            None
        };
        let ghost increment_opt_view: Option<SExpr> = if increment is Some {
            Some(expr_view(increment->0))
        } else {
            None
        };
        let mut body = match self.statement() {
            Ok(body) => body,
            Err(error) => {
                return Err(error);
            },
        };
        self.loop_depth = self.loop_depth - 1;
        let ghost body_view = stmt_view(body);
        body = match increment {
            Some(increment) => {
                let ghost increment_view = expr_view(increment);
                let mut statements = Vec::new();
                statements.push(body);
                statements.push(Stmt::Expression { expression: increment });
                proof {
                    lemma_stmts_view_push(Seq::empty(), statements@[0]);
                    lemma_stmts_view_push(seq![statements@[0]], statements@[1]);
                    assert(statements@ == seq![statements@[0]].push(statements@[1]));
                    assert(stmt_view(statements@[1]) == SStmt::Expression { expression: increment_view });
                    assert(stmts_view(statements@) == seq![body_view, SStmt::Expression { expression: increment_view }]);
                }
                Stmt::Block { statements }
            },
            None => body,
        };
        let ghost looped_view = stmt_view(body);
        assert(looped_view == match increment_opt_view {
            Some(inc) => SStmt::Block { statements: seq![body_view, SStmt::Expression { expression: inc }] },
            None => body_view,
        });
        let condition = match condition {
            Some(c) => c,
            None => Expr::Literal { value: Literal::Boolean(true) },
        };
        let ghost condition_view = expr_view(condition);
        assert(condition_view == match condition_opt_view {
            Some(c) => c,
            None => SExpr::Literal { value: Literal::Boolean(true) },
        });
        body = Stmt::While { condition, body: Box::new(body) };
        let ghost while_view = stmt_view(body);
        assert(while_view == SStmt::While { condition: condition_view, body: Box::new(looped_view) });
        body = match initializer {
            Some(initializer) => {
                let mut statements = Vec::new();
                statements.push(initializer);
                statements.push(body);
                proof {
                    lemma_stmts_view_push(Seq::empty(), statements@[0]);
                    lemma_stmts_view_push(seq![statements@[0]], statements@[1]);
                    assert(statements@ == seq![statements@[0]].push(statements@[1]));
                    assert(stmts_view(statements@) == seq![stmt_view(statements@[0]), while_view]);
                }
                Stmt::Block { statements }
            },
            None => body,
        };
        let ghost result_view = stmt_view(body);
        assert(result_view == match initializer_view {
            Some(i) => SStmt::Block { statements: seq![i, while_view] },
            None => while_view,
        });
        Ok(body)
    }

    #[verifier::spinoff_prover]
    fn while_statement(&mut self) -> (r: Result<Stmt, ParseError>)
        requires
            old(self).wf(),
            old(self).loop_depth < old(self).current,
        ensures
            final(self).follows(*old(self)),
            *final(final(self).lox()) == *final(old(self).lox()),
            r is Ok ==> final(self).current > old(self).current,
            final(self).pstate() == while_statement_s(old(self).toks(), old(self).pstate()).next,
            stmt_result(while_statement_s(old(self).toks(), old(self).pstate()), r),
            r is Err ==> final(self).session().had_error,
        decreases old(self).remaining(), 48int,
    {
        proof {
            reveal(while_statement_s);
            reveal(expression_s);
            reveal(statement_s);
        }
        self.consume(TokenType::LeftParen, "Expect '(' after 'while'.")?;
        let condition = self.expression()?;
        self.consume(TokenType::RightParen, "Expect ')' after condition.")?;
        self.loop_depth = self.loop_depth + 1;
        let body = match self.statement() {
            Ok(body) => body,
            Err(error) => {
                return Err(error);
            },
        };
        self.loop_depth = self.loop_depth - 1;
        Ok(Stmt::While { condition, body: Box::new(body) })
    }

    #[verifier::spinoff_prover]
    fn if_statement(&mut self) -> (r: Result<Stmt, ParseError>)
        requires
            old(self).wf(),
        ensures
            final(self).follows(*old(self)),
            *final(final(self).lox()) == *final(old(self).lox()),
            r is Ok ==> final(self).current > old(self).current,
            final(self).pstate() == if_statement_s(old(self).toks(), old(self).pstate()).next,
            stmt_result(if_statement_s(old(self).toks(), old(self).pstate()), r),
            r is Err ==> final(self).session().had_error,
        decreases old(self).remaining(), 48int,
    {
        proof {
            reveal(if_statement_s);
            reveal(expression_s);
            reveal(statement_s);
        }
        self.consume(TokenType::LeftParen, "Expect '(' after 'if'.)")?;
        let condition = self.expression()?;
        self.consume(TokenType::RightParen, "Expect ')' after if condition.)")?;
        let then_branch = self.statement()?;
        let else_branch = if self.matches(TokenType::Else) {
            Some(Box::new(self.statement()?))
        } else {
            None
        };
        Ok(Stmt::If { condition, then_branch: Box::new(then_branch), else_branch })
    }

    /// Declarations up to the closing `}` (the opening one has been consumed).
    #[verifier::spinoff_prover]
    fn block(&mut self) -> (r: Result<Vec<Stmt>, ParseError>)
        requires
            old(self).wf(),
        ensures
            final(self).follows(*old(self)),
            *final(final(self).lox()) == *final(old(self).lox()),
            r is Ok ==> final(self).current > old(self).current,
            final(self).pstate() == block_s(old(self).toks(), old(self).pstate()).next,
            block_result(block_s(old(self).toks(), old(self).pstate()), r),
            r is Err ==> final(self).session().had_error,
        decreases old(self).remaining(), 51int,
    {
        proof {
            reveal(block_s);
            reveal(block_rest);
        }
        let ghost goal = block_rest(self.toks(), self.pstate(), Seq::empty());
        let mut statements = Vec::new();
        while !self.check(TokenType::RightBrace) && !self.is_at_end()
            invariant
                self.follows(*old(self)),
                *final(self.lox) == *final(old(self).lox),
                goal == block_rest(old(self).toks(), old(self).pstate(), Seq::empty()),
                block_rest(self.toks(), self.pstate(), stmts_view(statements@)) == goal,
            decreases self.remaining(),
        {
            proof {
                reveal(block_rest);
                reveal(declaration_s);
            }
            let before = self.current;
            let ghost acc = statements@;
            match self.declaration() {
                Ok(statement) => {
                    statements.push(statement);
                    proof {
                        lemma_stmts_view_push(acc, statement);
                    }
                },
                Err(_) => {
                    self.synchronize(before);
                },
            }
        }
        proof {
            reveal(block_rest);
            reveal(declaration_s);
        }
        self.consume(TokenType::RightBrace, "Expect '}' after block.")?;
        Ok(statements)
    }

    fn print_statement(&mut self) -> (r: Result<Stmt, ParseError>)
        requires
            old(self).wf(),
        ensures
            final(self).follows(*old(self)),
            *final(final(self).lox()) == *final(old(self).lox()),
            r is Ok ==> final(self).current > old(self).current,
            final(self).pstate() == print_statement_s(old(self).toks(), old(self).pstate()).next,
            stmt_result(print_statement_s(old(self).toks(), old(self).pstate()), r),
            r is Err ==> final(self).session().had_error,
        decreases old(self).remaining(), 48int,
    {
        proof {
            reveal(print_statement_s);
            reveal(expression_s);
        }
        let value = self.expression()?;
        self.consume(TokenType::Semicolon, "Expect ';' after value.")?;
        Ok(Stmt::Print { expression: value })
    }

    fn expression_statement(&mut self) -> (r: Result<Stmt, ParseError>)
        requires
            old(self).wf(),
        ensures
            final(self).follows(*old(self)),
            *final(final(self).lox()) == *final(old(self).lox()),
            r is Ok ==> final(self).current > old(self).current,
            final(self).pstate() == expression_statement_s(old(self).toks(), old(self).pstate()).next,
            stmt_result(expression_statement_s(old(self).toks(), old(self).pstate()), r),
            r is Err ==> final(self).session().had_error,
        decreases old(self).remaining(), 45int,
    {
        proof {
            reveal(expression_statement_s);
            reveal(expression_s);
        }
        let expr = self.expression()?;
        self.consume(TokenType::Semicolon, "Expect ';' after expression.")?;
        Ok(Stmt::Expression { expression: expr })
    }

    fn expression(&mut self) -> (r: Result<Expr, ParseError>)
        requires
            old(self).wf(),
        ensures
            final(self).follows(*old(self)),
            *final(final(self).lox()) == *final(old(self).lox()),
            r is Ok ==> final(self).current > old(self).current,
            final(self).pstate() == expression_s(old(self).toks(), old(self).pstate()).next,
            expr_result(expression_s(old(self).toks(), old(self).pstate()), r),
            r is Err ==> final(self).session().had_error,
        decreases old(self).remaining(), 30int,
    {
        proof {
            reveal(expression_s);
            reveal(assignment_s);
        }
        self.assignment()
    }

    #[verifier::spinoff_prover]
    #[verifier::rlimit(30)]
    fn assignment(&mut self) -> (r: Result<Expr, ParseError>)
        requires
            old(self).wf(),
        ensures
            final(self).follows(*old(self)),
            *final(final(self).lox()) == *final(old(self).lox()),
            r is Ok ==> final(self).current > old(self).current,
            final(self).pstate() == assignment_s(old(self).toks(), old(self).pstate()).next,
            expr_result(assignment_s(old(self).toks(), old(self).pstate()), r),
            r is Err ==> final(self).session().had_error,
        decreases old(self).remaining(), 29int,
    {
        proof {
            reveal(assignment_s);
            reveal(logic_or_s);
        }
        let ghost toks = self.toks();
        let ghost st = self.pstate();
        let expr = self.logic_or()?;
        let ghost l = logic_or_s(toks, st);
        let ghost target = expr_view(expr);
        assert(l.value == Some(target) && advanced(toks, st, l.next));
        if self.matches(TokenType::Equal) {
            let equals = self.previous();
            let value = self.assignment()?;
            let ghost v = assignment_s(toks, skip(l.next));
            assert(v.value == Some(expr_view(value)) && v.next == self.pstate());
            match expr {
                Expr::Variable { name, .. } => {
                    let id = self.next_expr_id()?;
                    let ghost assigned = expr_view(Expr::Assign { id, name, value: Box::new(value) });
                    return Ok(Expr::Assign { id, name, value: Box::new(value) });
                },
                Expr::Get { object, name } => {
                    let ghost set = expr_view(Expr::SetProperty { object, name, value: Box::new(value) });
                    return Ok(Expr::SetProperty { object, name, value: Box::new(value) });
                },
                _ => {
                    self.error(&equals, "Invalid assignment target.");
                    return Ok(expr);
                },
            }
        }
        Ok(expr)
    }

    #[verifier::spinoff_prover]
    fn logic_or(&mut self) -> (r: Result<Expr, ParseError>)
        requires
            old(self).wf(),
        ensures
            final(self).follows(*old(self)),
            *final(final(self).lox()) == *final(old(self).lox()),
            r is Ok ==> final(self).current > old(self).current,
            final(self).pstate() == logic_or_s(old(self).toks(), old(self).pstate()).next,
            expr_result(logic_or_s(old(self).toks(), old(self).pstate()), r),
            r is Err ==> final(self).session().had_error,
        decreases old(self).remaining(), 28int,
    {
        proof {
            reveal(logic_or_s);
            reveal(or_rest);
            reveal(logic_and_s);
        }
        let ghost goal = logic_or_s(self.toks(), self.pstate());
        let mut expr = self.logic_and()?;
        loop
            invariant
                self.follows(*old(self)),
                *final(self.lox) == *final(old(self).lox),
                self.current > old(self).current,
                goal == logic_or_s(old(self).toks(), old(self).pstate()),
                or_rest(self.toks(), self.pstate(), expr_view(expr)) == goal,
            ensures
                self.follows(*old(self)),
                *final(self.lox) == *final(old(self).lox),
                self.current > old(self).current,
                goal == (Parsed { value: Some(expr_view(expr)), next: self.pstate() }),
            decreases self.remaining(),
        {
            proof {
                reveal(or_rest);
                reveal(logic_and_s);
            }
            let ghost before = self.pstate();
            let ghost left = expr_view(expr);
            if !self.matches(TokenType::Or) {
                break;
            }
            let operator = self.previous();
            let right = self.logic_and()?;
            proof {
                let r = logic_and_s(self.toks(), skip(before));
                assert(r.value == Some(expr_view(right)));
                assert(advanced(self.toks(), before, r.next));
                assert(or_rest(self.toks(), before, left) == or_rest(
                    self.toks(),
                    r.next,
                    logical(left, operator, expr_view(right)),
                ));
            }
            expr = Expr::Logical { left: Box::new(expr), operator, right: Box::new(right) };
            let ghost combined = expr_view(expr);
        }
        Ok(expr)
    }

    #[verifier::spinoff_prover]
    fn logic_and(&mut self) -> (r: Result<Expr, ParseError>)
        requires
            old(self).wf(),
        ensures
            final(self).follows(*old(self)),
            *final(final(self).lox()) == *final(old(self).lox()),
            r is Ok ==> final(self).current > old(self).current,
            final(self).pstate() == logic_and_s(old(self).toks(), old(self).pstate()).next,
            expr_result(logic_and_s(old(self).toks(), old(self).pstate()), r),
            r is Err ==> final(self).session().had_error,
        decreases old(self).remaining(), 27int,
    {
        proof {
            reveal(logic_and_s);
            reveal(and_rest);
            reveal(equality_s);
        }
        let ghost goal = logic_and_s(self.toks(), self.pstate());
        let mut expr = self.equality()?;
        loop
            invariant
                self.follows(*old(self)),
                *final(self.lox) == *final(old(self).lox),
                self.current > old(self).current,
                goal == logic_and_s(old(self).toks(), old(self).pstate()),
                and_rest(self.toks(), self.pstate(), expr_view(expr)) == goal,
            ensures
                self.follows(*old(self)),
                *final(self.lox) == *final(old(self).lox),
                self.current > old(self).current,
                goal == (Parsed { value: Some(expr_view(expr)), next: self.pstate() }),
            decreases self.remaining(),
        {
            proof {
                reveal(and_rest);
                reveal(equality_s);
            }
            let ghost before = self.pstate();
            let ghost left = expr_view(expr);
            if !self.matches(TokenType::And) {
                break;
            }
            let operator = self.previous();
            let right = self.equality()?;
            proof {
                let r = equality_s(self.toks(), skip(before));
                assert(r.value == Some(expr_view(right)));
                assert(advanced(self.toks(), before, r.next));
                assert(and_rest(self.toks(), before, left) == and_rest(
                    self.toks(),
                    r.next,
                    logical(left, operator, expr_view(right)),
                ));
            }
            expr = Expr::Logical { left: Box::new(expr), operator, right: Box::new(right) };
            let ghost combined = expr_view(expr);
        }
        Ok(expr)
    }

    #[verifier::spinoff_prover]
    fn equality(&mut self) -> (r: Result<Expr, ParseError>)
        requires
            old(self).wf(),
        ensures
            final(self).follows(*old(self)),
            *final(final(self).lox()) == *final(old(self).lox()),
            r is Ok ==> final(self).current > old(self).current,
            final(self).pstate() == equality_s(old(self).toks(), old(self).pstate()).next,
            expr_result(equality_s(old(self).toks(), old(self).pstate()), r),
            r is Err ==> final(self).session().had_error,
        decreases old(self).remaining(), 26int,
    {
        proof {
            reveal(equality_s);
            reveal(equality_rest);
            reveal(comparison_s);
        }
        let ghost goal = equality_s(self.toks(), self.pstate());
        let mut expr = self.comparison()?;
        loop
            invariant
                self.follows(*old(self)),
                *final(self.lox) == *final(old(self).lox),
                self.current > old(self).current,
                goal == equality_s(old(self).toks(), old(self).pstate()),
                equality_rest(self.toks(), self.pstate(), expr_view(expr)) == goal,
            ensures
                self.follows(*old(self)),
                *final(self.lox) == *final(old(self).lox),
                self.current > old(self).current,
                goal == (Parsed { value: Some(expr_view(expr)), next: self.pstate() }),
            decreases self.remaining(),
        {
            proof {
                reveal(equality_rest);
                reveal(comparison_s);
            }
            let ghost before = self.pstate();
            let ghost left = expr_view(expr);
            if !self.matches2(TokenType::BangEqual, TokenType::EqualEqual) {
                break;
            }
            let operator = self.previous();
            let right = self.comparison()?;
            proof {
                let r = comparison_s(self.toks(), skip(before));
                assert(r.value == Some(expr_view(right)));
                assert(advanced(self.toks(), before, r.next));
                assert(equality_rest(self.toks(), before, left) == equality_rest(
                    self.toks(),
                    r.next,
                    binary(left, operator, expr_view(right)),
                ));
            }
            expr = Expr::Binary { left: Box::new(expr), operator, right: Box::new(right) };
            let ghost combined = expr_view(expr);
        }
        Ok(expr)
    }

    #[verifier::spinoff_prover]
    #[verifier::rlimit(30)]
    fn comparison(&mut self) -> (r: Result<Expr, ParseError>)
        requires
            old(self).wf(),
        ensures
            final(self).follows(*old(self)),
            *final(final(self).lox()) == *final(old(self).lox()),
            r is Ok ==> final(self).current > old(self).current,
            final(self).pstate() == comparison_s(old(self).toks(), old(self).pstate()).next,
            expr_result(comparison_s(old(self).toks(), old(self).pstate()), r),
            r is Err ==> final(self).session().had_error,
        decreases old(self).remaining(), 25int,
    {
        proof {
            reveal(comparison_s);
            reveal(comparison_rest);
            reveal(term_s);
        }
        let ghost goal = comparison_s(self.toks(), self.pstate());
        let mut expr = self.term()?;
        loop
            invariant
                self.follows(*old(self)),
                *final(self.lox) == *final(old(self).lox),
                self.current > old(self).current,
                goal == comparison_s(old(self).toks(), old(self).pstate()),
                comparison_rest(self.toks(), self.pstate(), expr_view(expr)) == goal,
            ensures
                self.follows(*old(self)),
                *final(self.lox) == *final(old(self).lox),
                self.current > old(self).current,
                goal == (Parsed { value: Some(expr_view(expr)), next: self.pstate() }),
            decreases self.remaining(),
        {
            proof {
                reveal(comparison_rest);
                reveal(term_s);
            }
            let ghost before = self.pstate();
            let ghost left = expr_view(expr);
            if !(self.matches2(TokenType::Greater, TokenType::GreaterEqual) || self.matches2(TokenType::Less, TokenType::LessEqual)) {
                break;
            }
            let operator = self.previous();
            let right = self.term()?;
            proof {
                let r = term_s(self.toks(), skip(before));
                assert(r.value == Some(expr_view(right)));
                assert(advanced(self.toks(), before, r.next));
                assert(comparison_rest(self.toks(), before, left) == comparison_rest(
                    self.toks(),
                    r.next,
                    binary(left, operator, expr_view(right)),
                ));
            }
            expr = Expr::Binary { left: Box::new(expr), operator, right: Box::new(right) };
            let ghost combined = expr_view(expr);
        }
        Ok(expr)
    }

    #[verifier::spinoff_prover]
    fn term(&mut self) -> (r: Result<Expr, ParseError>)
        requires
            old(self).wf(),
        ensures
            final(self).follows(*old(self)),
            *final(final(self).lox()) == *final(old(self).lox()),
            r is Ok ==> final(self).current > old(self).current,
            final(self).pstate() == term_s(old(self).toks(), old(self).pstate()).next,
            expr_result(term_s(old(self).toks(), old(self).pstate()), r),
            r is Err ==> final(self).session().had_error,
        decreases old(self).remaining(), 24int,
    {
        proof {
            reveal(term_s);
            reveal(term_rest);
            reveal(factor_s);
        }
        let ghost goal = term_s(self.toks(), self.pstate());
        let mut expr = self.factor()?;
        loop
            invariant
                self.follows(*old(self)),
                *final(self.lox) == *final(old(self).lox),
                self.current > old(self).current,
                goal == term_s(old(self).toks(), old(self).pstate()),
                term_rest(self.toks(), self.pstate(), expr_view(expr)) == goal,
            ensures
                self.follows(*old(self)),
                *final(self.lox) == *final(old(self).lox),
                self.current > old(self).current,
                goal == (Parsed { value: Some(expr_view(expr)), next: self.pstate() }),
            decreases self.remaining(),
        {
            proof {
                reveal(term_rest);
                reveal(factor_s);
            }
            let ghost before = self.pstate();
            let ghost left = expr_view(expr);
            if !self.matches2(TokenType::Minus, TokenType::Plus) {
                break;
            }
            let operator = self.previous();
            let right = self.factor()?;
            proof {
                let r = factor_s(self.toks(), skip(before));
                assert(r.value == Some(expr_view(right)));
                assert(advanced(self.toks(), before, r.next));
                assert(term_rest(self.toks(), before, left) == term_rest(
                    self.toks(),
                    r.next,
                    binary(left, operator, expr_view(right)),
                ));
            }
            expr = Expr::Binary { left: Box::new(expr), operator, right: Box::new(right) };
            let ghost combined = expr_view(expr);
        }
        Ok(expr)
    }

    #[verifier::spinoff_prover]
    fn factor(&mut self) -> (r: Result<Expr, ParseError>)
        requires
            old(self).wf(),
        ensures
            final(self).follows(*old(self)),
            *final(final(self).lox()) == *final(old(self).lox()),
            r is Ok ==> final(self).current > old(self).current,
            final(self).pstate() == factor_s(old(self).toks(), old(self).pstate()).next,
            expr_result(factor_s(old(self).toks(), old(self).pstate()), r),
            r is Err ==> final(self).session().had_error,
        decreases old(self).remaining(), 23int,
    {
        proof {
            reveal(factor_s);
            reveal(factor_rest);
            reveal(unary_s);
        }
        let ghost goal = factor_s(self.toks(), self.pstate());
        let mut expr = self.unary()?;
        loop
            invariant
                self.follows(*old(self)),
                *final(self.lox) == *final(old(self).lox),
                self.current > old(self).current,
                goal == factor_s(old(self).toks(), old(self).pstate()),
                factor_rest(self.toks(), self.pstate(), expr_view(expr)) == goal,
            ensures
                self.follows(*old(self)),
                *final(self.lox) == *final(old(self).lox),
                self.current > old(self).current,
                goal == (Parsed { value: Some(expr_view(expr)), next: self.pstate() }),
            decreases self.remaining(),
        {
            proof {
                reveal(factor_rest);
                reveal(unary_s);
            }
            let ghost before = self.pstate();
            let ghost left = expr_view(expr);
            if !self.matches2(TokenType::Slash, TokenType::Star) {
                break;
            }
            let operator = self.previous();
            let right = self.unary()?;
            proof {
                let r = unary_s(self.toks(), skip(before));
                assert(r.value == Some(expr_view(right)));
                assert(advanced(self.toks(), before, r.next));
                assert(factor_rest(self.toks(), before, left) == factor_rest(
                    self.toks(),
                    r.next,
                    binary(left, operator, expr_view(right)),
                ));
            }
            expr = Expr::Binary { left: Box::new(expr), operator, right: Box::new(right) };
            let ghost combined = expr_view(expr);
        }
        Ok(expr)
    }

    fn unary(&mut self) -> (r: Result<Expr, ParseError>)
        requires
            old(self).wf(),
        ensures
            final(self).follows(*old(self)),
            *final(final(self).lox()) == *final(old(self).lox()),
            r is Ok ==> final(self).current > old(self).current,
            final(self).pstate() == unary_s(old(self).toks(), old(self).pstate()).next,
            expr_result(unary_s(old(self).toks(), old(self).pstate()), r),
            r is Err ==> final(self).session().had_error,
        decreases old(self).remaining(), 22int,
    {
        proof {
            reveal(unary_s);
            reveal(call_s);
        }
        if self.matches2(TokenType::Bang, TokenType::Minus) {
            let operator = self.previous();
            let right = self.unary()?;
            return Ok(Expr::Unary { operator, right: Box::new(right) });
        }
        self.call()
    }

    #[verifier::spinoff_prover]
    fn call(&mut self) -> (r: Result<Expr, ParseError>)
        requires
            old(self).wf(),
        ensures
            final(self).follows(*old(self)),
            *final(final(self).lox()) == *final(old(self).lox()),
            r is Ok ==> final(self).current > old(self).current,
            final(self).pstate() == call_s(old(self).toks(), old(self).pstate()).next,
            expr_result(call_s(old(self).toks(), old(self).pstate()), r),
            r is Err ==> final(self).session().had_error,
        decreases old(self).remaining(), 21int,
    {
        proof {
            reveal(call_s);
            reveal(call_rest);
            reveal(primary_s);
        }
        let ghost goal = call_s(self.toks(), self.pstate());
        let mut expr = self.primary()?;
        loop
            invariant
                self.follows(*old(self)),
                *final(self.lox) == *final(old(self).lox),
                self.current > old(self).current,
                goal == call_s(old(self).toks(), old(self).pstate()),
                call_rest(self.toks(), self.pstate(), expr_view(expr)) == goal,
            ensures
                self.follows(*old(self)),
                *final(self.lox) == *final(old(self).lox),
                self.current > old(self).current,
                goal == (Parsed { value: Some(expr_view(expr)), next: self.pstate() }),
            decreases self.remaining(),
        {
            proof {
                reveal(call_rest);
                reveal(finish_call_s);
            }
            if self.matches(TokenType::LeftParen) {
                expr = self.finish_call(expr)?;
            } else if self.matches(TokenType::Dot) {
                let name = self.consume(TokenType::Identifier, "Expect property name after '.'.")?;
                expr = Expr::Get { object: Box::new(expr), name };
            } else {
                break;
            }
        }
        Ok(expr)
    }

    #[verifier::spinoff_prover]
    fn finish_call(&mut self, callee: Expr) -> (r: Result<Expr, ParseError>)
        requires
            old(self).wf(),
        ensures
            final(self).follows(*old(self)),
            *final(final(self).lox()) == *final(old(self).lox()),
            r is Ok ==> final(self).current > old(self).current,
            final(self).pstate() == finish_call_s(old(self).toks(), old(self).pstate(), expr_view(callee)).next,
            expr_result(finish_call_s(old(self).toks(), old(self).pstate(), expr_view(callee)), r),
            r is Err ==> final(self).session().had_error,
        decreases old(self).remaining(), 31int,
    {
        proof {
            reveal(finish_call_s);
            reveal(args_rest);
        }
        let ghost args_goal = args_rest(self.toks(), self.pstate(), Seq::empty());
        let mut arguments = Vec::new();
        if !self.check(TokenType::RightParen) {
            loop
                invariant_except_break
                    args_rest(self.toks(), self.pstate(), exprs_view(arguments@)) == args_goal,
                    exprs_view(arguments@).len() == arguments@.len(),
                invariant
                    self.follows(*old(self)),
                    *final(self.lox) == *final(old(self).lox),
                    args_goal.value is None ==> finish_call_s(old(self).toks(), old(self).pstate(), expr_view(callee))
                        == fail::<SExpr>(args_goal.next),
                ensures
                    self.follows(*old(self)),
                    *final(self.lox) == *final(old(self).lox),
                    args_goal == (Parsed { value: Some(exprs_view(arguments@)), next: self.pstate() }),
                decreases self.remaining(),
            {
                proof {
                    reveal(args_rest);
                    reveal(expression_s);
                }
                if arguments.len() >= 255 {
                    let token = self.peek().clone();
                    self.error(&token, "Can't have more than 255 arguments.");
                }
                let ghost acc = arguments@;
                let a = self.expression()?;
                arguments.push(a);
                proof {
                    lemma_exprs_view_push(acc, a);
                }
                if !self.matches(TokenType::Comma) {
                    break;
                }
            }
        }
        let paren = self.consume(TokenType::RightParen, "Expect ')' after arguments.")?;
        Ok(Expr::Call { callee: Box::new(callee), paren, arguments })
    }

    #[verifier::spinoff_prover]
    fn primary(&mut self) -> (r: Result<Expr, ParseError>)
        requires
            old(self).wf(),
        ensures
            final(self).follows(*old(self)),
            *final(final(self).lox()) == *final(old(self).lox()),
            r is Ok ==> final(self).current > old(self).current,
            final(self).pstate() == primary_s(old(self).toks(), old(self).pstate()).next,
            expr_result(primary_s(old(self).toks(), old(self).pstate()), r),
            r is Err ==> final(self).session().had_error,
        decreases old(self).remaining(), 19int,
    {
        proof {
            reveal(primary_s);
            reveal(expression_s);
            reveal(function_body_s);
        }
        if self.matches(TokenType::Fun) {
            let keyword = self.previous();
            if self.check(TokenType::Identifier) && self.check_next(TokenType::LeftParen) {
                return Err(self.error(&keyword, "Expect expression."));
            }
            return self.function_body("function");
        }
        if self.matches(TokenType::False) {
            return Ok(Expr::Literal { value: Literal::Boolean(false) });
        }
        if self.matches(TokenType::True) {
            return Ok(Expr::Literal { value: Literal::Boolean(true) });
        }
        if self.matches(TokenType::Nil) {
            return Ok(Expr::Literal { value: Literal::Nil });
        }
        if self.matches2(TokenType::Number, TokenType::String) {
            let token = self.previous();
            let value = match token.literal {
                Some(l) => l,
                None => Literal::Nil,
            };
            return Ok(Expr::Literal { value });
        }
        if self.matches(TokenType::LeftParen) {
            let expr = self.expression()?;
            self.consume(TokenType::RightParen, "Expect ')' after expression.")?;
            return Ok(Expr::Grouping { expression: Box::new(expr) });
        }
        if self.matches(TokenType::Super) {
            let keyword = self.previous();
            self.consume(TokenType::Dot, "Expect '.' after 'super'.")?;
            let method = self.consume(TokenType::Identifier, "Expect superclass method name.")?;
            let id = self.next_expr_id()?;
            return Ok(Expr::Super { id, keyword, method });
        }
        if self.matches(TokenType::This) {
            let keyword = self.previous();
            let id = self.next_expr_id()?;
            return Ok(Expr::This { id, keyword });
        }
        if self.matches(TokenType::Identifier) {
            let name = self.previous();
            let id = self.next_expr_id()?;
            return Ok(Expr::Variable { id, name });
        }
        let token = self.peek().clone();
        Err(self.error(&token, "Expect expression."))
    }

    /// Consumes the current token if it has the given kind.
    fn matches(&mut self, token_type: TokenType) -> (r: bool)
        requires
            old(self).wf(),
        ensures
            final(self).follows(*old(self)),
            *final(final(self).lox()) == *final(old(self).lox()),
            final(self).loop_depth == old(self).loop_depth,
            r == (old(self).tokens@[old(self).current as int].token_type != TokenType::Eof
                && old(self).tokens@[old(self).current as int].token_type == token_type),
            final(self).current == old(self).current + (if r { 1int } else { 0int }),
            r == check(old(self).toks(), old(self).pstate(), token_type),
            final(self).pstate() == if r { skip(old(self).pstate()) } else { old(self).pstate() },
    {
        if self.check(token_type) {
            self.advance();
            return true;
        }
        false
    }

    /// Consumes the current token if it has either of the given kinds.
    fn matches2(&mut self, a: TokenType, b: TokenType) -> (r: bool)
        requires
            old(self).wf(),
        ensures
            final(self).follows(*old(self)),
            *final(final(self).lox()) == *final(old(self).lox()),
            final(self).loop_depth == old(self).loop_depth,
            r == (old(self).tokens@[old(self).current as int].token_type != TokenType::Eof && (
            old(self).tokens@[old(self).current as int].token_type == a
                || old(self).tokens@[old(self).current as int].token_type == b)),
            final(self).current == old(self).current + (if r { 1int } else { 0int }),
            r == (check(old(self).toks(), old(self).pstate(), a) || check(old(self).toks(), old(self).pstate(), b)),
            final(self).pstate() == if r { skip(old(self).pstate()) } else { old(self).pstate() },
    {
        if self.matches(a) {
            return true;
        }
        self.matches(b)
    }

    /// Consumes a token of the given kind, or reports `message` at the current token.
    fn consume(&mut self, token_type: TokenType, message: &str) -> (r: Result<Token, ParseError>)
        requires
            old(self).wf(),
        ensures
            final(self).follows(*old(self)),
            *final(final(self).lox()) == *final(old(self).lox()),
            final(self).loop_depth == old(self).loop_depth,
            r is Ok ==> final(self).current == old(self).current + 1 && r->Ok_0 == old(self).tokens@[old(self).current as int],
            r is Err ==> final(self).current == old(self).current,
            r is Ok <==> (old(self).tokens@[old(self).current as int].token_type != TokenType::Eof
                && old(self).tokens@[old(self).current as int].token_type == token_type),
            final(self).pstate() == consume_s(old(self).toks(), old(self).pstate(), token_type, message@).next,
            match r {
                Ok(t) => consume_s(old(self).toks(), old(self).pstate(), token_type, message@).value == Some(t),
                Err(_) => consume_s(old(self).toks(), old(self).pstate(), token_type, message@).value is None,
            },
            r is Err ==> final(self).session().had_error,
    {
        if self.check(token_type) {
            return Ok(self.advance());
        }
        let token = self.peek().clone();
        Err(self.error(&token, message))
    }

    fn check(&self, token_type: TokenType) -> (r: bool)
        requires
            self.wf(),
        ensures
            r == (self.tokens@[self.current as int].token_type != TokenType::Eof
                && self.tokens@[self.current as int].token_type == token_type),
            r == check(self.toks(), self.pstate(), token_type),
    {
        if self.is_at_end() {
            return false;
        }
        self.peek().token_type == token_type
    }

    /// Moves past the current token (unless it is the end) and returns the token before the new position.
    fn advance(&mut self) -> (t: Token)
        requires
            old(self).wf(),
        ensures
            final(self).follows(*old(self)),
            *final(final(self).lox()) == *final(old(self).lox()),
            final(self).loop_depth == old(self).loop_depth,
            old(self).tokens@[old(self).current as int].token_type != TokenType::Eof ==> final(self).current
                == old(self).current + 1,
            old(self).tokens@[old(self).current as int].token_type == TokenType::Eof ==> final(self).current
                == old(self).current,
            final(self).current > 0 ==> t == final(self).tokens@[final(self).current - 1],
            final(self).pstate() == if at_end(old(self).toks(), old(self).pstate()) {
                old(self).pstate()
            } else {
                skip(old(self).pstate())
            },
    {
        if !self.is_at_end() {
            self.current = self.current + 1;
        }
        if self.current == 0 {
            // Only an input made of the end-of-input token alone gets here.
            return self.tokens[0].clone();
        }
        self.previous()
    }

    fn is_at_end(&self) -> (r: bool)
        requires
            self.wf(),
        ensures
            r == (self.tokens@[self.current as int].token_type == TokenType::Eof),
            !r ==> self.current + 1 < self.tokens@.len(),
    {
        self.peek().token_type == TokenType::Eof
    }

    fn peek(&self) -> (t: &Token)
        requires
            self.wf(),
        ensures
            *t == self.tokens@[self.current as int],
    {
        &self.tokens[self.current]
    }

    fn previous(&self) -> (t: Token)
        requires
            self.wf(),
            self.current > 0,
        ensures
            t == self.tokens@[self.current - 1],
    {
        self.tokens[self.current - 1].clone()
    }

    fn error(&mut self, token: &Token, message: &str) -> (e: ParseError)
        requires
            old(self).wf(),
        ensures
            final(self).tokens == old(self).tokens,
            final(self).current == old(self).current,
            final(self).loop_depth == old(self).loop_depth,
            final(self).lox@.had_error,
            final(self).lox@.reports == old(self).lox@.reports.push(
                report_text(token.line as nat, token_location(*token), message@),
            ),
            final(self).lox@.had_runtime_error == old(self).lox@.had_runtime_error,
            final(self).lox@.output == old(self).lox@.output,
            *final(final(self).lox()) == *final(old(self).lox()),
            final(self).pstate() == report(old(self).pstate(), *token, message@),
            final(self).follows(*old(self)),
    {
        self.lox.error_token(token, message);
        self.made = Ghost(self.made@.push(report_text(token.line as nat, token_location(*token), message@)));
        assert(self.lox@.reports =~= self.base@ + self.made@);
        ParseError
    }

    /// Skips tokens until a statement boundary: just after a `;`, or before a
    /// keyword that starts a statement. Always moves past at least one token
    /// unless at the end.
    fn synchronize(&mut self, before: usize)
        requires
            old(self).wf(),
            before <= old(self).current,
        ensures
            final(self).follows(*old(self)),
            *final(final(self).lox()) == *final(old(self).lox()),
            final(self).current > before || final(self).tokens@[final(self).current as int].token_type
                == TokenType::Eof,
            final(self).pstate() == synchronize_s(old(self).toks(), old(self).pstate()),
    {
        let ghost goal = synchronize_s(self.toks(), self.pstate());
        self.advance();
        while !self.is_at_end()
            invariant
                self.follows(*old(self)),
                *final(self.lox) == *final(old(self).lox),
                self.current > before || self.at_end(),
                !at_end(old(self).toks(), old(self).pstate()) ==> self.current > 0 && sync_from(self.toks(), self.pstate()) == goal,
                at_end(old(self).toks(), old(self).pstate()) ==> self.pstate() == goal,
                goal == synchronize_s(old(self).toks(), old(self).pstate()),
                self.loop_depth == old(self).loop_depth,
                self.lox@.next_id == old(self).lox@.next_id,
            decreases self.remaining(),
        {
            let ghost cur = self.pstate();
            proof {
                if !at_end(old(self).toks(), old(self).pstate()) {
                    assert(sync_from(self.toks(), cur) == if self.toks()[cur.pos - 1].token_type == TokenType::Semicolon
                        || starts_statement(kind_at(self.toks(), cur)) {
                        cur
                    } else {
                        sync_from(self.toks(), skip(cur))
                    });
                }
            }
            if self.previous().token_type == TokenType::Semicolon {
                return;
            }
            let t = self.peek().token_type;
            if t == TokenType::Class || t == TokenType::Fun || t == TokenType::Var || t == TokenType::For
                || t == TokenType::If || t == TokenType::While || t == TokenType::Print || t
                == TokenType::Return {
                return;
            }
            self.advance();
        }
    }

    fn next_expr_id(&mut self) -> (r: Result<ExprId, ParseError>)
        requires
            old(self).wf(),
        ensures
            final(self).tokens == old(self).tokens,
            final(self).current == old(self).current,
            final(self).loop_depth == old(self).loop_depth,
            final(self).lox@.reports.len() >= old(self).lox@.reports.len(),
            forall|k: int| 0 <= k < old(self).lox@.reports.len() ==> final(self).lox@.reports[k] == old(self).lox@.reports[k],
            old(self).lox@.had_error ==> final(self).lox@.had_error,
            final(self).lox@.had_runtime_error == old(self).lox@.had_runtime_error,
            final(self).lox@.output == old(self).lox@.output,
            *final(final(self).lox()) == *final(old(self).lox()),
            final(self).follows(*old(self)),
            final(self).pstate() == new_id(old(self).toks(), old(self).pstate()).next,
            match r {
                Ok(i) => new_id(old(self).toks(), old(self).pstate()).value == Some(i),
                Err(_) => new_id(old(self).toks(), old(self).pstate()).value is None,
            },
            r is Err ==> final(self).session().had_error,
    {
        if self.lox.can_allocate_id() {
            Ok(self.lox.next_expr_id())
        } else {
            let token = self.peek().clone();
            Err(self.error(&token, "Too many expressions."))
        }
    }
}

} // verus!

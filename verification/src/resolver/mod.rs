//! Static resolution: finds where each local variable lives, and reports
//! static errors.
use vstd::prelude::*;
use crate::expr::Expr;
use crate::expr_id::ExprId;
use crate::interpreter::{Interpreter, LocalResolution};
use crate::stmt::{ClassMember, Stmt};
use crate::text::{append_str, owned, string_is};
use crate::token::{Token, TokenType};

verus! {

/// The kind of function being resolved.
#[derive(Debug, PartialEq, Eq, Clone, Copy, Structural)]
pub enum FunctionType {
    TopLevel,
    Function,
    Method,
}

/// The kind of class being resolved.
#[derive(Debug, PartialEq, Eq, Clone, Copy, Structural)]
pub enum ClassType {
    Outside,
    Class,
    Subclass,
}

/// A static error: where, and what.
#[derive(Debug)]
pub struct ResolutionError {
    pub token: Token,
    pub message: String,
}

/// A local variable of a scope being resolved.
struct Local {
    name: String,
    token: Option<Token>,
    defined: bool,
    used: bool,
}

impl Local {
    spec fn view_local(self) -> LocalView {
        LocalView { name: self.name@, token: self.token, defined: self.defined, used: self.used }
    }
}

/// The views of a scope's locals.
spec fn scope_view(scope: Seq<Local>) -> Seq<LocalView> {
    scope.map_values(|l: Local| l.view_local())
}

/// `Local variable '<name>' is never used.`
pub open spec fn unused_message(name: Seq<char>) -> Seq<char> {
    "Local variable '"@ + name + "' is never used."@
}

// ----------------------------------------------------------------------
// What resolving does, step by step.

/// A local variable while its scope is being resolved: its name, the token
/// that declared it (none for `this` and `super`), and whether it has been
/// defined and read.
pub struct LocalView {
    pub name: Seq<char>,
    pub token: Option<Token>,
    pub defined: bool,
    pub used: bool,
}

/// Everything resolving reads and changes: the open scopes (innermost last),
/// the kinds of function and class around, where each expression's variable
/// was placed, and the errors reported.
pub struct ResolverState {
    pub scopes: Seq<Seq<LocalView>>,
    pub function: FunctionType,
    pub class: ClassType,
    pub resolutions: Map<ExprId, LocalResolution>,
    pub errors: Seq<(Token, Seq<char>)>,
}

/// The first slot of `scope` holding a local called `name`.
pub open spec fn slot_of(scope: Seq<LocalView>, name: Seq<char>) -> Option<nat>
    decreases scope.len(),
{
    if scope.len() == 0 {
        None
    } else {
        match slot_of(scope.drop_last(), name) {
            Some(j) => Some(j),
            None => if scope.last().name == name { Some((scope.len() - 1) as nat) } else { None },
        }
    }
}

pub open spec fn with_error(st: ResolverState, token: Token, message: Seq<char>) -> ResolverState {
    ResolverState { errors: st.errors.push((token, message)), ..st }
}

/// The state with the innermost scope replaced.
pub open spec fn with_innermost(st: ResolverState, scope: Seq<LocalView>) -> ResolverState {
    ResolverState { scopes: st.scopes.update(st.scopes.len() - 1, scope), ..st }
}

pub open spec fn begin_scope_s(st: ResolverState) -> ResolverState {
    ResolverState { scopes: st.scopes.push(Seq::empty()), ..st }
}

/// The errors for the locals of a closed scope that were never read, in order.
pub open spec fn unused_errors(scope: Seq<LocalView>) -> Seq<(Token, Seq<char>)>
    decreases scope.len(),
{
    if scope.len() == 0 {
        Seq::empty()
    } else {
        let l = scope.last();
        unused_errors(scope.drop_last()) + match l.token {
            Some(t) => if !l.used { seq![(t, unused_message(l.name))] } else { Seq::empty() },
            None => Seq::empty(),
        }
    }
}

pub open spec fn end_scope_s(st: ResolverState) -> ResolverState {
    ResolverState {
        scopes: st.scopes.drop_last(),
        errors: st.errors + unused_errors(st.scopes.last()),
        ..st
    }
}

/// Declaring `name` in the innermost scope (nothing at the top level).
pub open spec fn declare_s(st: ResolverState, name: Token) -> ResolverState {
    if st.scopes.len() == 0 {
        st
    } else if slot_of(st.scopes.last(), name.lexeme@) is Some {
        with_error(st, name, "Already a variable with this name in this scope."@)
    } else {
        with_innermost(
            st,
            st.scopes.last().push(LocalView { name: name.lexeme@, token: Some(name), defined: false, used: false }),
        )
    }
}

/// Adding `this` or `super` to the innermost scope.
pub open spec fn declare_implicit_s(st: ResolverState, name: Seq<char>) -> ResolverState {
    if st.scopes.len() == 0 {
        st
    } else {
        with_innermost(st, st.scopes.last().push(LocalView { name, token: None, defined: true, used: true }))
    }
}

/// Marking `name` defined in the innermost scope.
pub open spec fn define_s(st: ResolverState, name: Seq<char>) -> ResolverState {
    if st.scopes.len() == 0 {
        st
    } else {
        match slot_of(st.scopes.last(), name) {
            Some(j) => with_innermost(
                st,
                st.scopes.last().update(j as int, LocalView { defined: true, ..st.scopes.last()[j as int] }),
            ),
            None => st,
        }
    }
}

/// Whether `name` is declared but not yet defined in the innermost scope.
pub open spec fn declared_not_defined_s(st: ResolverState, name: Seq<char>) -> bool {
    st.scopes.len() > 0 && match slot_of(st.scopes.last(), name) {
        Some(j) => !st.scopes.last()[j as int].defined,
        None => false,
    }
}

/// Placing expression `id`'s variable `name`, looking from `distance` scopes
/// out: the first scope that declares it, marked read if `mark_used`.
pub open spec fn resolve_from(st: ResolverState, id: ExprId, name: Seq<char>, mark_used: bool, distance: nat) -> ResolverState
    decreases st.scopes.len() - distance,
{
    if distance >= st.scopes.len() {
        st
    } else {
        let index = st.scopes.len() - 1 - distance;
        match slot_of(st.scopes[index], name) {
            Some(slot) => {
                let marked = if mark_used {
                    ResolverState {
                        scopes: st.scopes.update(
                            index,
                            st.scopes[index].update(slot as int, LocalView { used: true, ..st.scopes[index][slot as int] }),
                        ),
                        ..st
                    }
                } else {
                    st
                };
                ResolverState {
                    resolutions: marked.resolutions.insert(id, LocalResolution { distance: distance as usize, slot: slot as usize }),
                    ..marked
                }
            },
            None => resolve_from(st, id, name, mark_used, distance + 1),
        }
    }
}

/// Below scope `top` (counting scopes from the outermost), the nearest scope
/// that declares `name` is scope `i`, at slot `k`.
pub open spec fn nearest_declaration(scopes: Seq<Seq<LocalView>>, name: Seq<char>, top: int, i: nat, k: nat) -> bool {
    &&& i < top <= scopes.len()
    &&& slot_of(scopes[i as int], name) == Some(k)
    &&& k < scopes[i as int].len()
    &&& scopes[i as int][k as int].name == name
    &&& forall|e: int| i < e < top ==> slot_of(#[trigger] scopes[e], name) is None
}

/// Searching from `distance` scopes out places the variable at the nearest
/// scope from there on that declares its name, at the first slot there with
/// that name, and changes nothing else but marking it read; with no such
/// scope it changes nothing.
pub proof fn lemma_resolve_from(st: ResolverState, id: ExprId, name: Seq<char>, mark_used: bool, distance: nat)
    ensures
        ({
            let after = resolve_from(st, id, name, mark_used, distance);
            let n = st.scopes.len();
            let top = n - distance;
            &&& after.errors == st.errors
            &&& after.function == st.function
            &&& after.class == st.class
            &&& after.scopes.len() == n
            &&& (forall|e: int| 0 <= e < top ==> slot_of(#[trigger] st.scopes[e], name) is None) ==> after == st
            &&& (exists|e: int| 0 <= e < top && slot_of(#[trigger] st.scopes[e], name) is Some) ==> exists|
                i: nat,
                k: nat,
            |
                #[trigger] nearest_declaration(st.scopes, name, top, i, k) && after.resolutions == st.resolutions.insert(
                    id,
                    LocalResolution { distance: (n - 1 - i) as usize, slot: k as usize },
                )
        }),
    decreases st.scopes.len() - distance,
{
    let n = st.scopes.len();
    if distance < n {
        let index = n - 1 - distance;
        lemma_slot_of(st.scopes[index], name);
        match slot_of(st.scopes[index], name) {
            Some(k) => {
                assert(nearest_declaration(st.scopes, name, n - distance, index as nat, k));
            },
            None => {
                lemma_resolve_from(st, id, name, mark_used, distance + 1);
                let after = resolve_from(st, id, name, mark_used, distance);
                if exists|e: int| 0 <= e < n - distance && slot_of(#[trigger] st.scopes[e], name) is Some {
                    let e = choose|e: int| 0 <= e < n - distance && slot_of(#[trigger] st.scopes[e], name) is Some;
                    assert(e != index);
                    assert(0 <= e < n - (distance + 1) && slot_of(st.scopes[e], name) is Some);
                    let (i, k) = choose|i: nat, k: nat|
                        #[trigger] nearest_declaration(st.scopes, name, n - (distance + 1), i, k)
                            && after.resolutions == st.resolutions.insert(
                            id,
                            LocalResolution { distance: (n - 1 - i) as usize, slot: k as usize },
                        );
                    assert(nearest_declaration(st.scopes, name, n - distance, i, k));
                }
            },
        }
    }
}

/// A variable reference resolves to the innermost open scope that declares
/// its name, at the slot of that declaration, with the distance counted
/// outwards from the innermost scope; a name that no open scope declares is
/// left to the global scope (no resolution is recorded).
pub proof fn law_resolves_to_innermost_declaration(st: ResolverState, id: ExprId, name: Seq<char>, mark_used: bool)
    ensures
        ({
            let after = resolve_local_s(st, id, name, mark_used);
            let n = st.scopes.len();
            &&& (forall|e: int| 0 <= e < n ==> slot_of(#[trigger] st.scopes[e], name) is None) ==> after == st
            &&& (exists|e: int| 0 <= e < n && slot_of(#[trigger] st.scopes[e], name) is Some) ==> exists|
                i: nat,
                k: nat,
            |
                #[trigger] nearest_declaration(st.scopes, name, n as int, i, k) && after.resolutions
                    == st.resolutions.insert(id, LocalResolution { distance: (n - 1 - i) as usize, slot: k as usize })
        }),
{
    lemma_resolve_from(st, id, name, mark_used, 0);
}

/// Resolving a variable reference.
pub open spec fn resolve_local_s(st: ResolverState, id: ExprId, name: Seq<char>, mark_used: bool) -> ResolverState {
    resolve_from(st, id, name, mark_used, 0)
}

/// Resolving an expression.
pub open spec fn expr_s(e: Expr, st: ResolverState) -> ResolverState
    decreases e, 0int,
{
    match e {
        Expr::Binary { left, right, .. } => expr_s(*right, expr_s(*left, st)),
        Expr::Grouping { expression } => expr_s(*expression, st),
        Expr::Literal { .. } => st,
        Expr::Unary { right, .. } => expr_s(*right, st),
        Expr::Variable { id, name } => {
            let checked = if declared_not_defined_s(st, name.lexeme@) {
                with_error(st, name, "Can't read local variable in its own initializer."@)
            } else {
                st
            };
            resolve_local_s(checked, id, name.lexeme@, true)
        },
        Expr::Assign { id, name, value } => resolve_local_s(expr_s(*value, st), id, name.lexeme@, false),
        Expr::Logical { left, right, .. } => expr_s(*right, expr_s(*left, st)),
        Expr::Call { callee, arguments, .. } => args_s(arguments@, expr_s(*callee, st)),
        Expr::Get { object, .. } => expr_s(*object, st),
        Expr::SetProperty { object, value, .. } => expr_s(*object, expr_s(*value, st)),
        Expr::This { id, keyword } => if st.class == ClassType::Outside {
            with_error(st, keyword, "Can't use 'this' outside of a class."@)
        } else {
            resolve_local_s(st, id, keyword.lexeme@, true)
        },
        Expr::Super { id, keyword, .. } => if st.class == ClassType::Outside {
            with_error(st, keyword, "Can't use 'super' outside of a class."@)
        } else if st.class != ClassType::Subclass {
            with_error(st, keyword, "Can't use 'super' in a class with no superclass."@)
        } else {
            resolve_local_s(st, id, keyword.lexeme@, true)
        },
        Expr::Function { params, body } => function_s((*params)@, (*body)@, FunctionType::Function, st),
    }
}

/// Resolving call arguments from left to right.
pub open spec fn args_s(args: Seq<Expr>, st: ResolverState) -> ResolverState
    decreases args, 0int,
{
    if args.len() == 0 {
        st
    } else {
        expr_s(args.last(), args_s(args.drop_last(), st))
    }
}

/// Declaring and defining parameters from left to right.
pub open spec fn params_s(params: Seq<Token>, st: ResolverState) -> ResolverState
    decreases params.len(),
{
    if params.len() == 0 {
        st
    } else {
        let before = params_s(params.drop_last(), st);
        define_s(declare_s(before, params.last()), params.last().lexeme@)
    }
}

/// Resolving a function: its parameters and body in a new scope.
pub open spec fn function_s(params: Seq<Token>, body: Seq<Stmt>, kind: FunctionType, st: ResolverState) -> ResolverState
    decreases body, 1int,
{
    let inner = params_s(params, begin_scope_s(ResolverState { function: kind, ..st }));
    let done = end_scope_s(list_s(body, inner));
    ResolverState { function: st.function, ..done }
}

/// Resolving statements in order.
pub open spec fn list_s(statements: Seq<Stmt>, st: ResolverState) -> ResolverState
    decreases statements, 0int,
{
    if statements.len() == 0 {
        st
    } else {
        stmt_s(statements.last(), list_s(statements.drop_last(), st))
    }
}

/// Resolving a statement.
pub open spec fn stmt_s(s: Stmt, st: ResolverState) -> ResolverState
    decreases s, 0int,
{
    match s {
        Stmt::Expression { expression } => expr_s(expression, st),
        Stmt::Print { expression } => expr_s(expression, st),
        Stmt::If { condition, then_branch, else_branch } => {
            let then_done = stmt_s(*then_branch, expr_s(condition, st));
            match else_branch {
                Some(e) => stmt_s(*e, then_done),
                None => then_done,
            }
        },
        Stmt::While { condition, body } => stmt_s(*body, expr_s(condition, st)),
        Stmt::Block { statements } => end_scope_s(list_s(statements@, begin_scope_s(st))),
        Stmt::Var { name, initializer } => {
            let declared = declare_s(st, name);
            let initialized = match initializer {
                Some(e) => expr_s(e, declared),
                None => declared,
            };
            define_s(initialized, name.lexeme@)
        },
        Stmt::Function { name, parameters, body } => function_s(
            (*parameters)@,
            (*body)@,
            FunctionType::Function,
            define_s(declare_s(st, name), name.lexeme@),
        ),
        Stmt::Class { name, superclass, methods } => {
            let named = define_s(declare_s(ResolverState { class: ClassType::Class, ..st }, name), name.lexeme@);
            let with_super = match superclass {
                Some(super_expr) => {
                    let checked = match super_expr {
                        Expr::Variable { name: super_name, .. } => if super_name.lexeme@ == name.lexeme@ {
                            with_error(named, super_name, "A class can't inherit from itself."@)
                        } else {
                            named
                        },
                        _ => named,
                    };
                    let resolved = expr_s(super_expr, ResolverState { class: ClassType::Subclass, ..checked });
                    declare_implicit_s(begin_scope_s(resolved), "super"@)
                },
                None => named,
            };
            let members_done = members_s(methods@, with_super);
            let closed = if superclass is Some { end_scope_s(members_done) } else { members_done };
            ResolverState { class: st.class, ..closed }
        },
        Stmt::Return { keyword, value } => {
            let checked = if st.function == FunctionType::TopLevel {
                with_error(st, keyword, "Can't return from top level code."@)
            } else {
                st
            };
            match value {
                Some(e) => expr_s(e, checked),
                None => checked,
            }
        },
        Stmt::Break => st,
    }
}

/// Resolving class members in order: methods and getters see `this`;
/// static methods are resolved as plain functions outside any class.
pub open spec fn members_s(members: Seq<ClassMember>, st: ResolverState) -> ResolverState
    decreases members, 0int,
{
    if members.len() == 0 {
        st
    } else {
        let before = members_s(members.drop_last(), st);
        match members.last() {
            ClassMember::Method { parameters, body, .. } => end_scope_s(
                function_s((*parameters)@, (*body)@, FunctionType::Method, declare_implicit_s(begin_scope_s(before), "this"@)),
            ),
            ClassMember::Getter { body, .. } => end_scope_s(
                function_s(Seq::empty(), (*body)@, FunctionType::Method, declare_implicit_s(begin_scope_s(before), "this"@)),
            ),
            ClassMember::StaticMethod { parameters, body, .. } => {
                let done = function_s(
                    (*parameters)@,
                    (*body)@,
                    FunctionType::Function,
                    ResolverState { class: ClassType::Outside, ..before },
                );
                ResolverState { class: before.class, ..done }
            },
        }
    }
}

pub struct Resolver<'a> {
    interpreter: &'a mut Interpreter,
    scopes: Vec<Vec<Local>>,
    current_function: FunctionType,
    current_class: ClassType,
    errors: Vec<ResolutionError>,
}

impl<'a> Resolver<'a> {
    /// What the resolver has done so far.
    pub closed spec fn state(&self) -> ResolverState {
        ResolverState {
            scopes: self.scopes@.map_values(|v: Vec<Local>| scope_view(v@)),
            function: self.current_function,
            class: self.current_class,
            resolutions: self.interpreter.resolutions(),
            errors: self.errors@.map_values(|e: ResolutionError| (e.token, e.message@)),
        }
    }

    /// The interpreter stays well formed and differs in its resolutions at most.
    pub closed spec fn interp_ok(&self, old: Resolver<'a>) -> bool {
        &&& self.interpreter.wf()
        &&& self.interpreter.unchanged_but_resolutions(*old.interpreter)
    }

    /// As `interp_ok`, and the same scopes are open inside the same kinds of
    /// function and class.
    pub closed spec fn keeps(&self, old: Resolver<'a>) -> bool {
        &&& self.interp_ok(old)
        &&& self.scopes@.len() == old.scopes@.len()
        &&& self.current_function == old.current_function
        &&& self.current_class == old.current_class
    }

    /// The interpreter the resolver records resolutions in.
    pub closed spec fn interp(self) -> &'a mut Interpreter {
        self.interpreter
    }

    /// The static errors reported so far.
    pub closed spec fn error_count(&self) -> nat {
        self.errors@.len()
    }

    pub closed spec fn interpreter_wf(&self) -> bool {
        self.interpreter.wf()
    }

    pub fn new(interpreter: &'a mut Interpreter) -> (r: Self)
        requires
            old(interpreter).wf(),
        ensures
            *r.interp() == *old(interpreter),
            *final(interpreter) == *final(r.interp()),
            r.interpreter_wf(),
            r.state() == (ResolverState {
                scopes: Seq::empty(),
                function: FunctionType::TopLevel,
                class: ClassType::Outside,
                resolutions: old(interpreter).resolutions(),
                errors: Seq::empty(),
            }),
            r.error_count() == 0,
    {
        let r = Resolver {
            interpreter,
            scopes: Vec::new(),
            current_function: FunctionType::TopLevel,
            current_class: ClassType::Outside,
            errors: Vec::new(),
        };
        assert(r.state().scopes =~= Seq::<Seq<LocalView>>::empty());
        assert(r.state().errors =~= Seq::<(Token, Seq<char>)>::empty());
        r
    }

    /// Resolves a list of top-level statements: records in the interpreter
    /// where each variable reference lives, and reports static errors, as
    /// `list_s` says.
    pub fn resolve(&mut self, statements: &[Stmt])
        requires
            old(self).interpreter_wf(),
        ensures
            final(self).interpreter_wf(),
            final(self).keeps(*old(self)),
            *final(final(self).interp()) == *final(old(self).interp()),
            (*final(self).interp()).unchanged_but_resolutions(*old(self).interp()),
            final(self).state() == list_s(statements@, old(self).state()),
            (*final(self).interp()).resolutions() == final(self).state().resolutions,
    {
        let mut i: usize = 0;
        while i < statements.len()
            invariant
                i <= statements@.len(),
                self.keeps(*old(self)),
                *final(self.interpreter) == *final(old(self).interpreter),
                self.state() == list_s(statements@.take(i as int), old(self).state()),
            decreases statements@.len() - i,
        {
            self.resolve_stmt(&statements[i]);
            proof {
                assert(statements@.take(i + 1).drop_last() =~= statements@.take(i as int));
            }
            i = i + 1;
        }
        proof {
            assert(statements@.take(i as int) =~= statements@);
        }
    }

    fn resolve_list(&mut self, statements: &Vec<Stmt>)
        requires
            old(self).interpreter_wf(),
        ensures
            final(self).keeps(*old(self)),
            *final(final(self).interp()) == *final(old(self).interp()),
            final(self).state() == list_s(statements@, old(self).state()),
        decreases statements, 0int,
    {
        let mut i: usize = 0;
        while i < statements.len()
            invariant
                i <= statements@.len(),
                self.keeps(*old(self)),
                *final(self.interpreter) == *final(old(self).interpreter),
                self.state() == list_s(statements@.take(i as int), old(self).state()),
            decreases statements@.len() - i,
        {
            self.resolve_stmt(&statements[i]);
            proof {
                assert(statements@.take(i + 1).drop_last() =~= statements@.take(i as int));
            }
            i = i + 1;
        }
        proof {
            assert(statements@.take(i as int) =~= statements@);
        }
    }

    /// Resolves one statement, as `stmt_s` says.
    pub fn resolve_stmt(&mut self, statement: &Stmt)
        requires
            old(self).interpreter_wf(),
        ensures
            final(self).interpreter_wf(),
            final(self).keeps(*old(self)),
            *final(final(self).interp()) == *final(old(self).interp()),
            (*final(self).interp()).unchanged_but_resolutions(*old(self).interp()),
            final(self).state() == stmt_s(*statement, old(self).state()),
            plain_stmt(*statement) && distinct_ids(stmt_refs(*statement)) ==> forall|j: int|
                0 <= j < stmt_refs(*statement).len() ==> #[trigger] resolved_as_declared(
                    old(self).state().scopes,
                    old(self).state().resolutions,
                    final(self).state().resolutions,
                    stmt_refs(*statement)[j],
                ),
        decreases statement, 2int,
    {
        let ghost start = self.state();
        proof {
            if plain_stmt(*statement) && distinct_ids(stmt_refs(*statement)) {
                law_statement_references_resolve_to_innermost_declaration(*statement, start);
            }
        }
        match statement {
            Stmt::Expression { expression } => self.resolve_expr(expression),
            Stmt::Print { expression } => self.resolve_expr(expression),
            Stmt::If { condition, then_branch, else_branch } => {
                self.resolve_expr(condition);
                self.resolve_stmt(then_branch);
                match else_branch {
                    Some(else_branch) => self.resolve_stmt(else_branch),
                    None => {},
                }
            },
            Stmt::While { condition, body } => {
                self.resolve_expr(condition);
                self.resolve_stmt(body);
            },
            Stmt::Block { statements } => {
                self.begin_scope();
                self.resolve_list(statements);
                self.end_scope();
            },
            Stmt::Var { name, initializer } => {
                self.declare(name);
                match initializer {
                    Some(initializer) => self.resolve_expr(initializer),
                    None => {},
                }
                self.define(name);
            },
            Stmt::Function { name, parameters, body } => {
                self.declare(name);
                self.define(name);
                self.resolve_function(parameters, body, FunctionType::Function);
            },
            Stmt::Class { name, superclass, methods } => {
                self.resolve_class(statement, name, superclass, methods);
            },
            Stmt::Return { keyword, value } => {
                if self.current_function == FunctionType::TopLevel {
                    self.error(keyword, "Can't return from top level code.");
                }
                match value {
                    Some(value) => self.resolve_expr(value),
                    None => {},
                }
            },
            Stmt::Break => {},
        }
    }

    fn resolve_class(&mut self, statement: &Stmt, name: &Token, superclass: &Option<Expr>, methods: &Vec<ClassMember>)
        requires
            old(self).interpreter_wf(),
            statement matches Stmt::Class { name: n, superclass: s, methods: m } && n == *name && s == *superclass && m == *methods,
        ensures
            final(self).keeps(*old(self)),
            *final(final(self).interp()) == *final(old(self).interp()),
            final(self).state() == stmt_s(*statement, old(self).state()),
        decreases statement, 1int,
    {
        let enclosing_class = self.current_class;
        self.current_class = ClassType::Class;
        self.declare(name);
        self.define(name);
        let ghost named = self.state();
        let has_superclass = match superclass {
            Some(super_expr) => {
                match super_expr {
                    Expr::Variable { name: super_name, .. } => {
                        if super_name.lexeme == name.lexeme {
                            self.error(super_name, "A class can't inherit from itself.");
                        }
                    },
                    _ => {},
                }
                self.current_class = ClassType::Subclass;
                self.resolve_expr(super_expr);
                true
            },
            None => false,
        };
        if has_superclass {
            self.begin_scope();
            self.declare_implicit("super");
        }
        let ghost with_super = self.state();
        let mut i: usize = 0;
        while i < methods.len()
            invariant
                i <= methods@.len(),
                self.interp_ok(*old(self)),
                self.scopes@.len() == old(self).scopes@.len() + (if has_superclass { 1int } else { 0int }),
                self.current_function == old(self).current_function,
                *final(self.interpreter) == *final(old(self).interpreter),
                self.state() == members_s(methods@.take(i as int), with_super),
                forall|j: int| 0 <= j < methods@.len() ==> decreases_to!(statement => #[trigger] methods@[j]),
            decreases methods@.len() - i,
        {
            let ghost before = self.state();
            match &methods[i] {
                ClassMember::Method { parameters, body, .. } => {
                    self.begin_scope();
                    self.declare_implicit("this");
                    self.resolve_function(parameters, body, FunctionType::Method);
                    self.end_scope();
                },
                ClassMember::Getter { body, .. } => {
                    self.begin_scope();
                    self.declare_implicit("this");
                    let no_params: Vec<Token> = Vec::new();
                    proof {
                        assert(no_params@ =~= Seq::<Token>::empty());
                    }
                    self.resolve_function(&no_params, body, FunctionType::Method);
                    self.end_scope();
                },
                ClassMember::StaticMethod { parameters, body, .. } => {
                    let enclosing = self.current_class;
                    self.current_class = ClassType::Outside;
                    self.resolve_function(parameters, body, FunctionType::Function);
                    self.current_class = enclosing;
                },
            }
            proof {
                assert(methods@.take(i + 1).drop_last() =~= methods@.take(i as int));
            }
            i = i + 1;
        }
        proof {
            assert(methods@.take(i as int) =~= methods@);
        }
        if has_superclass {
            self.end_scope();
        }
        self.current_class = enclosing_class;
    }

    /// Resolves an expression, as `expr_s` says.
    fn resolve_expr(&mut self, expression: &Expr)
        requires
            old(self).interpreter_wf(),
        ensures
            final(self).keeps(*old(self)),
            *final(final(self).interp()) == *final(old(self).interp()),
            final(self).state() == expr_s(*expression, old(self).state()),
        decreases expression, 2int,
    {
        match expression {
            Expr::Binary { left, right, .. } => {
                self.resolve_expr(left);
                self.resolve_expr(right);
            },
            Expr::Grouping { expression } => self.resolve_expr(expression),
            Expr::Literal { .. } => {},
            Expr::Unary { right, .. } => self.resolve_expr(right),
            Expr::Variable { id, name } => {
                if self.declared_not_defined(name) {
                    self.error(name, "Can't read local variable in its own initializer.");
                }
                self.resolve_local(*id, name, true);
            },
            Expr::Assign { id, name, value } => {
                self.resolve_expr(value);
                self.resolve_local(*id, name, false);
            },
            Expr::Logical { left, right, .. } => {
                self.resolve_expr(left);
                self.resolve_expr(right);
            },
            Expr::Call { callee, arguments, .. } => {
                self.resolve_expr(callee);
                let ghost after_callee = self.state();
                let mut i: usize = 0;
                while i < arguments.len()
                    invariant
                        i <= arguments@.len(),
                        self.keeps(*old(self)),
                        *final(self.interpreter) == *final(old(self).interpreter),
                        self.state() == args_s(arguments@.take(i as int), after_callee),
                        forall|j: int| 0 <= j < arguments@.len() ==> decreases_to!(expression => #[trigger] arguments@[j]),
                    decreases arguments@.len() - i,
                {
                    self.resolve_expr(&arguments[i]);
                    proof {
                        assert(arguments@.take(i + 1).drop_last() =~= arguments@.take(i as int));
                    }
                    i = i + 1;
                }
                proof {
                    assert(arguments@.take(i as int) =~= arguments@);
                }
            },
            Expr::Get { object, .. } => self.resolve_expr(object),
            Expr::SetProperty { object, value, .. } => {
                self.resolve_expr(value);
                self.resolve_expr(object);
            },
            Expr::This { id, keyword } => {
                if self.current_class == ClassType::Outside {
                    self.error(keyword, "Can't use 'this' outside of a class.");
                } else {
                    self.resolve_local(*id, keyword, true);
                }
            },
            Expr::Super { id, keyword, .. } => {
                if self.current_class == ClassType::Outside {
                    self.error(keyword, "Can't use 'super' outside of a class.");
                } else if self.current_class != ClassType::Subclass {
                    self.error(keyword, "Can't use 'super' in a class with no superclass.");
                } else {
                    self.resolve_local(*id, keyword, true);
                }
            },
            Expr::Function { params, body } => {
                self.resolve_function(params, body, FunctionType::Function);
            },
        }
    }

    fn resolve_function(&mut self, params: &Vec<Token>, body: &Vec<Stmt>, function_type: FunctionType)
        requires
            old(self).interpreter_wf(),
        ensures
            final(self).keeps(*old(self)),
            *final(final(self).interp()) == *final(old(self).interp()),
            final(self).state() == function_s(params@, body@, function_type, old(self).state()),
        decreases body, 1int,
    {
        let enclosing_function = self.current_function;
        self.current_function = function_type;
        self.begin_scope();
        let ghost opened = self.state();
        let mut i: usize = 0;
        while i < params.len()
            invariant
                i <= params@.len(),
                self.interp_ok(*old(self)),
                self.scopes@.len() == old(self).scopes@.len() + 1,
                self.current_function == function_type,
                self.current_class == old(self).current_class,
                *final(self.interpreter) == *final(old(self).interpreter),
                self.state() == params_s(params@.take(i as int), opened),
            decreases params@.len() - i,
        {
            self.declare(&params[i]);
            self.define(&params[i]);
            proof {
                assert(params@.take(i + 1).drop_last() =~= params@.take(i as int));
            }
            i = i + 1;
        }
        proof {
            assert(params@.take(i as int) =~= params@);
        }
        self.resolve_list(body);
        self.end_scope();
        self.current_function = enclosing_function;
    }

    /// Whether `name` is declared but not yet defined in the innermost scope.
    fn declared_not_defined(&self, name: &Token) -> (r: bool)
        ensures
            r == declared_not_defined_s(self.state(), name.lexeme@),
    {
        if self.scopes.len() == 0 {
            return false;
        }
        let last = self.scopes.len() - 1;
        proof {
            assert(self.state().scopes.last() == scope_view(self.scopes@[last as int]@));
        }
        match find_local(&self.scopes[last], &name.lexeme) {
            Some(j) => {
                proof {
                    assert(self.state().scopes.last()[j as int] == self.scopes@[last as int]@[j as int].view_local());
                }
                !self.scopes[last][j].defined
            },
            None => false,
        }
    }

    /// Records where `name` lives for expression `id`: the innermost scope
    /// that declares it, counted outwards, and its slot there. A name that no
    /// scope declares is left to the global scope.
    fn resolve_local(&mut self, id: ExprId, name: &Token, mark_used: bool)
        requires
            old(self).interpreter_wf(),
        ensures
            final(self).keeps(*old(self)),
            *final(final(self).interp()) == *final(old(self).interp()),
            final(self).state() == resolve_local_s(old(self).state(), id, name.lexeme@, mark_used),
    {
        let n = self.scopes.len();
        let mut distance: usize = 0;
        while distance < n
            invariant
                self.keeps(*old(self)),
                *final(self.interpreter) == *final(old(self).interpreter),
                n == self.scopes@.len(),
                self.state() == old(self).state(),
                resolve_from(old(self).state(), id, name.lexeme@, mark_used, distance as nat) == resolve_local_s(
                    old(self).state(),
                    id,
                    name.lexeme@,
                    mark_used,
                ),
            decreases n - distance,
        {
            let index = n - 1 - distance;
            proof {
                assert(self.state().scopes[index as int] == scope_view(self.scopes@[index as int]@));
            }
            match find_local(&self.scopes[index], &name.lexeme) {
                Some(slot) => {
                    if mark_used {
                        let mut scope: Vec<Local> = Vec::new();
                        std::mem::swap(&mut scope, &mut self.scopes[index]);
                        let updated = Local {
                            name: scope[slot].name.clone(),
                            token: match &scope[slot].token {
                                Some(t) => Some(t.clone()),
                                None => None,
                            },
                            defined: scope[slot].defined,
                            used: true,
                        };
                        let ghost old_scope = scope@;
                        scope.set(slot, updated);
                        proof {
                            assert(scope_view(scope@) =~= scope_view(old_scope).update(
                                slot as int,
                                LocalView { used: true, ..scope_view(old_scope)[slot as int] },
                            ));
                        }
                        std::mem::swap(&mut scope, &mut self.scopes[index]);
                        proof {
                            assert(self.state().scopes =~= old(self).state().scopes.update(
                                index as int,
                                old(self).state().scopes[index as int].update(
                                    slot as int,
                                    LocalView { used: true, ..old(self).state().scopes[index as int][slot as int] },
                                ),
                            ));
                        }
                    }
                    let ghost marked = self.state();
                    self.interpreter.resolve(id, distance, slot);
                    proof {
                        let st0 = old(self).state();
                        assert(slot_of(st0.scopes[index as int], name.lexeme@) == Some(slot as nat));
                        assert(self.state().scopes == marked.scopes);
                        assert(self.state().errors == marked.errors);
                        if mark_used {
                            assert(marked.scopes == st0.scopes.update(
                                index as int,
                                st0.scopes[index as int].update(
                                    slot as int,
                                    LocalView { used: true, ..st0.scopes[index as int][slot as int] },
                                ),
                            ));
                        } else {
                            assert(marked.scopes == st0.scopes);
                        }
                        assert(self.state() == resolve_from(st0, id, name.lexeme@, mark_used, distance as nat));
                    }
                    return;
                },
                None => {},
            }
            distance = distance + 1;
        }
    }

    /// Adds `name` to the innermost scope, undefined and unused, in the next slot.
    fn declare(&mut self, name: &Token)
        requires
            old(self).interpreter_wf(),
        ensures
            final(self).keeps(*old(self)),
            *final(final(self).interp()) == *final(old(self).interp()),
            final(self).state() == declare_s(old(self).state(), *name),
    {
        if self.scopes.len() == 0 {
            return;
        }
        let last = self.scopes.len() - 1;
        proof {
            assert(self.state().scopes.last() == scope_view(self.scopes@[last as int]@));
        }
        if find_local(&self.scopes[last], &name.lexeme).is_some() {
            self.error(name, "Already a variable with this name in this scope.");
            return;
        }
        let mut scope: Vec<Local> = Vec::new();
        std::mem::swap(&mut scope, &mut self.scopes[last]);
        let ghost old_scope = scope@;
        scope.push(Local { name: name.lexeme.clone(), token: Some(name.clone()), defined: false, used: false });
        proof {
            assert(scope_view(scope@) =~= scope_view(old_scope).push(
                LocalView { name: name.lexeme@, token: Some(*name), defined: false, used: false },
            ));
        }
        std::mem::swap(&mut scope, &mut self.scopes[last]);
        proof {
            assert(self.state().scopes =~= old(self).state().scopes.update(
                last as int,
                old(self).state().scopes.last().push(
                    LocalView { name: name.lexeme@, token: Some(*name), defined: false, used: false },
                ),
            ));
        }
    }

    /// Adds a variable the language itself binds (`this`, `super`): defined
    /// and counted as used.
    fn declare_implicit(&mut self, name: &str)
        requires
            old(self).interpreter_wf(),
        ensures
            final(self).keeps(*old(self)),
            *final(final(self).interp()) == *final(old(self).interp()),
            final(self).state() == declare_implicit_s(old(self).state(), name@),
    {
        if self.scopes.len() == 0 {
            return;
        }
        let last = self.scopes.len() - 1;
        let mut scope: Vec<Local> = Vec::new();
        std::mem::swap(&mut scope, &mut self.scopes[last]);
        let ghost old_scope = scope@;
        scope.push(Local { name: owned(name), token: None, defined: true, used: true });
        proof {
            assert(scope_view(scope@) =~= scope_view(old_scope).push(
                LocalView { name: name@, token: None, defined: true, used: true },
            ));
        }
        std::mem::swap(&mut scope, &mut self.scopes[last]);
        proof {
            assert(self.state().scopes =~= old(self).state().scopes.update(
                last as int,
                old(self).state().scopes.last().push(LocalView { name: name@, token: None, defined: true, used: true }),
            ));
        }
    }

    /// Marks `name` defined in the innermost scope.
    fn define(&mut self, name: &Token)
        requires
            old(self).interpreter_wf(),
        ensures
            final(self).keeps(*old(self)),
            *final(final(self).interp()) == *final(old(self).interp()),
            final(self).state() == define_s(old(self).state(), name.lexeme@),
    {
        if self.scopes.len() == 0 {
            return;
        }
        let last = self.scopes.len() - 1;
        proof {
            assert(self.state().scopes.last() == scope_view(self.scopes@[last as int]@));
        }
        match find_local(&self.scopes[last], &name.lexeme) {
            Some(j) => {
                let mut scope: Vec<Local> = Vec::new();
                std::mem::swap(&mut scope, &mut self.scopes[last]);
                let updated = Local {
                    name: scope[j].name.clone(),
                    token: match &scope[j].token {
                        Some(t) => Some(t.clone()),
                        None => None,
                    },
                    defined: true,
                    used: scope[j].used,
                };
                let ghost old_scope = scope@;
                scope.set(j, updated);
                proof {
                    assert(scope_view(scope@) =~= scope_view(old_scope).update(
                        j as int,
                        LocalView { defined: true, ..scope_view(old_scope)[j as int] },
                    ));
                }
                std::mem::swap(&mut scope, &mut self.scopes[last]);
                proof {
                    assert(self.state().scopes =~= old(self).state().scopes.update(
                        last as int,
                        old(self).state().scopes.last().update(
                            j as int,
                            LocalView { defined: true, ..old(self).state().scopes.last()[j as int] },
                        ),
                    ));
                }
            },
            None => {},
        }
    }

    fn error(&mut self, token: &Token, message: &str)
        requires
            old(self).interpreter_wf(),
        ensures
            final(self).keeps(*old(self)),
            *final(final(self).interp()) == *final(old(self).interp()),
            final(self).state() == with_error(old(self).state(), *token, message@),
            final(self).errors@.len() == old(self).errors@.len() + 1,
    {
        self.errors.push(ResolutionError { token: token.clone(), message: owned(message) });
        proof {
            assert(self.state().errors =~= old(self).state().errors.push((*token, message@)));
        }
    }

    /// Hands over the errors reported so far, leaving none.
    pub fn take_errors(&mut self) -> (errors: Vec<ResolutionError>)
        requires
            old(self).interpreter_wf(),
        ensures
            final(self).interpreter_wf(),
            *final(final(self).interp()) == *final(old(self).interp()),
            (*final(self).interp()).unchanged_but_resolutions(*old(self).interp()),
            errors@.map_values(|e: ResolutionError| (e.token, e.message@)) == old(self).state().errors,
            errors@.len() == old(self).error_count(),
            final(self).error_count() == 0,
            final(self).state() == (ResolverState { errors: Seq::empty(), ..old(self).state() }),
    {
        let mut errors = Vec::new();
        std::mem::swap(&mut errors, &mut self.errors);
        proof {
            assert(self.state().errors =~= Seq::<(Token, Seq<char>)>::empty());
        }
        errors
    }

    /// The errors reported; the resolver is done with its interpreter.
    pub fn into_errors(self) -> (errors: Vec<ResolutionError>)
        requires
            self.interpreter_wf(),
        ensures
            (*final(self.interp())).wf(),
            *final(self.interp()) == *self.interp(),
            errors@.map_values(|e: ResolutionError| (e.token, e.message@)) == self.state().errors,
            errors@.len() == self.error_count(),
            (*self.interp()).resolutions() == self.state().resolutions,
    {
        self.errors
    }

    fn begin_scope(&mut self)
        requires
            old(self).interpreter_wf(),
        ensures
            final(self).interp_ok(*old(self)),
            *final(final(self).interp()) == *final(old(self).interp()),
            final(self).state() == begin_scope_s(old(self).state()),
            final(self).scopes@.len() == old(self).scopes@.len() + 1,
            final(self).current_function == old(self).current_function,
            final(self).current_class == old(self).current_class,
    {
        let fresh: Vec<Local> = Vec::new();
        proof {
            assert(scope_view(fresh@) =~= Seq::<LocalView>::empty());
        }
        self.scopes.push(fresh);
        proof {
            assert(self.state().scopes =~= old(self).state().scopes.push(Seq::empty()));
        }
    }

    /// Closes the innermost scope, reporting each of its variables that was never read.
    fn end_scope(&mut self)
        requires
            old(self).interpreter_wf(),
            old(self).scopes@.len() > 0,
        ensures
            final(self).interp_ok(*old(self)),
            *final(final(self).interp()) == *final(old(self).interp()),
            final(self).state() == end_scope_s(old(self).state()),
            final(self).scopes@.len() == old(self).scopes@.len() - 1,
            final(self).current_function == old(self).current_function,
            final(self).current_class == old(self).current_class,
    {
        let scope = self.scopes.pop().unwrap();
        proof {
            assert(self.state().scopes =~= old(self).state().scopes.drop_last());
            assert(scope_view(scope@) == old(self).state().scopes.last());
        }
        let ghost base = self.state().errors;
        let mut i: usize = 0;
        while i < scope.len()
            invariant
                i <= scope@.len(),
                self.interp_ok(*old(self)),
                self.scopes@.len() == old(self).scopes@.len() - 1,
                self.current_function == old(self).current_function,
                self.current_class == old(self).current_class,
                *final(self.interpreter) == *final(old(self).interpreter),
                self.state() == (ResolverState {
                    errors: base + unused_errors(scope_view(scope@).take(i as int)),
                    ..end_scope_s(old(self).state())
                }),
                base == old(self).state().errors,
                scope_view(scope@) == old(self).state().scopes.last(),
            decreases scope@.len() - i,
        {
            let ghost before = self.state().errors;
            if !scope[i].used {
                match &scope[i].token {
                    Some(token) => {
                        let mut message = owned("Local variable '");
                        append_str(&mut message, scope[i].name.as_str());
                        append_str(&mut message, "' is never used.");
                        self.errors.push(ResolutionError { token: token.clone(), message });
                        proof {
                            assert(self.state().errors =~= before.push((*token, message@)));
                        }
                    },
                    None => {},
                }
            }
            proof {
                let sv = scope_view(scope@);
                assert(sv.take(i + 1).drop_last() =~= sv.take(i as int));
                assert(sv.take(i + 1).last() == scope@[i as int].view_local());
                let l = scope@[i as int].view_local();
                let term = match l.token {
                    Some(t) => if !l.used { seq![(t, unused_message(l.name))] } else { Seq::empty() },
                    None => Seq::empty(),
                };
                assert(unused_errors(sv.take(i + 1)) == unused_errors(sv.take(i as int)) + term);
                assert(self.state().errors =~= before + term);
                assert(self.state().errors =~= base + unused_errors(sv.take(i + 1)));
            }
            i = i + 1;
        }
        proof {
            assert(scope_view(scope@).take(i as int) =~= scope_view(scope@));
        }
    }
}

/// The slot of the local called `name` in a scope, if it has one.
fn find_local(scope: &Vec<Local>, name: &String) -> (r: Option<usize>)
    ensures
        slot_of(scope_view(scope@), name@) == match r {
            Some(k) => Some(k as nat),
            None => None::<nat>,
        },
        r matches Some(j) ==> j < scope@.len() && scope@[j as int].name@ == name@,
{
    let ghost sv = scope_view(scope@);
    proof {
        lemma_slot_of(sv, name@);
    }
    let mut j: usize = 0;
    while j < scope.len()
        invariant
            j <= scope@.len(),
            sv == scope_view(scope@),
            sv.len() == scope@.len(),
            forall|k: int| 0 <= k < j ==> (#[trigger] sv[k]).name != name@,
            match slot_of(sv, name@) {
                Some(m) => m < sv.len() && sv[m as int].name == name@ && forall|k: int| 0 <= k < m ==> sv[k].name != name@,
                None => forall|k: int| 0 <= k < sv.len() ==> sv[k].name != name@,
            },
        decreases scope@.len() - j,
    {
        assert(sv[j as int] == scope@[j as int].view_local());
        if scope[j].name == *name {
            return Some(j);
        }
        j = j + 1;
    }
    None
}

/// `slot_of` finds the first local with the name.
proof fn lemma_slot_of(s: Seq<LocalView>, name: Seq<char>)
    ensures
        match slot_of(s, name) {
            Some(j) => j < s.len() && s[j as int].name == name && forall|k: int| 0 <= k < j ==> s[k].name != name,
            None => forall|k: int| 0 <= k < s.len() ==> s[k].name != name,
        },
    decreases s.len(),
{
    if s.len() > 0 {
        lemma_slot_of(s.drop_last(), name);
        assert forall|k: int| 0 <= k < s.len() - 1 implies s[k] == s.drop_last()[k] by {}
    }
}

// ----------------------------------------------------------------------
// Where the variable references of a statement are placed.

/// A variable reference inside a statement: the expression's id, the name it
/// reads or assigns, and how many blocks inside the statement enclose it.
pub struct VarRef {
    pub id: ExprId,
    pub name: Seq<char>,
    pub blocks: nat,
}

/// The variable reads and assignments of an expression, in the order they
/// are resolved (function expressions are not looked into).
pub open spec fn expr_refs(e: Expr) -> Seq<VarRef>
    decreases e, 0int,
{
    match e {
        Expr::Binary { left, right, .. } => expr_refs(*left) + expr_refs(*right),
        Expr::Grouping { expression } => expr_refs(*expression),
        Expr::Literal { .. } => Seq::empty(),
        Expr::Unary { right, .. } => expr_refs(*right),
        Expr::Variable { id, name } => seq![VarRef { id, name: name.lexeme@, blocks: 0 }],
        Expr::Assign { id, name, value } => expr_refs(*value) + seq![VarRef { id, name: name.lexeme@, blocks: 0 }],
        Expr::Logical { left, right, .. } => expr_refs(*left) + expr_refs(*right),
        Expr::Call { callee, arguments, .. } => expr_refs(*callee) + args_refs(arguments@),
        Expr::Get { object, .. } => expr_refs(*object),
        Expr::SetProperty { object, value, .. } => expr_refs(*value) + expr_refs(*object),
        Expr::This { .. } => Seq::empty(),
        Expr::Super { .. } => Seq::empty(),
        Expr::Function { .. } => Seq::empty(),
    }
}

/// The variable references of call arguments, left to right.
pub open spec fn args_refs(args: Seq<Expr>) -> Seq<VarRef>
    decreases args, 0int,
{
    if args.len() == 0 {
        Seq::empty()
    } else {
        args_refs(args.drop_last()) + expr_refs(args.last())
    }
}

/// An expression made of variables, literals and operators, calls and
/// properties: no `this`, `super` or function expression.
pub open spec fn plain_expr(e: Expr) -> bool
    decreases e, 0int,
{
    match e {
        Expr::Binary { left, right, .. } => plain_expr(*left) && plain_expr(*right),
        Expr::Grouping { expression } => plain_expr(*expression),
        Expr::Literal { .. } => true,
        Expr::Unary { right, .. } => plain_expr(*right),
        Expr::Variable { .. } => true,
        Expr::Assign { value, .. } => plain_expr(*value),
        Expr::Logical { left, right, .. } => plain_expr(*left) && plain_expr(*right),
        Expr::Call { callee, arguments, .. } => plain_expr(*callee) && plain_args(arguments@),
        Expr::Get { object, .. } => plain_expr(*object),
        Expr::SetProperty { object, value, .. } => plain_expr(*object) && plain_expr(*value),
        Expr::This { .. } => false,
        Expr::Super { .. } => false,
        Expr::Function { .. } => false,
    }
}

pub open spec fn plain_args(args: Seq<Expr>) -> bool
    decreases args, 0int,
{
    args.len() == 0 || (plain_args(args.drop_last()) && plain_expr(args.last()))
}

/// The references of `refs`, each inside one more block.
pub open spec fn deeper(refs: Seq<VarRef>) -> Seq<VarRef> {
    refs.map_values(|r: VarRef| VarRef { blocks: r.blocks + 1, ..r })
}

/// The variable references of a statement: those of its expressions, and of
/// the statements inside its `if`, `else`, loop and block bodies.
pub open spec fn stmt_refs(s: Stmt) -> Seq<VarRef>
    decreases s, 0int,
{
    match s {
        Stmt::Expression { expression } => expr_refs(expression),
        Stmt::Print { expression } => expr_refs(expression),
        Stmt::If { condition, then_branch, else_branch } => expr_refs(condition) + stmt_refs(*then_branch) + match else_branch {
            Some(e) => stmt_refs(*e),
            None => Seq::empty(),
        },
        Stmt::While { condition, body } => expr_refs(condition) + stmt_refs(*body),
        Stmt::Block { statements } => deeper(list_refs(statements@)),
        Stmt::Return { value, .. } => match value {
            Some(e) => expr_refs(e),
            None => Seq::empty(),
        },
        _ => Seq::empty(),
    }
}

pub open spec fn list_refs(statements: Seq<Stmt>) -> Seq<VarRef>
    decreases statements, 0int,
{
    if statements.len() == 0 {
        Seq::empty()
    } else {
        list_refs(statements.drop_last()) + stmt_refs(statements.last())
    }
}

/// A statement that declares nothing: expression, `print`, `if`, `while`,
/// `return` and `break` statements and blocks of them, over plain
/// expressions.
pub open spec fn plain_stmt(s: Stmt) -> bool
    decreases s, 0int,
{
    match s {
        Stmt::Expression { expression } => plain_expr(expression),
        Stmt::Print { expression } => plain_expr(expression),
        Stmt::If { condition, then_branch, else_branch } => plain_expr(condition) && plain_stmt(*then_branch)
            && match else_branch {
            Some(e) => plain_stmt(*e),
            None => true,
        },
        Stmt::While { condition, body } => plain_expr(condition) && plain_stmt(*body),
        Stmt::Block { statements } => plain_list(statements@),
        Stmt::Return { value, .. } => match value {
            Some(e) => plain_expr(e),
            None => true,
        },
        Stmt::Break => true,
        _ => false,
    }
}

pub open spec fn plain_list(statements: Seq<Stmt>) -> bool
    decreases statements, 0int,
{
    statements.len() == 0 || (plain_list(statements.drop_last()) && plain_stmt(statements.last()))
}

/// No two references share an expression id.
pub open spec fn distinct_ids(refs: Seq<VarRef>) -> bool {
    forall|a: int, b: int| 0 <= a < b < refs.len() ==> #[trigger] refs[a].id != #[trigger] refs[b].id
}

/// Some reference of `refs` has expression id `id`.
pub open spec fn has_id(refs: Seq<VarRef>, id: ExprId) -> bool {
    exists|j: int| 0 <= j < refs.len() && #[trigger] refs[j].id == id
}

/// Two stacks of scopes with the same locals, by name, in the same slots.
pub open spec fn same_names(a: Seq<Seq<LocalView>>, b: Seq<Seq<LocalView>>) -> bool {
    &&& a.len() == b.len()
    &&& forall|i: int| 0 <= i < a.len() ==> (#[trigger] a[i]).len() == b[i].len()
    &&& forall|i: int, k: int| 0 <= i < a.len() && 0 <= k < a[i].len() ==> (#[trigger] a[i][k]).name == b[i][k].name
}

/// Some open scope declares `name`.
pub open spec fn declared_in(scopes: Seq<Seq<LocalView>>, name: Seq<char>) -> bool {
    exists|e: int| 0 <= e < scopes.len() && slot_of(#[trigger] scopes[e], name) is Some
}

/// Expression `id` has the same resolution (or none) in `after` as in `before`.
pub open spec fn kept_at(before: Map<ExprId, LocalResolution>, after: Map<ExprId, LocalResolution>, id: ExprId) -> bool {
    &&& after.contains_key(id) == before.contains_key(id)
    &&& before.contains_key(id) ==> after[id] == before[id]
}

/// Reference `r`, resolved while `scopes` were open (and the blocks around it
/// inside them), is placed at the nearest of those scopes that declares its
/// name, at that declaration's slot, the distance counting the blocks too; a
/// name no open scope declares gets no new placement.
pub open spec fn resolved_as_declared(
    scopes: Seq<Seq<LocalView>>,
    before: Map<ExprId, LocalResolution>,
    after: Map<ExprId, LocalResolution>,
    r: VarRef,
) -> bool {
    let n = scopes.len();
    if declared_in(scopes, r.name) {
        exists|i: nat, k: nat|
            #[trigger] nearest_declaration(scopes, r.name, n as int, i, k) && after.contains_key(r.id) && after[r.id]
                == (LocalResolution { distance: (n - 1 - i + r.blocks) as usize, slot: k as usize })
    } else {
        kept_at(before, after, r.id)
    }
}

/// Resolving from `st` to `after` placed every reference of `refs` as
/// `resolved_as_declared` says, changed no other placement, and left the
/// open scopes with the same locals.
pub open spec fn refs_resolved(refs: Seq<VarRef>, st: ResolverState, after: ResolverState) -> bool {
    &&& same_names(after.scopes, st.scopes)
    &&& forall|id: ExprId| !has_id(refs, id) ==> #[trigger] kept_at(st.resolutions, after.resolutions, id)
    &&& forall|j: int|
        0 <= j < refs.len() ==> #[trigger] resolved_as_declared(st.scopes, st.resolutions, after.resolutions, refs[j])
}

proof fn lemma_slot_of_names(a: Seq<LocalView>, b: Seq<LocalView>, name: Seq<char>)
    requires
        a.len() == b.len(),
        forall|k: int| 0 <= k < a.len() ==> (#[trigger] a[k]).name == b[k].name,
    ensures
        slot_of(a, name) == slot_of(b, name),
    decreases a.len(),
{
    if a.len() > 0 {
        lemma_slot_of_names(a.drop_last(), b.drop_last(), name);
    }
}

/// Stacks with the same names declare the same names at the same places.
proof fn lemma_same_names_slots(a: Seq<Seq<LocalView>>, b: Seq<Seq<LocalView>>, name: Seq<char>)
    requires
        same_names(a, b),
    ensures
        forall|e: int| 0 <= e < a.len() ==> slot_of(#[trigger] a[e], name) == slot_of(b[e], name),
        declared_in(a, name) == declared_in(b, name),
        forall|top: int, i: nat, k: nat|
            #[trigger] nearest_declaration(a, name, top, i, k) == nearest_declaration(b, name, top, i, k),
{
    assert forall|e: int| 0 <= e < a.len() implies slot_of(#[trigger] a[e], name) == slot_of(b[e], name) by {
        assert forall|k: int| 0 <= k < a[e].len() implies (#[trigger] a[e][k]).name == b[e][k].name by {}
        lemma_slot_of_names(a[e], b[e], name);
    }
    if declared_in(a, name) {
        let e = choose|e: int| 0 <= e < a.len() && slot_of(#[trigger] a[e], name) is Some;
        assert(slot_of(b[e], name) is Some);
    }
    if declared_in(b, name) {
        let e = choose|e: int| 0 <= e < b.len() && slot_of(#[trigger] b[e], name) is Some;
        assert(slot_of(a[e], name) is Some);
    }
    assert forall|top: int, i: nat, k: nat|
        #[trigger] nearest_declaration(a, name, top, i, k) == nearest_declaration(b, name, top, i, k) by {
        if i < top <= a.len() {
            assert(slot_of(a[i as int], name) == slot_of(b[i as int], name));
            assert(a[i as int].len() == b[i as int].len());
            if k < a[i as int].len() {
                assert(a[i as int][k as int].name == b[i as int][k as int].name);
            }
            if nearest_declaration(a, name, top, i, k) {
                assert forall|e: int| i < e < top implies slot_of(#[trigger] b[e], name) is None by {
                    assert(slot_of(a[e], name) == slot_of(b[e], name));
                }
            }
            if nearest_declaration(b, name, top, i, k) {
                assert forall|e: int| i < e < top implies slot_of(#[trigger] a[e], name) is None by {
                    assert(slot_of(a[e], name) == slot_of(b[e], name));
                }
            }
        }
    }
}

proof fn lemma_same_names_trans(a: Seq<Seq<LocalView>>, b: Seq<Seq<LocalView>>, c: Seq<Seq<LocalView>>)
    requires
        same_names(a, b),
        same_names(b, c),
    ensures
        same_names(a, c),
{
    assert forall|i: int, k: int| 0 <= i < a.len() && 0 <= k < a[i].len() implies (#[trigger] a[i][k]).name == c[i][k].name by {
        assert(a[i][k].name == b[i][k].name);
    }
}

/// Placing one variable marks at most a local read: the names stay.
proof fn lemma_resolve_from_names(st: ResolverState, id: ExprId, name: Seq<char>, mark_used: bool, distance: nat)
    ensures
        same_names(resolve_from(st, id, name, mark_used, distance).scopes, st.scopes),
    decreases st.scopes.len() - distance,
{
    if distance < st.scopes.len() {
        let index = st.scopes.len() - 1 - distance;
        match slot_of(st.scopes[index], name) {
            Some(slot) => {
                lemma_slot_of(st.scopes[index], name);
                let after = resolve_from(st, id, name, mark_used, distance);
                assert forall|i: int, k: int| 0 <= i < after.scopes.len() && 0 <= k < after.scopes[i].len() implies (#[trigger] after.scopes[i][k]).name
                    == st.scopes[i][k].name by {
                    if mark_used && i == index && k == slot {
                    }
                }
            },
            None => {
                lemma_resolve_from_names(st, id, name, mark_used, distance + 1);
            },
        }
    }
}

/// One variable reference is placed as `resolved_as_declared` says.
proof fn lemma_one_ref(st: ResolverState, id: ExprId, name: Seq<char>, mark_used: bool)
    ensures
        refs_resolved(seq![VarRef { id, name, blocks: 0 }], st, resolve_local_s(st, id, name, mark_used)),
{
    let r = VarRef { id, name, blocks: 0 };
    let refs = seq![r];
    let after = resolve_local_s(st, id, name, mark_used);
    law_resolves_to_innermost_declaration(st, id, name, mark_used);
    lemma_resolve_from_names(st, id, name, mark_used, 0);
    let n = st.scopes.len();
    assert forall|other: ExprId| !has_id(refs, other) implies #[trigger] kept_at(st.resolutions, after.resolutions, other) by {
        assert(refs[0].id == id);
        assert(other != id);
    }
    assert(resolved_as_declared(st.scopes, st.resolutions, after.resolutions, refs[0]));
}

/// Nothing placed, no names changed: no references resolved.
proof fn lemma_no_refs(st: ResolverState, after: ResolverState)
    requires
        same_names(after.scopes, st.scopes),
        after.resolutions == st.resolutions,
    ensures
        refs_resolved(Seq::empty(), st, after),
{
}

proof fn lemma_same_names_refl(a: Seq<Seq<LocalView>>)
    ensures
        same_names(a, a),
{
}

proof fn lemma_distinct_split(a: Seq<VarRef>, b: Seq<VarRef>)
    requires
        distinct_ids(a + b),
    ensures
        distinct_ids(a),
        distinct_ids(b),
        forall|x: int, y: int| 0 <= x < a.len() && 0 <= y < b.len() ==> #[trigger] a[x].id != #[trigger] b[y].id,
{
    let c = a + b;
    assert forall|x: int, y: int| 0 <= x < y < a.len() implies #[trigger] a[x].id != #[trigger] a[y].id by {
        assert(c[x] == a[x] && c[y] == a[y]);
    }
    assert forall|x: int, y: int| 0 <= x < y < b.len() implies #[trigger] b[x].id != #[trigger] b[y].id by {
        assert(c[a.len() + x] == b[x] && c[a.len() + y] == b[y]);
    }
    assert forall|x: int, y: int| 0 <= x < a.len() && 0 <= y < b.len() implies #[trigger] a[x].id != #[trigger] b[y].id by {
        assert(c[x] == a[x] && c[a.len() + y] == b[y]);
    }
}

/// Resolving one part and then the next places the references of both.
proof fn lemma_compose(r1: Seq<VarRef>, r2: Seq<VarRef>, s0: ResolverState, s1: ResolverState, s2: ResolverState)
    requires
        refs_resolved(r1, s0, s1),
        refs_resolved(r2, s1, s2),
        distinct_ids(r1 + r2),
    ensures
        refs_resolved(r1 + r2, s0, s2),
{
    let refs = r1 + r2;
    lemma_distinct_split(r1, r2);
    lemma_same_names_trans(s2.scopes, s1.scopes, s0.scopes);
    assert forall|id: ExprId| !has_id(refs, id) implies #[trigger] kept_at(s0.resolutions, s2.resolutions, id) by {
        if has_id(r1, id) {
            let j = choose|j: int| 0 <= j < r1.len() && #[trigger] r1[j].id == id;
            assert(refs[j] == r1[j]);
        }
        if has_id(r2, id) {
            let j = choose|j: int| 0 <= j < r2.len() && #[trigger] r2[j].id == id;
            assert(refs[r1.len() + j] == r2[j]);
        }
        assert(kept_at(s0.resolutions, s1.resolutions, id));
        assert(kept_at(s1.resolutions, s2.resolutions, id));
    }
    assert forall|j: int| 0 <= j < refs.len() implies #[trigger] resolved_as_declared(
        s0.scopes,
        s0.resolutions,
        s2.resolutions,
        refs[j],
    ) by {
        let r = refs[j];
        if j < r1.len() {
            assert(r == r1[j]);
            assert(resolved_as_declared(s0.scopes, s0.resolutions, s1.resolutions, r1[j]));
            assert(!has_id(r2, r.id)) by {
                if has_id(r2, r.id) {
                    let y = choose|y: int| 0 <= y < r2.len() && #[trigger] r2[y].id == r.id;
                    assert(r1[j].id != r2[y].id);
                }
            }
            assert(kept_at(s1.resolutions, s2.resolutions, r.id));
        } else {
            let y = j - r1.len();
            assert(r == r2[y]);
            assert(resolved_as_declared(s1.scopes, s1.resolutions, s2.resolutions, r2[y]));
            lemma_same_names_slots(s1.scopes, s0.scopes, r.name);
            assert(!has_id(r1, r.id)) by {
                if has_id(r1, r.id) {
                    let x = choose|x: int| 0 <= x < r1.len() && #[trigger] r1[x].id == r.id;
                    assert(r1[x].id != r2[y].id);
                }
            }
            assert(kept_at(s0.resolutions, s1.resolutions, r.id));
            let n = s0.scopes.len();
            if declared_in(s0.scopes, r.name) {
                let (i, k) = choose|i: nat, k: nat|
                    #[trigger] nearest_declaration(s1.scopes, r.name, n as int, i, k) && s2.resolutions.contains_key(r.id)
                        && s2.resolutions[r.id] == (LocalResolution { distance: (n - 1 - i + r.blocks) as usize, slot: k as usize });
                assert(nearest_declaration(s0.scopes, r.name, n as int, i, k));
            }
        }
    }
}

/// The references of a block's statements, resolved inside the block's own
/// (empty) scope, are placed one block further out.
proof fn lemma_block_refs(refs: Seq<VarRef>, st: ResolverState, s1: ResolverState)
    requires
        refs_resolved(refs, begin_scope_s(st), s1),
    ensures
        refs_resolved(deeper(refs), st, end_scope_s(s1)),
{
    let inner = begin_scope_s(st);
    let after = end_scope_s(s1);
    let d = deeper(refs);
    let n = st.scopes.len();
    assert(inner.scopes.last() == Seq::<LocalView>::empty());
    assert(s1.scopes.len() == n + 1);
    assert forall|i: int, k: int| 0 <= i < after.scopes.len() && 0 <= k < after.scopes[i].len() implies (#[trigger] after.scopes[i][k]).name
        == st.scopes[i][k].name by {
        assert(after.scopes[i] == s1.scopes[i]);
        assert(inner.scopes[i] == st.scopes[i]);
    }
    assert forall|i: int| 0 <= i < after.scopes.len() implies (#[trigger] after.scopes[i]).len() == st.scopes[i].len() by {
        assert(after.scopes[i] == s1.scopes[i]);
        assert(inner.scopes[i] == st.scopes[i]);
    }
    assert forall|id: ExprId| !has_id(d, id) implies #[trigger] kept_at(st.resolutions, after.resolutions, id) by {
        if has_id(refs, id) {
            let j = choose|j: int| 0 <= j < refs.len() && #[trigger] refs[j].id == id;
            assert(d[j].id == id);
        }
        assert(kept_at(inner.resolutions, s1.resolutions, id));
    }
    assert forall|j: int| 0 <= j < d.len() implies #[trigger] resolved_as_declared(
        st.scopes,
        st.resolutions,
        after.resolutions,
        d[j],
    ) by {
        let r = refs[j];
        assert(resolved_as_declared(inner.scopes, inner.resolutions, s1.resolutions, r));
        assert(d[j] == VarRef { blocks: r.blocks + 1, ..r });
        assert(slot_of(inner.scopes[n as int], r.name) is None);
        if declared_in(st.scopes, r.name) {
            let e = choose|e: int| 0 <= e < st.scopes.len() && slot_of(#[trigger] st.scopes[e], r.name) is Some;
            assert(inner.scopes[e] == st.scopes[e]);
            assert(declared_in(inner.scopes, r.name));
            let (i, k) = choose|i: nat, k: nat|
                #[trigger] nearest_declaration(inner.scopes, r.name, (n + 1) as int, i, k) && s1.resolutions.contains_key(r.id)
                    && s1.resolutions[r.id] == (LocalResolution { distance: (n + 1 - 1 - i + r.blocks) as usize, slot: k as usize });
            assert(i < n);
            assert(inner.scopes[i as int] == st.scopes[i as int]);
            assert forall|e2: int| i < e2 < n implies slot_of(#[trigger] st.scopes[e2], r.name) is None by {
                assert(inner.scopes[e2] == st.scopes[e2]);
            }
            assert(nearest_declaration(st.scopes, r.name, n as int, i, k));
        } else {
            assert(!declared_in(inner.scopes, r.name)) by {
                if declared_in(inner.scopes, r.name) {
                    let e = choose|e: int| 0 <= e < inner.scopes.len() && slot_of(#[trigger] inner.scopes[e], r.name) is Some;
                    assert(e < n);
                    assert(inner.scopes[e] == st.scopes[e]);
                }
            }
        }
    }
}

/// Resolving a plain expression places each of its variable references at
/// the nearest open scope that declares the name.
proof fn lemma_expr_refs(e: Expr, st: ResolverState)
    requires
        plain_expr(e),
        distinct_ids(expr_refs(e)),
    ensures
        refs_resolved(expr_refs(e), st, expr_s(e, st)),
    decreases e, 0int,
{
    match e {
        Expr::Binary { left, right, .. } => {
            lemma_distinct_split(expr_refs(*left), expr_refs(*right));
            lemma_expr_refs(*left, st);
            lemma_expr_refs(*right, expr_s(*left, st));
            lemma_compose(expr_refs(*left), expr_refs(*right), st, expr_s(*left, st), expr_s(e, st));
        },
        Expr::Logical { left, right, .. } => {
            lemma_distinct_split(expr_refs(*left), expr_refs(*right));
            lemma_expr_refs(*left, st);
            lemma_expr_refs(*right, expr_s(*left, st));
            lemma_compose(expr_refs(*left), expr_refs(*right), st, expr_s(*left, st), expr_s(e, st));
        },
        Expr::Grouping { expression } => {
            lemma_expr_refs(*expression, st);
        },
        Expr::Unary { right, .. } => {
            lemma_expr_refs(*right, st);
        },
        Expr::Get { object, .. } => {
            lemma_expr_refs(*object, st);
        },
        Expr::Literal { .. } => {
            lemma_same_names_refl(st.scopes);
            lemma_no_refs(st, st);
        },
        Expr::Variable { id, name } => {
            let checked = if declared_not_defined_s(st, name.lexeme@) {
                with_error(st, name, "Can't read local variable in its own initializer."@)
            } else {
                st
            };
            lemma_one_ref(checked, id, name.lexeme@, true);
        },
        Expr::Assign { id, name, value } => {
            let one = seq![VarRef { id, name: name.lexeme@, blocks: 0 }];
            lemma_distinct_split(expr_refs(*value), one);
            lemma_expr_refs(*value, st);
            lemma_one_ref(expr_s(*value, st), id, name.lexeme@, false);
            lemma_compose(expr_refs(*value), one, st, expr_s(*value, st), expr_s(e, st));
        },
        Expr::Call { callee, arguments, .. } => {
            lemma_distinct_split(expr_refs(*callee), args_refs(arguments@));
            lemma_expr_refs(*callee, st);
            lemma_args_refs(arguments@, expr_s(*callee, st));
            lemma_compose(expr_refs(*callee), args_refs(arguments@), st, expr_s(*callee, st), expr_s(e, st));
        },
        Expr::SetProperty { object, value, .. } => {
            lemma_distinct_split(expr_refs(*value), expr_refs(*object));
            lemma_expr_refs(*value, st);
            lemma_expr_refs(*object, expr_s(*value, st));
            lemma_compose(expr_refs(*value), expr_refs(*object), st, expr_s(*value, st), expr_s(e, st));
        },
        _ => {},
    }
}

proof fn lemma_args_refs(args: Seq<Expr>, st: ResolverState)
    requires
        plain_args(args),
        distinct_ids(args_refs(args)),
    ensures
        refs_resolved(args_refs(args), st, args_s(args, st)),
    decreases args, 0int,
{
    if args.len() == 0 {
        lemma_same_names_refl(st.scopes);
        lemma_no_refs(st, st);
    } else {
        let front = args.drop_last();
        lemma_distinct_split(args_refs(front), expr_refs(args.last()));
        lemma_args_refs(front, st);
        lemma_expr_refs(args.last(), args_s(front, st));
        lemma_compose(args_refs(front), expr_refs(args.last()), st, args_s(front, st), args_s(args, st));
    }
}

proof fn lemma_stmt_refs(s: Stmt, st: ResolverState)
    requires
        plain_stmt(s),
        distinct_ids(stmt_refs(s)),
    ensures
        refs_resolved(stmt_refs(s), st, stmt_s(s, st)),
    decreases s, 0int,
{
    match s {
        Stmt::Expression { expression } => {
            lemma_expr_refs(expression, st);
        },
        Stmt::Print { expression } => {
            lemma_expr_refs(expression, st);
        },
        Stmt::If { condition, then_branch, else_branch } => {
            let rc = expr_refs(condition);
            let rt = stmt_refs(*then_branch);
            let re = match else_branch {
                Some(b) => stmt_refs(*b),
                None => Seq::<VarRef>::empty(),
            };
            lemma_distinct_split(rc + rt, re);
            lemma_distinct_split(rc, rt);
            let s1 = expr_s(condition, st);
            let s2 = stmt_s(*then_branch, s1);
            lemma_expr_refs(condition, st);
            lemma_stmt_refs(*then_branch, s1);
            lemma_compose(rc, rt, st, s1, s2);
            match else_branch {
                Some(b) => {
                    lemma_stmt_refs(*b, s2);
                },
                None => {
                    lemma_same_names_refl(s2.scopes);
                    lemma_no_refs(s2, s2);
                },
            }
            lemma_compose(rc + rt, re, st, s2, stmt_s(s, st));
        },
        Stmt::While { condition, body } => {
            lemma_distinct_split(expr_refs(condition), stmt_refs(*body));
            lemma_expr_refs(condition, st);
            lemma_stmt_refs(*body, expr_s(condition, st));
            lemma_compose(expr_refs(condition), stmt_refs(*body), st, expr_s(condition, st), stmt_s(s, st));
        },
        Stmt::Block { statements } => {
            let refs = list_refs(statements@);
            assert(distinct_ids(refs)) by {
                let d = deeper(refs);
                assert forall|a: int, b: int| 0 <= a < b < refs.len() implies #[trigger] refs[a].id != #[trigger] refs[b].id by {
                    assert(d[a].id == refs[a].id && d[b].id == refs[b].id);
                }
            }
            lemma_list_refs(statements@, begin_scope_s(st));
            lemma_block_refs(refs, st, list_s(statements@, begin_scope_s(st)));
        },
        Stmt::Return { keyword, value } => {
            let checked = if st.function == FunctionType::TopLevel {
                with_error(st, keyword, "Can't return from top level code."@)
            } else {
                st
            };
            match value {
                Some(e) => {
                    lemma_expr_refs(e, checked);
                },
                None => {
                    lemma_same_names_refl(st.scopes);
                    lemma_no_refs(st, checked);
                },
            }
        },
        Stmt::Break => {
            lemma_same_names_refl(st.scopes);
            lemma_no_refs(st, st);
        },
        _ => {},
    }
}

proof fn lemma_list_refs(statements: Seq<Stmt>, st: ResolverState)
    requires
        plain_list(statements),
        distinct_ids(list_refs(statements)),
    ensures
        refs_resolved(list_refs(statements), st, list_s(statements, st)),
    decreases statements, 0int,
{
    if statements.len() == 0 {
        lemma_same_names_refl(st.scopes);
        lemma_no_refs(st, st);
    } else {
        let front = statements.drop_last();
        lemma_distinct_split(list_refs(front), stmt_refs(statements.last()));
        lemma_list_refs(front, st);
        lemma_stmt_refs(statements.last(), list_s(front, st));
        lemma_compose(list_refs(front), stmt_refs(statements.last()), st, list_s(front, st), list_s(statements, st));
    }
}

/// Every variable read or assignment in a statement that declares nothing,
/// in whichever of its parts it stands (condition, `then` or `else` branch,
/// loop body, nested blocks), is placed at the nearest open scope that
/// declares its name, at the slot of that declaration, with the distance
/// counted from the scope the reference stands in (so each block around it
/// inside the statement adds one); a name that no open scope declares is
/// left to the global scope, its placement unchanged. The locals of the open
/// scopes keep their names and slots, and no other placement changes.
pub proof fn law_statement_references_resolve_to_innermost_declaration(s: Stmt, st: ResolverState)
    requires
        plain_stmt(s),
        distinct_ids(stmt_refs(s)),
    ensures
        forall|j: int|
            0 <= j < stmt_refs(s).len() ==> #[trigger] resolved_as_declared(
                st.scopes,
                st.resolutions,
                stmt_s(s, st).resolutions,
                stmt_refs(s)[j],
            ),
        forall|id: ExprId| !has_id(stmt_refs(s), id) ==> #[trigger] kept_at(st.resolutions, stmt_s(s, st).resolutions, id),
        same_names(stmt_s(s, st).scopes, st.scopes),
{
    lemma_stmt_refs(s, st);
}

/// No two parameters share a name.
pub open spec fn distinct_names(params: Seq<Token>) -> bool {
    forall|a: int, b: int| 0 <= a < b < params.len() ==> #[trigger] params[a].lexeme@ != #[trigger] params[b].lexeme@
}

/// Declaring distinct parameters in a new, empty innermost scope gives it one
/// local per parameter, in order, and changes nothing else that placing
/// variables reads.
proof fn lemma_params_scope(params: Seq<Token>, st: ResolverState)
    requires
        st.scopes.len() > 0,
        st.scopes.last().len() == 0,
        distinct_names(params),
    ensures
        ({
            let after = params_s(params, st);
            &&& after.scopes.len() == st.scopes.len()
            &&& forall|e: int| 0 <= e < st.scopes.len() - 1 ==> #[trigger] after.scopes[e] == st.scopes[e]
            &&& after.scopes.last().len() == params.len()
            &&& forall|k: int| 0 <= k < params.len() ==> (#[trigger] after.scopes.last()[k]).name == params[k].lexeme@
            &&& after.resolutions == st.resolutions
        }),
    decreases params.len(),
{
    if params.len() > 0 {
        let front = params.drop_last();
        assert forall|a: int, b: int| 0 <= a < b < front.len() implies #[trigger] front[a].lexeme@ != #[trigger] front[b].lexeme@ by {
            assert(front[a] == params[a] && front[b] == params[b]);
        }
        lemma_params_scope(front, st);
        let before = params_s(front, st);
        let last = params.last();
        let inner = before.scopes.last();
        lemma_slot_of(inner, last.lexeme@);
        assert forall|k: int| 0 <= k < inner.len() implies inner[k].name != last.lexeme@ by {
            assert(front[k] == params[k]);
            assert(params[k].lexeme@ != params[params.len() - 1].lexeme@);
        }
        let declared = declare_s(before, last);
        assert(declared.scopes.last() == inner.push(LocalView { name: last.lexeme@, token: Some(last), defined: false, used: false }));
        lemma_slot_of(declared.scopes.last(), last.lexeme@);
        let after = params_s(params, st);
        assert forall|e: int| 0 <= e < st.scopes.len() - 1 implies #[trigger] after.scopes[e] == st.scopes[e] by {
            assert(before.scopes[e] == st.scopes[e]);
        }
        assert forall|k: int| 0 <= k < params.len() implies (#[trigger] after.scopes.last()[k]).name == params[k].lexeme@ by {
            if k < front.len() {
                assert(front[k] == params[k]);
                assert(inner[k].name == front[k].lexeme@);
            }
        }
    }
}

/// Inside a function declared with distinct parameter names, every variable
/// read or assignment in its body (in statements that declare nothing) that
/// names a parameter is placed at that parameter: slot `i` for the `i`th
/// parameter, at a distance of the number of blocks around the reference
/// inside the body.
pub proof fn law_parameter_references_resolve_to_parameters(
    name: Token,
    parameters: std::rc::Rc<Vec<Token>>,
    body: std::rc::Rc<Vec<Stmt>>,
    st: ResolverState,
)
    requires
        distinct_names((*parameters)@),
        plain_list((*body)@),
        distinct_ids(list_refs((*body)@)),
    ensures
        forall|j: int, i: int|
            0 <= j < list_refs((*body)@).len() && 0 <= i < (*parameters)@.len() && (#[trigger] list_refs((*body)@)[j]).name
                == (#[trigger] (*parameters)@[i]).lexeme@ ==> {
                &&& stmt_s(Stmt::Function { name, parameters, body }, st).resolutions.contains_key(list_refs((*body)@)[j].id)
                &&& stmt_s(Stmt::Function { name, parameters, body }, st).resolutions[list_refs((*body)@)[j].id] == (LocalResolution {
                    distance: list_refs((*body)@)[j].blocks as usize,
                    slot: i as usize,
                })
            },
{
    let outer = define_s(declare_s(st, name), name.lexeme@);
    lemma_function_refs((*parameters)@, (*body)@, FunctionType::Function, outer);
    assert(stmt_s(Stmt::Function { name, parameters, body }, st) == function_s(
        (*parameters)@,
        (*body)@,
        FunctionType::Function,
        outer,
    ));
}

/// Resolving statements one list after another is resolving the joined list.
proof fn lemma_list_append(a: Seq<Stmt>, b: Seq<Stmt>, st: ResolverState)
    ensures
        list_s(a + b, st) == list_s(b, list_s(a, st)),
    decreases b.len(),
{
    if b.len() == 0 {
        assert(a + b =~= a);
    } else {
        assert((a + b).drop_last() =~= a + b.drop_last());
        assert((a + b).last() == b.last());
        lemma_list_append(a, b.drop_last(), st);
    }
}

/// A `var` declaration whose initializer, if any, is a plain expression
/// with distinct reference ids.
pub open spec fn plain_declaration(s: Stmt) -> bool {
    match s {
        Stmt::Var { initializer, .. } => match initializer {
            Some(e) => plain_expr(e) && distinct_ids(expr_refs(e)),
            None => true,
        },
        Stmt::Function { parameters, body, .. } => distinct_names((*parameters)@) && plain_list((*body)@)
            && distinct_ids(list_refs((*body)@)),
        _ => false,
    }
}

/// The name a `var` or function declaration declares.
pub open spec fn declared_name(s: Stmt) -> Seq<char> {
    match s {
        Stmt::Var { name, .. } => name.lexeme@,
        Stmt::Function { name, .. } => name.lexeme@,
        _ => Seq::empty(),
    }
}

/// Resolving a function with distinct parameters and a body that declares
/// nothing leaves the open scopes with the same locals.
proof fn lemma_function_keeps_names(params: Seq<Token>, body: Seq<Stmt>, kind: FunctionType, st: ResolverState)
    requires
        distinct_names(params),
        plain_list(body),
        distinct_ids(list_refs(body)),
    ensures
        same_names(function_s(params, body, kind, st).scopes, st.scopes),
{
    let begun = begin_scope_s(ResolverState { function: kind, ..st });
    let inner = params_s(params, begun);
    lemma_params_scope(params, begun);
    lemma_list_refs(body, inner);
    let listed = list_s(body, inner);
    let after = function_s(params, body, kind, st);
    let n = st.scopes.len();
    assert(after.scopes == listed.scopes.drop_last());
    assert forall|i: int| 0 <= i < n implies (#[trigger] after.scopes[i]).len() == st.scopes[i].len() by {
        assert(inner.scopes[i] == begun.scopes[i]);
        assert(listed.scopes[i].len() == inner.scopes[i].len());
    }
    assert forall|i: int, k: int| 0 <= i < n && 0 <= k < after.scopes[i].len() implies (#[trigger] after.scopes[i][k]).name
        == st.scopes[i][k].name by {
        assert(inner.scopes[i] == begun.scopes[i]);
        assert(listed.scopes[i].len() == inner.scopes[i].len());
        assert(listed.scopes[i][k].name == inner.scopes[i][k].name);
    }
}

/// Declarations of distinct names in a new, empty innermost scope give it
/// one local per declaration, in order.
proof fn lemma_declarations_scope(decls: Seq<Stmt>, st: ResolverState)
    requires
        st.scopes.len() > 0,
        st.scopes.last().len() == 0,
        forall|j: int| 0 <= j < decls.len() ==> plain_declaration(#[trigger] decls[j]),
        forall|a: int, b: int| 0 <= a < b < decls.len() ==> declared_name(#[trigger] decls[a]) != declared_name(#[trigger] decls[b]),
    ensures
        ({
            let after = list_s(decls, st);
            &&& after.scopes.len() == st.scopes.len()
            &&& after.scopes.last().len() == decls.len()
            &&& forall|k: int| 0 <= k < decls.len() ==> (#[trigger] after.scopes.last()[k]).name == declared_name(decls[k])
        }),
    decreases decls.len(),
{
    if decls.len() > 0 {
        let front = decls.drop_last();
        assert forall|j: int| 0 <= j < front.len() implies plain_declaration(#[trigger] front[j]) by {
            assert(front[j] == decls[j]);
        }
        assert forall|a: int, b: int| 0 <= a < b < front.len() implies declared_name(#[trigger] front[a]) != declared_name(#[trigger] front[b]) by {
            assert(front[a] == decls[a] && front[b] == decls[b]);
        }
        lemma_declarations_scope(front, st);
        let before = list_s(front, st);
        let inner = before.scopes.last();
        let last = decls.last();
        assert(plain_declaration(decls[decls.len() - 1]));
        match last {
            Stmt::Var { name, initializer } => {
                lemma_slot_of(inner, name.lexeme@);
                assert forall|k: int| 0 <= k < inner.len() implies inner[k].name != name.lexeme@ by {
                    assert(front[k] == decls[k]);
                    assert(declared_name(decls[k]) != declared_name(decls[decls.len() - 1]));
                }
                let declared = declare_s(before, name);
                assert(declared.scopes.last() == inner.push(
                    LocalView { name: name.lexeme@, token: Some(name), defined: false, used: false },
                ));
                let initialized = match initializer {
                    Some(e) => expr_s(e, declared),
                    None => declared,
                };
                match initializer {
                    Some(e) => {
                        lemma_expr_refs(e, declared);
                    },
                    None => {
                        lemma_same_names_refl(declared.scopes);
                    },
                }
                assert(same_names(initialized.scopes, declared.scopes));
                let n = declared.scopes.len();
                assert(initialized.scopes[n - 1].len() == declared.scopes[n - 1].len());
                assert forall|k: int| 0 <= k < decls.len() implies (#[trigger] initialized.scopes.last()[k]).name == declared_name(decls[k]) by {
                    assert(initialized.scopes[n - 1][k].name == declared.scopes[n - 1][k].name);
                    if k < front.len() {
                        assert(front[k] == decls[k]);
                    }
                }
                lemma_slot_of(initialized.scopes.last(), name.lexeme@);
                let after = list_s(decls, st);
                assert(after == stmt_s(decls.last(), before));
                assert(stmt_s(Stmt::Var { name, initializer }, before) == define_s(initialized, name.lexeme@));
                assert(after == define_s(initialized, name.lexeme@));
                assert forall|k: int| 0 <= k < decls.len() implies (#[trigger] after.scopes.last()[k]).name == declared_name(decls[k]) by {
                    assert(initialized.scopes.last()[k].name == declared_name(decls[k]));
                }
            },
            Stmt::Function { name, parameters, body } => {
                lemma_slot_of(inner, name.lexeme@);
                assert forall|k: int| 0 <= k < inner.len() implies inner[k].name != name.lexeme@ by {
                    assert(front[k] == decls[k]);
                    assert(declared_name(decls[k]) != declared_name(decls[decls.len() - 1]));
                }
                let declared = declare_s(before, name);
                assert(declared.scopes.last() == inner.push(
                    LocalView { name: name.lexeme@, token: Some(name), defined: false, used: false },
                ));
                lemma_slot_of(declared.scopes.last(), name.lexeme@);
                let defined = define_s(declared, name.lexeme@);
                let n = defined.scopes.len();
                assert forall|k: int| 0 <= k < decls.len() implies (#[trigger] defined.scopes.last()[k]).name == declared_name(decls[k]) by {
                    if k < front.len() {
                        assert(front[k] == decls[k]);
                    }
                }
                lemma_function_keeps_names((*parameters)@, (*body)@, FunctionType::Function, defined);
                let after = list_s(decls, st);
                assert(after == stmt_s(decls.last(), before));
                assert(after == function_s((*parameters)@, (*body)@, FunctionType::Function, defined));
                assert(after.scopes[n - 1].len() == defined.scopes[n - 1].len());
                assert forall|k: int| 0 <= k < decls.len() implies (#[trigger] after.scopes.last()[k]).name == declared_name(decls[k]) by {
                    assert(after.scopes[n - 1][k].name == defined.scopes[n - 1][k].name);
                    assert(defined.scopes.last()[k].name == declared_name(decls[k]));
                }
            },
            _ => {},
        }
    }
}

/// In a block that opens with `var` and function declarations of distinct
/// names, followed by statements that declare nothing, every variable read
/// or assignment in those statements that names one of the declared names
/// is placed at its declaration: slot `i` for the `i`th declaration, at a
/// distance of the number of blocks around the reference inside the block.
pub proof fn law_block_references_resolve_to_block_locals(
    decls: Seq<Stmt>,
    rest: Seq<Stmt>,
    statements: Vec<Stmt>,
    st: ResolverState,
)
    requires
        statements@ == decls + rest,
        forall|j: int| 0 <= j < decls.len() ==> plain_declaration(#[trigger] decls[j]),
        forall|a: int, b: int| 0 <= a < b < decls.len() ==> declared_name(#[trigger] decls[a]) != declared_name(#[trigger] decls[b]),
        plain_list(rest),
        distinct_ids(list_refs(rest)),
    ensures
        forall|j: int, i: int|
            0 <= j < list_refs(rest).len() && 0 <= i < decls.len() && (#[trigger] list_refs(rest)[j]).name
                == declared_name(#[trigger] decls[i]) ==> {
                &&& stmt_s(Stmt::Block { statements }, st).resolutions.contains_key(list_refs(rest)[j].id)
                &&& stmt_s(Stmt::Block { statements }, st).resolutions[list_refs(rest)[j].id] == (LocalResolution {
                    distance: list_refs(rest)[j].blocks as usize,
                    slot: i as usize,
                })
            },
{
    let refs = list_refs(rest);
    let begun = begin_scope_s(st);
    lemma_declarations_scope(decls, begun);
    let mid = list_s(decls, begun);
    lemma_list_append(decls, rest, begun);
    lemma_list_refs(rest, mid);
    let done = list_s(rest, mid);
    let m = st.scopes.len();
    assert(stmt_s(Stmt::Block { statements }, st).resolutions == done.resolutions);
    assert forall|j: int, i: int|
        0 <= j < refs.len() && 0 <= i < decls.len() && (#[trigger] refs[j]).name == declared_name(#[trigger] decls[i]) implies {
            &&& done.resolutions.contains_key(refs[j].id)
            &&& done.resolutions[refs[j].id] == (LocalResolution { distance: refs[j].blocks as usize, slot: i as usize })
        } by {
        let r = refs[j];
        assert(resolved_as_declared(mid.scopes, mid.resolutions, done.resolutions, r));
        let top = mid.scopes[m as int];
        assert(top == mid.scopes.last());
        lemma_slot_of(top, r.name);
        assert(top[i].name == r.name);
        match slot_of(top, r.name) {
            Some(q) => {
                if (q as int) < i {
                    assert(top[q as int].name == declared_name(decls[q as int]));
                    assert(declared_name(decls[q as int]) != declared_name(decls[i]));
                }
                assert(q == i);
            },
            None => {
                assert(false);
            },
        }
        assert(declared_in(mid.scopes, r.name));
        let (a, k) = choose|a: nat, k: nat|
            #[trigger] nearest_declaration(mid.scopes, r.name, (m + 1) as int, a, k) && done.resolutions.contains_key(r.id)
                && done.resolutions[r.id] == (LocalResolution { distance: (m + 1 - 1 - a + r.blocks) as usize, slot: k as usize });
        if a < m {
            assert(slot_of(mid.scopes[m as int], r.name) is None);
        }
        assert(a == m);
    }
}

/// Resolving a function with distinct parameter names and a body that
/// declares nothing places each reference in the body that names a
/// parameter at that parameter (slot `i` for the `i`th, at the distance of
/// the blocks around it), and changes no placement of an expression outside
/// the body's references.
proof fn lemma_function_refs(params: Seq<Token>, body: Seq<Stmt>, kind: FunctionType, st: ResolverState)
    requires
        distinct_names(params),
        plain_list(body),
        distinct_ids(list_refs(body)),
    ensures
        forall|id: ExprId|
            !has_id(list_refs(body), id) ==> #[trigger] kept_at(st.resolutions, function_s(params, body, kind, st).resolutions, id),
        forall|j: int, i: int|
            0 <= j < list_refs(body).len() && 0 <= i < params.len() && (#[trigger] list_refs(body)[j]).name
                == (#[trigger] params[i]).lexeme@ ==> {
                &&& function_s(params, body, kind, st).resolutions.contains_key(list_refs(body)[j].id)
                &&& function_s(params, body, kind, st).resolutions[list_refs(body)[j].id] == (LocalResolution {
                    distance: list_refs(body)[j].blocks as usize,
                    slot: i as usize,
                })
            },
{
    let refs = list_refs(body);
    let begun = begin_scope_s(ResolverState { function: kind, ..st });
    let inner = params_s(params, begun);
    lemma_params_scope(params, begun);
    lemma_list_refs(body, inner);
    let done = list_s(body, inner);
    let m = st.scopes.len();
    assert(function_s(params, body, kind, st).resolutions == done.resolutions);
    assert forall|id: ExprId| !has_id(refs, id) implies #[trigger] kept_at(st.resolutions, done.resolutions, id) by {
        assert(kept_at(inner.resolutions, done.resolutions, id));
    }
    assert forall|j: int, i: int|
        0 <= j < refs.len() && 0 <= i < params.len() && (#[trigger] refs[j]).name == (#[trigger] params[i]).lexeme@ implies {
            &&& done.resolutions.contains_key(refs[j].id)
            &&& done.resolutions[refs[j].id] == (LocalResolution { distance: refs[j].blocks as usize, slot: i as usize })
        } by {
        let r = refs[j];
        assert(resolved_as_declared(inner.scopes, inner.resolutions, done.resolutions, r));
        let top = inner.scopes[m as int];
        assert(top == inner.scopes.last());
        lemma_slot_of(top, r.name);
        assert(top[i].name == r.name);
        match slot_of(top, r.name) {
            Some(q) => {
                if (q as int) < i {
                    assert(top[q as int].name == params[q as int].lexeme@);
                    assert(params[q as int].lexeme@ != params[i].lexeme@);
                }
                assert(q == i);
            },
            None => {
                assert(false);
            },
        }
        assert(declared_in(inner.scopes, r.name));
        let (a, k) = choose|a: nat, k: nat|
            #[trigger] nearest_declaration(inner.scopes, r.name, (m + 1) as int, a, k) && done.resolutions.contains_key(r.id)
                && done.resolutions[r.id] == (LocalResolution { distance: (m + 1 - 1 - a + r.blocks) as usize, slot: k as usize });
        if a < m {
            assert(slot_of(inner.scopes[m as int], r.name) is None);
        }
        assert(a == m);
    }
}

/// The parameters of a class member (a getter has none).
pub open spec fn member_parameters(m: ClassMember) -> Seq<Token> {
    match m {
        ClassMember::Method { parameters, .. } => (*parameters)@,
        ClassMember::StaticMethod { parameters, .. } => (*parameters)@,
        ClassMember::Getter { .. } => Seq::empty(),
    }
}

/// The statements of a class member's body.
pub open spec fn member_statements(m: ClassMember) -> Seq<Stmt> {
    match m {
        ClassMember::Method { body, .. } => (*body)@,
        ClassMember::StaticMethod { body, .. } => (*body)@,
        ClassMember::Getter { body, .. } => (*body)@,
    }
}

/// A member with distinct parameter names whose body declares nothing.
pub open spec fn plain_member(m: ClassMember) -> bool {
    &&& distinct_names(member_parameters(m))
    &&& plain_list(member_statements(m))
    &&& distinct_ids(list_refs(member_statements(m)))
}

/// The references of all members' bodies, member after member.
pub open spec fn members_refs(members: Seq<ClassMember>) -> Seq<VarRef>
    decreases members.len(),
{
    if members.len() == 0 {
        Seq::empty()
    } else {
        members_refs(members.drop_last()) + list_refs(member_statements(members.last()))
    }
}

/// Resolving plain members places each reference to a member's parameter
/// at that parameter, and changes no other placement.
proof fn lemma_members_refs(members: Seq<ClassMember>, st: ResolverState)
    requires
        forall|q: int| 0 <= q < members.len() ==> plain_member(#[trigger] members[q]),
        distinct_ids(members_refs(members)),
    ensures
        forall|id: ExprId|
            !has_id(members_refs(members), id) ==> #[trigger] kept_at(st.resolutions, members_s(members, st).resolutions, id),
        forall|q: int, j: int, i: int|
            0 <= q < members.len() && 0 <= j < list_refs(member_statements(members[q])).len() && 0 <= i
                < member_parameters(members[q]).len() && (#[trigger] list_refs(member_statements(members[q]))[j]).name
                == (#[trigger] member_parameters(members[q])[i]).lexeme@ ==> {
                &&& members_s(members, st).resolutions.contains_key(list_refs(member_statements(members[q]))[j].id)
                &&& members_s(members, st).resolutions[list_refs(member_statements(members[q]))[j].id] == (LocalResolution {
                    distance: list_refs(member_statements(members[q]))[j].blocks as usize,
                    slot: i as usize,
                })
            },
    decreases members.len(),
{
    if members.len() > 0 {
        let front = members.drop_last();
        let last = members.last();
        let rf = members_refs(front);
        let rl = list_refs(member_statements(last));
        lemma_distinct_split(rf, rl);
        assert forall|q: int| 0 <= q < front.len() implies plain_member(#[trigger] front[q]) by {
            assert(front[q] == members[q]);
        }
        lemma_members_refs(front, st);
        let before = members_s(front, st);
        assert(plain_member(members[members.len() - 1]));
        let params = member_parameters(last);
        let body = member_statements(last);
        let after = members_s(members, st);
        match last {
            ClassMember::Method { parameters, body: b, .. } => {
                let entry = declare_implicit_s(begin_scope_s(before), "this"@);
                lemma_function_refs(params, body, FunctionType::Method, entry);
                assert(after.resolutions == function_s(params, body, FunctionType::Method, entry).resolutions);
                assert(entry.resolutions == before.resolutions);
            },
            ClassMember::Getter { body: b, .. } => {
                let entry = declare_implicit_s(begin_scope_s(before), "this"@);
                assert(params =~= Seq::<Token>::empty());
                lemma_function_refs(params, body, FunctionType::Method, entry);
                assert(after.resolutions == function_s(Seq::empty(), body, FunctionType::Method, entry).resolutions);
            },
            ClassMember::StaticMethod { parameters, body: b, .. } => {
                let entry = ResolverState { class: ClassType::Outside, ..before };
                lemma_function_refs(params, body, FunctionType::Function, entry);
                assert(after.resolutions == function_s(params, body, FunctionType::Function, entry).resolutions);
            },
        }
        let all = rf + rl;
        assert forall|id: ExprId| !has_id(all, id) implies #[trigger] kept_at(st.resolutions, after.resolutions, id) by {
            if has_id(rf, id) {
                let j = choose|j: int| 0 <= j < rf.len() && #[trigger] rf[j].id == id;
                assert(all[j] == rf[j]);
            }
            if has_id(rl, id) {
                let j = choose|j: int| 0 <= j < rl.len() && #[trigger] rl[j].id == id;
                assert(all[rf.len() + j] == rl[j]);
            }
            assert(kept_at(st.resolutions, before.resolutions, id));
            assert(kept_at(before.resolutions, after.resolutions, id));
        }
        assert forall|q: int, j: int, i: int|
            0 <= q < members.len() && 0 <= j < list_refs(member_statements(members[q])).len() && 0 <= i
                < member_parameters(members[q]).len() && (#[trigger] list_refs(member_statements(members[q]))[j]).name
                == (#[trigger] member_parameters(members[q])[i]).lexeme@ implies {
                &&& after.resolutions.contains_key(list_refs(member_statements(members[q]))[j].id)
                &&& after.resolutions[list_refs(member_statements(members[q]))[j].id] == (LocalResolution {
                    distance: list_refs(member_statements(members[q]))[j].blocks as usize,
                    slot: i as usize,
                })
            } by {
            if q < front.len() {
                assert(front[q] == members[q]);
                let r = list_refs(member_statements(front[q]))[j];
                lemma_refs_in_members(front, q, j);
                assert(has_id(rf, r.id));
                assert(!has_id(rl, r.id)) by {
                    if has_id(rl, r.id) {
                        let y = choose|y: int| 0 <= y < rl.len() && #[trigger] rl[y].id == r.id;
                        let x = choose|x: int| 0 <= x < rf.len() && #[trigger] rf[x].id == r.id;
                        assert(rf[x].id != rl[y].id);
                    }
                }
                assert(kept_at(before.resolutions, after.resolutions, r.id));
            } else {
                assert(members[q] == last);
            }
        }
    }
}

/// Each body reference of member `q` is among the members' references.
proof fn lemma_refs_in_members(members: Seq<ClassMember>, q: int, j: int)
    requires
        0 <= q < members.len(),
        0 <= j < list_refs(member_statements(members[q])).len(),
    ensures
        has_id(members_refs(members), list_refs(member_statements(members[q]))[j].id),
    decreases members.len(),
{
    let front = members.drop_last();
    let rf = members_refs(front);
    let all = members_refs(members);
    if q < members.len() - 1 {
        assert(front[q] == members[q]);
        lemma_refs_in_members(front, q, j);
        let x = choose|x: int| 0 <= x < rf.len() && #[trigger] rf[x].id == list_refs(member_statements(members[q]))[j].id;
        assert(all[x] == rf[x]);
    } else {
        assert(all[rf.len() + j] == list_refs(member_statements(members[q]))[j]);
    }
}

/// In a class whose methods, getters and static methods have distinct
/// parameter names and bodies that declare nothing, every variable read or
/// assignment in a member's body that names one of that member's parameters
/// is placed at that parameter: slot `i` for the `i`th parameter, at the
/// distance of the blocks around the reference inside the body.
pub proof fn law_member_parameter_references_resolve_to_parameters(
    name: Token,
    superclass: Option<Expr>,
    methods: Vec<ClassMember>,
    st: ResolverState,
)
    requires
        forall|q: int| 0 <= q < methods@.len() ==> plain_member(#[trigger] methods@[q]),
        distinct_ids(members_refs(methods@)),
    ensures
        forall|q: int, j: int, i: int|
            0 <= q < methods@.len() && 0 <= j < list_refs(member_statements(methods@[q])).len() && 0 <= i
                < member_parameters(methods@[q]).len() && (#[trigger] list_refs(member_statements(methods@[q]))[j]).name
                == (#[trigger] member_parameters(methods@[q])[i]).lexeme@ ==> {
                &&& stmt_s(Stmt::Class { name, superclass, methods }, st).resolutions.contains_key(
                    list_refs(member_statements(methods@[q]))[j].id,
                )
                &&& stmt_s(Stmt::Class { name, superclass, methods }, st).resolutions[list_refs(
                    member_statements(methods@[q]),
                )[j].id] == (LocalResolution {
                    distance: list_refs(member_statements(methods@[q]))[j].blocks as usize,
                    slot: i as usize,
                })
            },
{
    let named = define_s(declare_s(ResolverState { class: ClassType::Class, ..st }, name), name.lexeme@);
    let with_super = match superclass {
        Some(super_expr) => {
            let checked = match super_expr {
                Expr::Variable { name: super_name, .. } => if super_name.lexeme@ == name.lexeme@ {
                    with_error(named, super_name, "A class can't inherit from itself."@)
                } else {
                    named
                },
                _ => named,
            };
            let resolved = expr_s(super_expr, ResolverState { class: ClassType::Subclass, ..checked });
            declare_implicit_s(begin_scope_s(resolved), "super"@)
        },
        None => named,
    };
    lemma_members_refs(methods@, with_super);
    let done = members_s(methods@, with_super);
    assert(stmt_s(Stmt::Class { name, superclass, methods }, st).resolutions == done.resolutions);
}

/// A `return` outside any function is reported, at its keyword, before
/// anything its value reports; inside a function it reports nothing of its own.
pub proof fn law_return_outside_function_is_reported(keyword: Token, st: ResolverState)
    ensures
        st.function == FunctionType::TopLevel ==> stmt_s(Stmt::Return { keyword, value: None }, st).errors == st.errors.push(
            (keyword, "Can't return from top level code."@),
        ),
        st.function != FunctionType::TopLevel ==> stmt_s(Stmt::Return { keyword, value: None }, st).errors == st.errors,
{
}

/// Inside a scope, a `var` whose initializer is the variable being declared
/// (and not declared before in that scope) is reported, at the read, as
/// reading a local in its own initializer.
pub proof fn law_own_initializer_is_reported(name: Token, id: ExprId, read: Token, st: ResolverState)
    requires
        st.scopes.len() > 0,
        slot_of(st.scopes.last(), name.lexeme@) is None,
        read.lexeme@ == name.lexeme@,
    ensures
        stmt_s(Stmt::Var { name, initializer: Some(Expr::Variable { id, name: read }) }, st).errors == st.errors.push(
            (read, "Can't read local variable in its own initializer."@),
        ),
{
    let declared = declare_s(st, name);
    let last = declared.scopes.last();
    assert(last == st.scopes.last().push(LocalView { name: name.lexeme@, token: Some(name), defined: false, used: false }));
    lemma_slot_of(st.scopes.last(), name.lexeme@);
    lemma_slot_of(last, name.lexeme@);
    match slot_of(last, name.lexeme@) {
        Some(j) => {
            if (j as int) < st.scopes.last().len() {
                assert(last[j as int] == st.scopes.last()[j as int]);
            }
            assert(j == st.scopes.last().len());
        },
        None => {
            assert(last[st.scopes.last().len() as int].name == name.lexeme@);
        },
    }
    assert(declared_not_defined_s(declared, read.lexeme@));
    let checked = with_error(declared, read, "Can't read local variable in its own initializer."@);
    lemma_resolve_from(checked, id, read.lexeme@, true, 0);
    let e = Expr::Variable { id, name: read };
    assert(expr_s(e, declared) == resolve_local_s(checked, id, read.lexeme@, true));
    let initialized = expr_s(e, declared);
    assert(initialized.errors == checked.errors);
    assert(stmt_s(Stmt::Var { name, initializer: Some(e) }, st) == define_s(initialized, name.lexeme@));
    assert(define_s(initialized, name.lexeme@).errors == initialized.errors);
}

} // verus!

//! User-defined functions and methods.
use vstd::prelude::*;
use std::rc::Rc;
use crate::environment::{env_views, envs_wf, Environment, EnvironmentRef};
use crate::stmt::Stmt;
use crate::text::owned;
use crate::token::{InstanceRef, Token, Value};

verus! {

/// A function value: its declaration and the scope it closes over.
pub struct LoxFunction {
    name: Option<Token>,
    params: Rc<Vec<Token>>,
    body: Rc<Vec<Stmt>>,
    closure: EnvironmentRef,
    is_initializer: bool,
}

impl LoxFunction {
    pub fn new(
        name: Option<Token>,
        params: Rc<Vec<Token>>,
        body: Rc<Vec<Stmt>>,
        closure: EnvironmentRef,
        is_initializer: bool,
    ) -> (f: Self)
        ensures
            f.closure() == closure,
            f.arity_spec() == params@.len(),
            f.is_initializer() == is_initializer,
            f.name_token() == name,
            f.body_spec() == body@,
    {
        LoxFunction { name, params, body, closure, is_initializer }
    }

    pub closed spec fn closure(&self) -> EnvironmentRef {
        self.closure
    }

    pub closed spec fn arity_spec(&self) -> nat {
        self.params@.len()
    }

    pub closed spec fn is_initializer(&self) -> bool {
        self.is_initializer
    }

    pub closed spec fn name_token(&self) -> Option<Token> {
        self.name
    }

    /// The statements of the function's body.
    pub closed spec fn body_spec(&self) -> Seq<Stmt> {
        self.body@
    }

    pub fn closure_ref(&self) -> (r: EnvironmentRef)
        ensures
            r == self.closure(),
    {
        self.closure
    }

    pub fn initializer(&self) -> (r: bool)
        ensures
            r == self.is_initializer(),
    {
        self.is_initializer
    }

    pub fn params(&self) -> (p: Rc<Vec<Token>>)
        ensures
            p@.len() == self.arity_spec(),
    {
        Rc::clone(&self.params)
    }

    pub fn body(&self) -> (b: Rc<Vec<Stmt>>)
        ensures
            b@ == self.body_spec(),
    {
        Rc::clone(&self.body)
    }

    /// The same function with `this` bound to `instance`: a new scope inside
    /// the closure whose first local slot holds the instance.
    pub fn bind(&self, environments: &mut Vec<Environment>, instance: InstanceRef) -> (f: LoxFunction)
        requires
            envs_wf(env_views(old(environments)@)),
            self.closure() < old(environments)@.len(),
        ensures
            env_views(final(environments)@).len() == old(environments)@.len() + 1,
            env_views(final(environments)@).drop_last() == env_views(old(environments)@),
            env_views(final(environments)@).last().local_values == seq![Some(Value::Instance(instance))],
            env_views(final(environments)@).last().enclosing == Some(self.closure() as nat),
            env_views(final(environments)@).last().values.is_empty(),
            envs_wf(env_views(final(environments)@)),
            f.closure() == old(environments)@.len(),
            f.arity_spec() == self.arity_spec(),
            f.is_initializer() == self.is_initializer(),
            f.name_token() == self.name_token(),
            f.body_spec() == self.body_spec(),
    {
        let mut environment = Environment::from(self.closure);
        environment.define_local(Some(Value::Instance(instance)));
        let index = environments.len();
        environments.push(environment);
        proof {
            let old_v = env_views(old(environments)@);
            let new_v = env_views(environments@);
            assert(new_v.drop_last() =~= old_v);
            assert(new_v.last().local_values =~= seq![Some(Value::Instance(instance))]);
            assert forall|i: int| 0 <= i < new_v.len() implies match (#[trigger] new_v[i]).enclosing {
                Some(j) => j < i,
                None => true,
            } by {
                if i < old_v.len() {
                    assert(new_v[i] == old_v[i]);
                }
            }
        }
        LoxFunction::new(
            match &self.name {
                Some(t) => Some(t.clone()),
                None => None,
            },
            Rc::clone(&self.params),
            Rc::clone(&self.body),
            index,
            self.is_initializer,
        )
    }

    pub fn arity(&self) -> (n: usize)
        ensures
            n == self.arity_spec(),
    {
        self.params.len()
    }

    /// The function's name, or `anonymous`.
    pub fn name(&self) -> (s: String)
        ensures
            match self.name_token() {
                Some(t) => s@ == t.lexeme@,
                None => s@ == "anonymous"@,
            },
    {
        match &self.name {
            Some(t) => t.lexeme.clone(),
            None => owned("anonymous"),
        }
    }
}

} // verus!
